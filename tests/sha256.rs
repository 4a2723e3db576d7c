use crypto::sha256;

fn hex(d: &[u8; 32]) -> String {
    let mut s = String::new();
    for b in d.iter() {
        s.push_str(&format!("{:02x}", b));
    }
    s
}

fn pattern(n: usize) -> Vec<u8> {
    (0..n).map(|i| ((i * 7 + 3) & 0xff) as u8).collect()
}

#[test]
fn digest_of_empty_input() {
    assert_eq!(
        hex(&sha256(&[])),
        "e3b0c44298fc1c149afbf4c8996fb92427ae41e4649b934ca495991b7852b855"
    );
}

#[test]
fn digest_of_abc() {
    assert_eq!(
        hex(&sha256(b"abc")),
        "ba7816bf8f01cfea414140de5dae2223b00361a396177a9cb410ff61f20015ad"
    );
}

#[test]
fn digest_of_two_block_vector() {
    assert_eq!(
        hex(&sha256(b"abcdbcdecdefdefgefghfghighijhijkijkljklmklmnlmnomnopnopq")),
        "248d6a61d20638b8e5c026930c3e6039a33ce45964ff2167f6ecedd419db06c1"
    );
}

#[test]
fn digest_at_55_bytes_fits_one_block() {
    assert_eq!(
        hex(&sha256(&pattern(55))),
        "e7313d333c272e639f790978283f9eb392e843d0f29b7016828bb1daa4aac70b"
    );
}

#[test]
fn digest_at_56_bytes_needs_extra_block() {
    assert_eq!(
        hex(&sha256(&pattern(56))),
        "4324d65f3c103567f5589c710bc08f8523f929a9272e3af36fc968e52abc6c27"
    );
}

#[test]
fn digest_at_63_bytes() {
    assert_eq!(
        hex(&sha256(&pattern(63))),
        "81c80242132f230c3bd41b3e63bbcff16107339549214a99614ff26664625055"
    );
}

#[test]
fn digest_at_64_bytes_whole_block() {
    assert_eq!(
        hex(&sha256(&pattern(64))),
        "39e3d7b6b5d075d37d053ad89b24b41bef4f3c29760c84447cab3f3be1882241"
    );
}

#[test]
fn digest_at_119_bytes() {
    assert_eq!(
        hex(&sha256(&pattern(119))),
        "9ce7368e4daf32341631b492e80359dc9f594b48453cd0dd5bf0b19279cc177e"
    );
}

#[test]
fn digest_at_120_bytes() {
    assert_eq!(
        hex(&sha256(&pattern(120))),
        "7836b787757e95e58b3ca5aec90b1b004e8deba1e50e9675af9cabf1a13a04b5"
    );
}

#[test]
fn digest_is_always_32_bytes() {
    for n in 0..200 {
        let d = sha256(&pattern(n));
        assert_eq!(d.len(), 32);
    }
}

#[test]
fn hashing_twice_gives_the_same_digest() {
    for n in [0usize, 1, 55, 56, 64, 119, 200] {
        let data = pattern(n);
        assert_eq!(sha256(&data), sha256(&data));
    }
}

#[test]
fn one_changed_byte_changes_the_digest() {
    let a = pattern(64);
    let mut b = a.clone();
    b[10] ^= 1;
    assert_ne!(sha256(&a), sha256(&b));
}
