use crypto::rng::{rand_u64_from, rdrand_in_ecx, HardwareRng, NoHardware, XorShift128};
use crypto::{rand_bytes, rand_u64, sha256};

const FALLBACK_WORDS: [u64; 6] = [
    0xd5f01db7193a6754,
    0x5a8cd22ad5f01db7,
    0xcc1e418e5a8cd22a,
    0x06d49f9ecc1e418e,
    0x539c275606d49f9e,
    0x6fbdb28d539c2756,
];

/// A stand-in for the processor: a fixed answer to the probe and a queue of draws.
struct FakeHardware {
    supported: bool,
    draws: Vec<Option<u64>>,
    probes: usize,
    drawn: usize,
}

impl FakeHardware {
    fn new(supported: bool, draws: Vec<Option<u64>>) -> FakeHardware {
        FakeHardware { supported, draws, probes: 0, drawn: 0 }
    }
}

impl HardwareRng for FakeHardware {
    fn is_supported(&mut self) -> bool {
        self.probes += 1;
        self.supported
    }

    fn draw(&mut self) -> Option<u64> {
        let r = self.draws[self.drawn];
        self.drawn += 1;
        r
    }
}

fn le_bytes(words: &[u64]) -> Vec<u8> {
    words.iter().flat_map(|w| w.to_le_bytes()).collect()
}

#[test]
fn fallback_sequence_from_seed() {
    let mut st = XorShift128::new();
    for w in FALLBACK_WORDS.iter() {
        assert_eq!(st.next_u64(), *w);
    }
    assert_eq!(
        st,
        XorShift128 { s0: 0x6fbdb28d, s1: 0x539c2756, s2: 0x06d49f9e, s3: 0xcc1e418e }
    );
}

#[test]
fn fallback_sequence_is_reproducible() {
    let mut a = XorShift128::new();
    let mut b = XorShift128::new();
    let mut hw = NoHardware;
    let xs: Vec<u64> = (0..50).map(|_| rand_u64(&mut hw, &mut a)).collect();
    let ys: Vec<u64> = (0..50).map(|_| rand_u64(&mut hw, &mut b)).collect();
    assert_eq!(xs, ys);
    assert_eq!(&xs[..6], &FALLBACK_WORDS[..]);
}

#[test]
fn rand_bytes_without_hardware_is_reproducible() {
    let mut hw = NoHardware;
    let mut st = XorShift128::new();
    let mut buf = [0u8; 24];
    rand_bytes(&mut hw, &mut st, &mut buf);
    assert_eq!(
        buf.to_vec(),
        vec![
            84, 103, 58, 25, 183, 29, 240, 213, 183, 29, 240, 213, 42, 210, 140, 90, 42, 210,
            140, 90, 142, 65, 30, 204
        ]
    );
}

#[test]
fn rand_bytes_lengths_one_to_sixteen() {
    let expected = le_bytes(&FALLBACK_WORDS[..2]);
    for n in 1..=16usize {
        let mut hw = NoHardware;
        let mut st = XorShift128::new();
        let mut big = [0xaau8; 20];
        rand_bytes(&mut hw, &mut st, &mut big[2..2 + n]);
        assert_eq!(&big[2..2 + n], &expected[..n]);
        assert_eq!(&big[..2], &[0xaa, 0xaa]);
        assert!(big[2 + n..].iter().all(|b| *b == 0xaa));
        let mut after = XorShift128::new();
        for _ in 0..(n + 7) / 8 {
            after.next_u64();
        }
        assert_eq!(st, after);
    }
}

#[test]
fn rand_bytes_on_empty_buffer_draws_nothing() {
    let mut hw = FakeHardware::new(true, vec![]);
    let mut st = XorShift128::new();
    let mut buf: [u8; 0] = [];
    rand_bytes(&mut hw, &mut st, &mut buf);
    assert_eq!(hw.probes, 0);
    assert_eq!(st, XorShift128::new());
}

#[test]
fn hardware_value_is_used_when_supported() {
    let mut hw = FakeHardware::new(true, vec![Some(0x0123456789abcdef)]);
    let mut st = XorShift128::new();
    assert_eq!(rand_u64(&mut hw, &mut st), 0x0123456789abcdef);
    assert_eq!(st, XorShift128::new());
    assert_eq!(hw.drawn, 1);
}

#[test]
fn failed_hardware_draw_falls_back_without_retry() {
    let mut hw = FakeHardware::new(true, vec![None, Some(7)]);
    let mut st = XorShift128::new();
    assert_eq!(rand_u64(&mut hw, &mut st), FALLBACK_WORDS[0]);
    assert_eq!(hw.drawn, 1);
    assert_eq!(rand_u64(&mut hw, &mut st), 7);
}

#[test]
fn unsupported_hardware_is_probed_each_call_and_never_drawn() {
    let mut hw = FakeHardware::new(false, vec![]);
    let mut st = XorShift128::new();
    assert_eq!(rand_u64(&mut hw, &mut st), FALLBACK_WORDS[0]);
    assert_eq!(rand_u64(&mut hw, &mut st), FALLBACK_WORDS[1]);
    assert_eq!(hw.probes, 2);
    assert_eq!(hw.drawn, 0);
}

#[test]
fn rand_bytes_with_hardware_words() {
    let mut hw = FakeHardware::new(true, vec![Some(0x0807060504030201), None]);
    let mut st = XorShift128::new();
    let mut buf = [0u8; 11];
    rand_bytes(&mut hw, &mut st, &mut buf);
    let mut expected = vec![1u8, 2, 3, 4, 5, 6, 7, 8];
    expected.extend_from_slice(&FALLBACK_WORDS[0].to_le_bytes()[..3]);
    assert_eq!(buf.to_vec(), expected);
}

#[test]
fn rand_u64_from_uses_hardware_value() {
    let mut st = XorShift128::new();
    assert_eq!(rand_u64_from(Some(42), &mut st), 42);
    assert_eq!(st, XorShift128::new());
}

#[test]
fn rand_u64_from_falls_back_on_none() {
    let mut st = XorShift128::new();
    assert_eq!(rand_u64_from(None, &mut st), FALLBACK_WORDS[0]);
    assert_eq!(rand_u64_from(None, &mut st), FALLBACK_WORDS[1]);
}

#[test]
fn hashing_does_not_disturb_the_generator() {
    let mut hw = NoHardware;
    let mut st = XorShift128::new();
    let a = rand_u64(&mut hw, &mut st);
    let d1 = sha256(b"abc");
    let b = rand_u64(&mut hw, &mut st);
    let d2 = sha256(b"abc");
    assert_eq!(a, FALLBACK_WORDS[0]);
    assert_eq!(b, FALLBACK_WORDS[1]);
    assert_eq!(d1, d2);
}

#[test]
fn rdrand_flag_is_bit_30_of_ecx() {
    assert!(rdrand_in_ecx(0x4000_0000));
    assert!(rdrand_in_ecx(0xffff_ffff));
    assert!(!rdrand_in_ecx(0xbfff_ffff));
    assert!(!rdrand_in_ecx(0));
}
