//! SHA-256 over a whole in-memory buffer, with its mathematical model.
use vstd::prelude::*;

verus! {

/// The 64 round constants.
pub open spec fn round_constants() -> Seq<u32> {
    seq![
        0x428a2f98u32, 0x71374491u32, 0xb5c0fbcfu32, 0xe9b5dba5u32, 0x3956c25bu32, 0x59f111f1u32, 0x923f82a4u32, 0xab1c5ed5u32,
        0xd807aa98u32, 0x12835b01u32, 0x243185beu32, 0x550c7dc3u32, 0x72be5d74u32, 0x80deb1feu32, 0x9bdc06a7u32, 0xc19bf174u32,
        0xe49b69c1u32, 0xefbe4786u32, 0x0fc19dc6u32, 0x240ca1ccu32, 0x2de92c6fu32, 0x4a7484aau32, 0x5cb0a9dcu32, 0x76f988dau32,
        0x983e5152u32, 0xa831c66du32, 0xb00327c8u32, 0xbf597fc7u32, 0xc6e00bf3u32, 0xd5a79147u32, 0x06ca6351u32, 0x14292967u32,
        0x27b70a85u32, 0x2e1b2138u32, 0x4d2c6dfcu32, 0x53380d13u32, 0x650a7354u32, 0x766a0abbu32, 0x81c2c92eu32, 0x92722c85u32,
        0xa2bfe8a1u32, 0xa81a664bu32, 0xc24b8b70u32, 0xc76c51a3u32, 0xd192e819u32, 0xd6990624u32, 0xf40e3585u32, 0x106aa070u32,
        0x19a4c116u32, 0x1e376c08u32, 0x2748774cu32, 0x34b0bcb5u32, 0x391c0cb3u32, 0x4ed8aa4au32, 0x5b9cca4fu32, 0x682e6ff3u32,
        0x748f82eeu32, 0x78a5636fu32, 0x84c87814u32, 0x8cc70208u32, 0x90befffau32, 0xa4506cebu32, 0xbef9a3f7u32, 0xc67178f2u32,
    ]
}

/// The initial hash value.
pub open spec fn initial_hash() -> Seq<u32> {
    seq![
        0x6a09e667u32, 0xbb67ae85u32, 0x3c6ef372u32, 0xa54ff53au32,
        0x510e527fu32, 0x9b05688cu32, 0x1f83d9abu32, 0x5be0cd19u32,
    ]
}

/// The big-endian 32-bit word made of `b[i..i + 4]`.
pub open spec fn be_word(b: Seq<u8>, i: int) -> u32 {
    ((b[i] as u32) << 24u32) | ((b[i + 1] as u32) << 16u32) | ((b[i + 2] as u32) << 8u32)
        | (b[i + 3] as u32)
}

/// Word `t` of the message schedule of a 64-byte block.
pub open spec fn schedule(block: Seq<u8>, t: nat) -> u32
    decreases t,
{
    if t < 16 {
        be_word(block, 4 * t as int)
    } else {
        spec_small_sigma1(schedule(block, (t - 2) as nat)).wrapping_add(
            schedule(block, (t - 7) as nat),
        ).wrapping_add(spec_small_sigma0(schedule(block, (t - 15) as nat))).wrapping_add(
            schedule(block, (t - 16) as nat),
        )
    }
}

/// One round on the working variables `a..h`, with round constant `k` and schedule word `w`.
pub open spec fn round(s: Seq<u32>, k: u32, w: u32) -> Seq<u32> {
    let t1 = s[7].wrapping_add(spec_big_sigma1(s[4])).wrapping_add(
        spec_ch(s[4], s[5], s[6]),
    ).wrapping_add(k).wrapping_add(w);
    let t2 = spec_big_sigma0(s[0]).wrapping_add(spec_maj(s[0], s[1], s[2]));
    seq![t1.wrapping_add(t2), s[0], s[1], s[2], s[3].wrapping_add(t1), s[4], s[5], s[6]]
}

/// The working variables after the first `t` rounds over `block`, starting from `h`.
pub open spec fn rounds(h: Seq<u32>, block: Seq<u8>, t: nat) -> Seq<u32>
    decreases t,
{
    if t == 0 {
        h
    } else {
        let p = (t - 1) as nat;
        round(rounds(h, block, p), round_constants()[p as int], schedule(block, p))
    }
}

/// The hash value after folding one 64-byte block into `h`.
pub open spec fn compress_block(h: Seq<u32>, block: Seq<u8>) -> Seq<u32> {
    let v = rounds(h, block, 64);
    Seq::new(8, |i: int| h[i].wrapping_add(v[i]))
}

/// The hash value after folding every whole 64-byte block of `m`, in order, into `h`.
pub open spec fn hash_blocks(h: Seq<u32>, m: Seq<u8>) -> Seq<u32>
    decreases m.len(),
{
    if m.len() < 64 {
        h
    } else {
        hash_blocks(compress_block(h, m.take(64)), m.skip(64))
    }
}

/// How many zero bytes follow the `0x80` marker for a message of `len` bytes.
pub open spec fn zero_count(len: nat) -> nat {
    ((119 - (len % 64) as int) % 64) as nat
}

/// The message length in bits, as the 64-bit field of the padding holds it.
pub open spec fn bit_length(len: nat) -> u64 {
    ((len * 8) % 0x1_0000_0000_0000_0000) as u64
}

/// The big-endian bytes of a 64-bit integer.
pub open spec fn be_u64_bytes(x: u64) -> Seq<u8> {
    Seq::new(8, |i: int| #[verifier::truncate] ((x >> ((56 - 8 * i) as u64)) as u8))
}

/// What follows a message of `len` bytes: `0x80`, zeros, the bit length.
pub open spec fn padding(len: nat) -> Seq<u8> {
    seq![0x80u8] + Seq::new(zero_count(len), |i: int| 0u8) + be_u64_bytes(bit_length(len))
}

/// The message followed by its padding.
pub open spec fn padded(m: Seq<u8>) -> Seq<u8> {
    m + padding(m.len())
}

/// The big-endian bytes of eight state words.
pub open spec fn digest_bytes(h: Seq<u32>) -> Seq<u8> {
    Seq::new(32, |i: int| #[verifier::truncate] ((h[i / 4] >> ((24 - 8 * (i % 4)) as u32)) as u8))
}

/// The SHA-256 digest of `m`.
pub open spec fn sha256_digest(m: Seq<u8>) -> Seq<u8> {
    digest_bytes(hash_blocks(initial_hash(), padded(m)))
}

/// Right rotation of a 32-bit word by `n` bits (0 < n < 32).
pub open spec fn spec_rotr(x: u32, n: u32) -> u32 {
    (x >> n) | (x << ((32 - n) as u32))
}

/// Each bit from `y` where `x` has it set, else from `z`.
pub open spec fn spec_ch(x: u32, y: u32, z: u32) -> u32 {
    (x & y) ^ (!x & z)
}

/// Each bit set where at least two of `x`, `y`, `z` have it set.
pub open spec fn spec_maj(x: u32, y: u32, z: u32) -> u32 {
    (x & y) ^ (x & z) ^ (y & z)
}

/// The mixing of the working variable `a` in each round.
pub open spec fn spec_big_sigma0(x: u32) -> u32 {
    spec_rotr(x, 2) ^ spec_rotr(x, 13) ^ spec_rotr(x, 22)
}

/// The mixing of the working variable `e` in each round.
pub open spec fn spec_big_sigma1(x: u32) -> u32 {
    spec_rotr(x, 6) ^ spec_rotr(x, 11) ^ spec_rotr(x, 25)
}

/// The mixing of schedule word `t - 15`.
pub open spec fn spec_small_sigma0(x: u32) -> u32 {
    spec_rotr(x, 7) ^ spec_rotr(x, 18) ^ (x >> 3)
}

/// The mixing of schedule word `t - 2`.
pub open spec fn spec_small_sigma1(x: u32) -> u32 {
    spec_rotr(x, 17) ^ spec_rotr(x, 19) ^ (x >> 10)
}

fn rotr(x: u32, n: u32) -> (r: u32)
    requires
        0 < n < 32,
    ensures
        r == spec_rotr(x, n),
{
    (x >> n) | (x << (32 - n))
}

fn ch(x: u32, y: u32, z: u32) -> (r: u32)
    ensures
        r == spec_ch(x, y, z),
{
    (x & y) ^ (!x & z)
}

fn maj(x: u32, y: u32, z: u32) -> (r: u32)
    ensures
        r == spec_maj(x, y, z),
{
    (x & y) ^ (x & z) ^ (y & z)
}

fn big_sigma0(x: u32) -> (r: u32)
    ensures
        r == spec_big_sigma0(x),
{
    rotr(x, 2) ^ rotr(x, 13) ^ rotr(x, 22)
}

fn big_sigma1(x: u32) -> (r: u32)
    ensures
        r == spec_big_sigma1(x),
{
    rotr(x, 6) ^ rotr(x, 11) ^ rotr(x, 25)
}

fn small_sigma0(x: u32) -> (r: u32)
    ensures
        r == spec_small_sigma0(x),
{
    rotr(x, 7) ^ rotr(x, 18) ^ (x >> 3)
}

fn small_sigma1(x: u32) -> (r: u32)
    ensures
        r == spec_small_sigma1(x),
{
    rotr(x, 17) ^ rotr(x, 19) ^ (x >> 10)
}

/// The round constants as an array.
fn round_constant_table() -> (r: [u32; 64])
    ensures
        r@ == round_constants(),
{
    let k: [u32; 64] = [
        0x428a2f98, 0x71374491, 0xb5c0fbcf, 0xe9b5dba5, 0x3956c25b, 0x59f111f1, 0x923f82a4, 0xab1c5ed5,
        0xd807aa98, 0x12835b01, 0x243185be, 0x550c7dc3, 0x72be5d74, 0x80deb1fe, 0x9bdc06a7, 0xc19bf174,
        0xe49b69c1, 0xefbe4786, 0x0fc19dc6, 0x240ca1cc, 0x2de92c6f, 0x4a7484aa, 0x5cb0a9dc, 0x76f988da,
        0x983e5152, 0xa831c66d, 0xb00327c8, 0xbf597fc7, 0xc6e00bf3, 0xd5a79147, 0x06ca6351, 0x14292967,
        0x27b70a85, 0x2e1b2138, 0x4d2c6dfc, 0x53380d13, 0x650a7354, 0x766a0abb, 0x81c2c92e, 0x92722c85,
        0xa2bfe8a1, 0xa81a664b, 0xc24b8b70, 0xc76c51a3, 0xd192e819, 0xd6990624, 0xf40e3585, 0x106aa070,
        0x19a4c116, 0x1e376c08, 0x2748774c, 0x34b0bcb5, 0x391c0cb3, 0x4ed8aa4a, 0x5b9cca4f, 0x682e6ff3,
        0x748f82ee, 0x78a5636f, 0x84c87814, 0x8cc70208, 0x90befffa, 0xa4506ceb, 0xbef9a3f7, 0xc67178f2,
    ];
    assert(k@ =~= round_constants());
    k
}

/// Folds the 64-byte block `data[start..start + 64]` into `state`.
fn compress(state: &mut [u32; 8], data: &[u8], start: usize)
    requires
        start + 64 <= data@.len(),
    ensures
        final(state)@ == compress_block(old(state)@, data@.subrange(start as int, start + 64)),
{
    let ghost block = data@.subrange(start as int, start + 64);
    let k = round_constant_table();
    let mut w: [u32; 64] = [0u32; 64];
    let mut t: usize = 0;
    while t < 16
        invariant
            t <= 16,
            start + 64 <= data.len(),
            block == data@.subrange(start as int, start + 64),
            forall|j: int| 0 <= j < t ==> w[j] == schedule(block, j as nat),
        decreases 16 - t,
    {
        assert(t * 4 <= 60);
        let b = start + t * 4;
        w[t] = ((data[b] as u32) << 24) | ((data[b + 1] as u32) << 16) | ((data[b + 2] as u32) << 8)
            | (data[b + 3] as u32);
        t += 1;
    }
    while t < 64
        invariant
            16 <= t <= 64,
            forall|j: int| 0 <= j < t ==> w[j] == schedule(block, j as nat),
        decreases 64 - t,
    {
        w[t] = small_sigma1(w[t - 2]).wrapping_add(w[t - 7]).wrapping_add(
            small_sigma0(w[t - 15]),
        ).wrapping_add(w[t - 16]);
        t += 1;
    }

    let mut a = state[0];
    let mut b = state[1];
    let mut c = state[2];
    let mut d = state[3];
    let mut e = state[4];
    let mut f = state[5];
    let mut g = state[6];
    let mut h = state[7];
    assert(seq![a, b, c, d, e, f, g, h] =~= rounds(state@, block, 0));

    t = 0;
    while t < 64
        invariant
            t <= 64,
            k@ == round_constants(),
            forall|j: int| 0 <= j < 64 ==> w[j] == schedule(block, j as nat),
            seq![a, b, c, d, e, f, g, h] == rounds(state@, block, t as nat),
        decreases 64 - t,
    {
        let t1 = h.wrapping_add(big_sigma1(e)).wrapping_add(ch(e, f, g)).wrapping_add(k[t]).wrapping_add(
            w[t],
        );
        let t2 = big_sigma0(a).wrapping_add(maj(a, b, c));
        h = g;
        g = f;
        f = e;
        e = d.wrapping_add(t1);
        d = c;
        c = b;
        b = a;
        a = t1.wrapping_add(t2);
        t += 1;
    }

    let ghost v = rounds(old(state)@, block, 64);
    assert(v == seq![a, b, c, d, e, f, g, h]);
    state[0] = state[0].wrapping_add(a);
    state[1] = state[1].wrapping_add(b);
    state[2] = state[2].wrapping_add(c);
    state[3] = state[3].wrapping_add(d);
    state[4] = state[4].wrapping_add(e);
    state[5] = state[5].wrapping_add(f);
    state[6] = state[6].wrapping_add(g);
    state[7] = state[7].wrapping_add(h);
    assert(state@ =~= compress_block(old(state)@, block));
}

/// The SHA-256 digest of `data`: 32 bytes for any length, the empty input included.
pub fn sha256(data: &[u8]) -> (r: [u8; 32])
    ensures
        r@ == sha256_digest(data@),
        r@.len() == 32,
{
    let mut h: [u32; 8] = [
        0x6a09e667,
        0xbb67ae85,
        0x3c6ef372,
        0xa54ff53a,
        0x510e527f,
        0x9b05688c,
        0x1f83d9ab,
        0x5be0cd19,
    ];
    assert(h@ =~= initial_hash());
    let ghost full = padded(data@);
    let ghost goal = hash_blocks(initial_hash(), full);
    assert(full.skip(0) =~= full);

    let mut offset: usize = 0;
    while data.len() - offset >= 64
        invariant
            offset <= data.len(),
            offset % 64 == 0,
            full == padded(data@),
            hash_blocks(h@, full.skip(offset as int)) == goal,
        decreases data.len() - offset,
    {
        proof {
            lemma_block_step(data@, offset as nat);
        }
        compress(&mut h, data, offset);
        offset += 64;
    }

    proof {
        lemma_tail_hash(h@, data@, offset as nat);
    }
    finish(&mut h, data, offset);
    serialize(&h)
}

/// Folds the last `data.len() - offset` bytes of the message, with its padding, into `h`.
fn finish(h: &mut [u32; 8], data: &[u8], offset: usize)
    requires
        offset <= data@.len(),
        offset % 64 == 0,
        data@.len() - offset < 64,
    ensures
        ({
            let tail = padded(data@).skip(offset as int);
            final(h)@ == if data@.len() - offset < 56 {
                compress_block(old(h)@, tail)
            } else {
                compress_block(compress_block(old(h)@, tail.take(64)), tail.skip(64))
            }
        }),
{
    let rem = data.len() - offset;
    let ghost tail = padded(data@).skip(offset as int);
    proof {
        lemma_tail_shape(data@, offset as nat);
    }
    let mut block = [0u8; 64];
    let mut i: usize = 0;
    while i < rem
        invariant
            i <= rem,
            rem == data.len() - offset,
            rem < 64,
            forall|j: int| 0 <= j < i ==> block[j] == data@[offset + j],
            forall|j: int| i <= j < 64 ==> block[j] == 0,
        decreases rem - i,
    {
        block[i] = data[offset + i];
        i += 1;
    }
    block[rem] = 0x80;
    let bit_len = (data.len() as u64).wrapping_mul(8);
    assert(bit_len == bit_length(data@.len()));
    if rem >= 56 {
        proof {
            assert(block@ =~= tail.take(64));
            assert(block@.subrange(0, 64) =~= block@);
        }
        compress(h, block.as_slice(), 0);
        block = [0u8; 64];
    }
    let ghost last = if rem >= 56 { tail.skip(64) } else { tail };
    block[56] = #[verifier::truncate] ((bit_len >> 56) as u8);
    block[57] = #[verifier::truncate] ((bit_len >> 48) as u8);
    block[58] = #[verifier::truncate] ((bit_len >> 40) as u8);
    block[59] = #[verifier::truncate] ((bit_len >> 32) as u8);
    block[60] = #[verifier::truncate] ((bit_len >> 24) as u8);
    block[61] = #[verifier::truncate] ((bit_len >> 16) as u8);
    block[62] = #[verifier::truncate] ((bit_len >> 8) as u8);
    block[63] = #[verifier::truncate] (bit_len as u8);
    proof {
        assert(bit_len >> 0u64 == bit_len) by (bit_vector);
        assert(block@ =~= last);
        assert(block@.subrange(0, 64) =~= block@);
    }
    compress(h, block.as_slice(), 0);
}

/// The 32 big-endian bytes of the eight state words.
fn serialize(h: &[u32; 8]) -> (r: [u8; 32])
    ensures
        r@ == digest_bytes(h@),
{
    let mut out = [0u8; 32];
    let mut i: usize = 0;
    while i < 8
        invariant
            i <= 8,
            forall|j: int| 0 <= j < 4 * i ==> out[j] == digest_bytes(h@)[j],
        decreases 8 - i,
    {
        let v = h[i];
        out[i * 4] = #[verifier::truncate] ((v >> 24) as u8);
        out[i * 4 + 1] = #[verifier::truncate] ((v >> 16) as u8);
        out[i * 4 + 2] = #[verifier::truncate] ((v >> 8) as u8);
        out[i * 4 + 3] = #[verifier::truncate] (v as u8);
        proof {
            let k = 4 * i as int;
            assert(k / 4 == i as int && k % 4 == 0);
            assert((k + 1) / 4 == i as int && (k + 1) % 4 == 1);
            assert((k + 2) / 4 == i as int && (k + 2) % 4 == 2);
            assert((k + 3) / 4 == i as int && (k + 3) % 4 == 3);
            assert(v >> 0u32 == v) by (bit_vector);
        }
        i += 1;
    }
    assert(out@ =~= digest_bytes(h@));
    out
}

/// Once every whole block of the message is folded, what is left of the padded message
/// is one block (fewer than 56 bytes left over) or two.
proof fn lemma_tail_shape(m: Seq<u8>, offset: nat)
    requires
        offset <= m.len(),
        offset % 64 == 0,
        m.len() - offset < 64,
    ensures
        ({
            let rem = m.len() - offset;
            let tail = padded(m).skip(offset as int);
            &&& tail.len() == if rem < 56 { 64int } else { 128int }
            &&& forall|j: int| 0 <= j < rem ==> tail[j] == m[offset + j]
            &&& tail[rem] == 0x80
            &&& forall|j: int| rem < j < tail.len() - 8 ==> tail[j] == 0
            &&& forall|j: int| 0 <= j < 8 ==> tail[tail.len() - 8 + j] == be_u64_bytes(bit_length(m.len()))[j]
        }),
{
    let rem = m.len() - offset;
    assert(m.len() % 64 == rem) by {
        vstd::arithmetic::div_mod::lemma_mod_add_multiples_vanish(rem as int, 64);
    }
}

/// Hashing what is left of the padded message is what `finish` computes.
proof fn lemma_tail_hash(h: Seq<u32>, m: Seq<u8>, offset: nat)
    requires
        offset <= m.len(),
        offset % 64 == 0,
        m.len() - offset < 64,
    ensures
        ({
            let tail = padded(m).skip(offset as int);
            hash_blocks(h, tail) == if m.len() - offset < 56 {
                compress_block(h, tail)
            } else {
                compress_block(compress_block(h, tail.take(64)), tail.skip(64))
            }
        }),
{
    lemma_tail_shape(m, offset);
    let tail = padded(m).skip(offset as int);
    let h1 = compress_block(h, tail.take(64));
    let rest = tail.skip(64);
    assert(hash_blocks(h, tail) == hash_blocks(h1, rest));
    if m.len() - offset < 56 {
        assert(tail.take(64) =~= tail);
        assert(hash_blocks(h1, rest) == h1);
    } else {
        assert(rest.take(64) =~= rest);
        let h2 = compress_block(h1, rest);
        assert(hash_blocks(h1, rest) == hash_blocks(h2, rest.skip(64)));
        assert(hash_blocks(h2, rest.skip(64)) == h2);
    }
}

/// A whole block of the message, taken off the front of what is left of the padded message.
proof fn lemma_block_step(m: Seq<u8>, offset: nat)
    requires
        offset + 64 <= m.len(),
    ensures
        padded(m).skip(offset as int).take(64) == m.subrange(offset as int, offset as int + 64),
        padded(m).skip(offset as int).skip(64) == padded(m).skip(offset as int + 64),
{
    let rest = padded(m).skip(offset as int);
    assert(rest.take(64) =~= m.subrange(offset as int, offset as int + 64));
    assert(rest.skip(64) =~= padded(m).skip(offset as int + 64));
}

/// Every digest is 32 bytes long, whatever the length of the message, zero included.
pub proof fn lemma_digest_length(m: Seq<u8>)
    ensures
        sha256_digest(m).len() == 32,
{
}

/// Hashing is a function of the bytes alone: equal messages have equal digests.
pub proof fn lemma_digest_deterministic(m1: Seq<u8>, m2: Seq<u8>)
    requires
        m1 == m2,
    ensures
        sha256_digest(m1) == sha256_digest(m2),
{
}

/// The padded message is a whole number of blocks: one more block than the whole blocks
/// of the message when at most 55 bytes are left over, two more when 56 or more are.
pub proof fn lemma_padded_length(m: Seq<u8>)
    ensures
        padded(m).len() % 64 == 0,
        padded(m).len() == 64 * (m.len() / 64) + if m.len() % 64 < 56 { 64int } else { 128int },
{
}

} // verus!
