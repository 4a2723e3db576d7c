//! Entropy source: a hardware random-number instruction when the processor has one,
//! else a deterministic xorshift generator whose state the caller owns.
use vstd::prelude::*;

verus! {

/// State of the fallback generator: four 32-bit words.
/// Not cryptographically secure.
#[derive(Clone, Copy, Debug, PartialEq, Eq, Structural)]
pub struct XorShift128 {
    pub s0: u32,
    pub s1: u32,
    pub s2: u32,
    pub s3: u32,
}

/// The fixed seed that every fallback generator starts from.
pub open spec fn seed() -> XorShift128 {
    XorShift128 { s0: 0x193a6754, s1: 0xa8a7d469, s2: 0x97830e05, s3: 0x113ba7bb }
}

/// The state after one fallback draw.
pub open spec fn step(s: XorShift128) -> XorShift128 {
    let t1 = s.s3 ^ (s.s3 << 11u32);
    let t = t1 ^ (t1 >> 8u32);
    XorShift128 { s0: t ^ s.s0 ^ (s.s0 >> 19u32), s1: s.s0, s2: s.s1, s3: s.s2 }
}

/// The 64-bit value that a draw ending in state `s` returns: `s0` high, `s1` low.
pub open spec fn output(s: XorShift128) -> u64 {
    (s.s0 as int * 0x1_0000_0000 + s.s1 as int) as u64
}

/// The state after `n` fallback draws from `s`.
pub open spec fn advance(s: XorShift128, n: nat) -> XorShift128
    decreases n,
{
    if n == 0 {
        s
    } else {
        step(advance(s, (n - 1) as nat))
    }
}

/// The values of `n` successive fallback draws from `s`.
pub open spec fn fallback_words(s: XorShift128, n: nat) -> Seq<u64> {
    Seq::new(n, |i: int| output(advance(s, (i + 1) as nat)))
}

/// What one draw may have done: the hardware gave `r` and the state stayed, or the
/// fallback generator stepped and gave its output.
pub open spec fn draw_outcome(before: XorShift128, after: XorShift128, r: u64) -> bool {
    after == before || (after == step(before) && r == output(after))
}

/// Byte `k` of the words laid out one after the other, least significant byte first.
pub open spec fn le_byte(words: Seq<u64>, k: int) -> u8 {
    word_byte(words[k / 8], k % 8)
}

/// `words` and `states` record a run of draws from `before` to `after` whose values
/// fill `bytes`: one word for each 8 bytes or part of them.
pub open spec fn fill_record(
    bytes: Seq<u8>,
    words: Seq<u64>,
    states: Seq<XorShift128>,
    before: XorShift128,
    after: XorShift128,
) -> bool {
    &&& words.len() == (bytes.len() + 7) / 8
    &&& states.len() == words.len() + 1
    &&& states[0] == before
    &&& states[words.len() as int] == after
    &&& forall|t: int| 0 <= t < words.len() ==> draw_outcome(states[t], states[t + 1], words[t])
    &&& forall|k: int| 0 <= k < bytes.len() ==> bytes[k] == le_byte(words, k)
}

/// Draw `t` of a recorded run fell back: the state stepped once and the word is its output.
pub open spec fn fell_back(words: Seq<u64>, states: Seq<XorShift128>, t: int) -> bool {
    states[t + 1] == step(states[t]) && words[t] == output(states[t + 1])
}

/// Fallback draws are reproducible: a run of draws that all fell back, from any state,
/// gives exactly the fallback words of that state and ends where that many steps lead.
pub proof fn lemma_fallback_run(words: Seq<u64>, states: Seq<XorShift128>)
    requires
        states.len() == words.len() + 1,
        forall|t: int| 0 <= t < words.len() ==> #[trigger] fell_back(words, states, t),
    ensures
        words == fallback_words(states[0], words.len()),
        states[words.len() as int] == advance(states[0], words.len()),
{
    lemma_run_states(words, states, words.len());
    assert forall|t: int| 0 <= t < words.len() implies words[t] == fallback_words(
        states[0],
        words.len(),
    )[t] by {
        assert(fell_back(words, states, t));
    }
    assert(words =~= fallback_words(states[0], words.len()));
}

/// Each state of a run of fallback steps is the first one advanced by its position.
proof fn lemma_run_states(words: Seq<u64>, states: Seq<XorShift128>, n: nat)
    requires
        n <= words.len(),
        states.len() == words.len() + 1,
        forall|t: int| 0 <= t < words.len() ==> #[trigger] fell_back(words, states, t),
    ensures
        forall|t: int| 0 <= t <= n ==> #[trigger] states[t] == advance(states[0], t as nat),
    decreases n,
{
    if n > 0 {
        lemma_run_states(words, states, (n - 1) as nat);
        assert(fell_back(words, states, n - 1));
    }
}

impl XorShift128 {
    /// A generator at the fixed seed.
    pub fn new() -> (r: XorShift128)
        ensures
            r == seed(),
    {
        XorShift128 { s0: 0x193a6754, s1: 0xa8a7d469, s2: 0x97830e05, s3: 0x113ba7bb }
    }

    /// One fallback draw: steps the state and returns the new `s0` and `s1` as one word.
    pub fn next_u64(&mut self) -> (r: u64)
        ensures
            *final(self) == step(*old(self)),
            r == output(*final(self)),
    {
        let mut t = self.s3;
        let s = self.s0;
        self.s3 = self.s2;
        self.s2 = self.s1;
        self.s1 = s;
        t ^= t << 11;
        t ^= t >> 8;
        self.s0 = t ^ s ^ (s >> 19);
        let hi = self.s0;
        let lo = self.s1;
        assert(((hi as u64) << 32u64) | (lo as u64) == (hi as int * 0x1_0000_0000 + lo as int) as u64)
            by (bit_vector);
        ((self.s0 as u64) << 32) | (self.s1 as u64)
    }
}

/// A processor's hardware random-number instruction and the probe for it.
pub trait HardwareRng {
    /// Holds of a capability that never has the instruction, whatever processor runs.
    open spec fn never_supported(&self) -> bool {
        false
    }

    /// Whether the processor running now supports the instruction.
    fn is_supported(&mut self) -> (r: bool)
        ensures
            old(self).never_supported() ==> !r,
            final(self).never_supported() == old(self).never_supported(),
    ;

    /// One draw of the instruction: `None` where it reports failure.
    fn draw(&mut self) -> (r: Option<u64>)
        ensures
            final(self).never_supported() == old(self).never_supported(),
    ;
}

/// Whether the feature flags that the processor reports in ECX (CPUID leaf 1) include
/// the hardware random-number instruction: bit 30.
pub fn rdrand_in_ecx(ecx: u32) -> (r: bool)
    ensures
        r == (ecx & 0x4000_0000 != 0),
{
    ecx & 0x4000_0000 != 0
}

/// A processor without the instruction: every draw falls back.
pub struct NoHardware;

impl HardwareRng for NoHardware {
    open spec fn never_supported(&self) -> bool {
        true
    }

    fn is_supported(&mut self) -> bool {
        false
    }

    fn draw(&mut self) -> Option<u64> {
        None
    }
}

/// Finishes a draw once the hardware has answered: its value where it gave one,
/// else one fallback draw.
pub fn rand_u64_from(hardware: Option<u64>, state: &mut XorShift128) -> (r: u64)
    ensures
        match hardware {
            Some(v) => r == v && *final(state) == *old(state),
            None => *final(state) == step(*old(state)) && r == output(*final(state)),
        },
{
    match hardware {
        Some(v) => v,
        None => state.next_u64(),
    }
}

/// A 64-bit random value: probes for the instruction on every call, draws once where it
/// is supported, and falls back to `state` where it is not or the draw failed.
pub fn rand_u64<H: HardwareRng>(hw: &mut H, state: &mut XorShift128) -> (r: u64)
    ensures
        draw_outcome(*old(state), *final(state), r),
        old(hw).never_supported() ==> *final(state) == step(*old(state)) && r == output(
            *final(state),
        ),
        final(hw).never_supported() == old(hw).never_supported(),
{
    let hardware = if hw.is_supported() {
        hw.draw()
    } else {
        None
    };
    rand_u64_from(hardware, state)
}

/// Byte `j` of `word`, least significant first.
pub open spec fn word_byte(word: u64, j: int) -> u8 {
    #[verifier::truncate] ((word >> ((8 * j) as u64)) as u8)
}

/// Copies `word` least significant byte first into `buf` from index `at`, as far as the
/// buffer or the word goes, and returns how many bytes it wrote. Nothing else changes.
pub fn fill_word(buf: &mut [u8], at: usize, word: u64) -> (written: usize)
    requires
        at <= old(buf)@.len(),
    ensures
        written as int == if old(buf)@.len() - at < 8 { old(buf)@.len() - at } else { 8 },
        final(buf)@.len() == old(buf)@.len(),
        forall|k: int|
            0 <= k < final(buf)@.len() ==> #[trigger] final(buf)@[k] == if at <= k < at + written {
                word_byte(word, k - at)
            } else {
                old(buf)@[k]
            },
{
    let mut j: usize = 0;
    while j < 8 && j < buf.len() - at
        invariant
            at <= old(buf)@.len(),
            j <= 8,
            at + j <= old(buf)@.len(),
            buf@.len() == old(buf)@.len(),
            forall|k: int|
                0 <= k < buf@.len() ==> #[trigger] buf@[k] == if at <= k < at + j {
                    word_byte(word, k - at)
                } else {
                    old(buf)@[k]
                },
        decreases 8 - j,
    {
        buf[at + j] = #[verifier::truncate] ((word >> ((j * 8) as u64)) as u8);
        j += 1;
    }
    j
}

/// Fills `buf` with successive draws of `rand_u64`, each word least significant byte
/// first; the last word is cut to the bytes that are left.
pub fn rand_bytes<H: HardwareRng>(hw: &mut H, state: &mut XorShift128, buf: &mut [u8])
    ensures
        final(buf)@.len() == old(buf)@.len(),
        exists|words: Seq<u64>, states: Seq<XorShift128>|
            #[trigger] fill_record(final(buf)@, words, states, *old(state), *final(state)),
        old(hw).never_supported() ==> {
            let words = fallback_words(*old(state), ((old(buf)@.len() + 7) / 8) as nat);
            &&& *final(state) == advance(*old(state), ((old(buf)@.len() + 7) / 8) as nat)
            &&& forall|k: int| 0 <= k < final(buf)@.len() ==> final(buf)@[k] == le_byte(words, k)
        },
{
    let n = buf.len();
    let ghost start = *state;
    let ghost never = hw.never_supported();
    let ghost mut words: Seq<u64> = Seq::empty();
    let ghost mut states: Seq<XorShift128> = seq![*state];
    let mut i: usize = 0;
    while i < buf.len()
        invariant
            buf@.len() == n,
            i <= n,
            i % 8 == 0 || i == n,
            words.len() == (i + 7) / 8,
            states.len() == words.len() + 1,
            states[0] == start,
            states[words.len() as int] == *state,
            forall|t: int| 0 <= t < words.len() ==> draw_outcome(states[t], states[t + 1], words[t]),
            forall|k: int| 0 <= k < i ==> buf@[k] == le_byte(words, k),
            hw.never_supported() == never,
                never ==> forall|t: int| 0 <= t < words.len() ==> #[trigger] fell_back(words, states, t),
        decreases n - i,
    {
        let ghost before = *state;
        let r = rand_u64(hw, state);
        proof {
            let prev = words;
            let prev_states = states;
            words = words.push(r);
            states = states.push(*state);
            if never {
                assert forall|t: int| 0 <= t < words.len() implies fell_back(words, states, t) by {
                    if t < prev.len() {
                        assert(fell_back(prev, prev_states, t));
                    }
                }
            }
            assert forall|k: int| 0 <= k < i implies buf@[k] == le_byte(words, k) by {
                assert(buf@[k] == le_byte(prev, k));
                assert(k / 8 < prev.len());
                assert(words[k / 8] == prev[k / 8]);
            }
        }
        let written = fill_word(buf, i, r);
        assert forall|k: int| 0 <= k < i + written implies buf@[k] == le_byte(words, k) by {
            if k >= i {
                assert(k / 8 == i / 8 && k % 8 == k - i);
            }
        }
        i += written;
    }
    assert(fill_record(buf@, words, states, start, *state));
    proof {
        if never {
            lemma_fallback_run(words, states);
        }
    }
}

} // verus!
