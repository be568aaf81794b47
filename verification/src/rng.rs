//! The pseudo-random generator: a 64-bit linear feedback shift register
//! with taps at bits 0, 1, 3 and 4.
use vstd::prelude::*;

verus! {

/// The feedback bit of the register in state `s`.
pub open spec fn lfsr_feedback(s: u64) -> u64 {
    (s ^ (s >> 1u64) ^ (s >> 3u64) ^ (s >> 4u64)) & 1u64
}

/// One shift of the register: every bit moves down by one and the feedback
/// bit enters at the top.
pub open spec fn lfsr_step(s: u64) -> u64 {
    (s >> 1u64) | (lfsr_feedback(s) << 63u64)
}

/// The register after `n` shifts from state `s`.
pub open spec fn lfsr_steps(s: u64, n: nat) -> u64
    decreases n,
{
    if n == 0 {
        s
    } else {
        lfsr_step(lfsr_steps(s, (n - 1) as nat))
    }
}

/// The lowest `n` bits of `x` in reverse order: bit `j` of `x` (for `j < n`)
/// becomes bit `n - 1 - j` of the result.
pub open spec fn reverse_low_bits(x: u64, n: nat) -> u64
    decreases n,
{
    if n == 0 {
        0
    } else {
        (reverse_low_bits(x, (n - 1) as nat) << 1u64) | ((x >> ((n - 1) as u64)) & 1u64)
    }
}

/// The 64 bits of `x` in reverse order.
pub open spec fn bit_reverse(x: u64) -> u64 {
    reverse_low_bits(x, 64)
}

/// The state of a generator seeded with `seed` after `k` draws.
pub open spec fn rng_state(seed: u64, k: nat) -> u64
    decreases k,
{
    if k == 0 {
        seed
    } else {
        lfsr_steps(rng_state(seed, (k - 1) as nat), 64)
    }
}

/// The `k`-th value (counting from 0) drawn from a generator seeded with `seed`.
pub open spec fn rng_output(seed: u64, k: nat) -> u64 {
    bit_reverse(rng_state(seed, k))
}

/// Drawing `a` values and then `b` more is drawing `a + b` values.
pub proof fn lemma_rng_state_add(seed: u64, a: nat, b: nat)
    ensures
        rng_state(rng_state(seed, a), b) == rng_state(seed, a + b),
    decreases b,
{
    if b > 0 {
        lemma_rng_state_add(seed, a, (b - 1) as nat);
    }
}

/// One shift keeps the bits of the seed that have not yet been shifted out:
/// after `i` shifts the low `64 - i` bits of the register are `s0 >> i`.
proof fn lemma_step_keeps_seed_bits(s: u64, s0: u64, i: u64)
    requires
        i < 64,
        s & (u64::MAX >> i) == s0 >> i,
    ensures
        lfsr_step(s) & (u64::MAX >> ((i + 1) as u64)) == s0 >> ((i + 1) as u64),
        s & 1u64 == (s0 >> i) & 1u64,
{
    assert(((s >> 1u64) | (((s ^ (s >> 1u64) ^ (s >> 3u64) ^ (s >> 4u64)) & 1u64) << 63u64)) & (
    u64::MAX >> ((i + 1) as u64)) == s0 >> ((i + 1) as u64)) by (bit_vector)
        requires
            i < 64,
            s & (u64::MAX >> i) == s0 >> i,
    ;
    assert(s & 1u64 == (s0 >> i) & 1u64) by (bit_vector)
        requires
            i < 64,
            s & (u64::MAX >> i) == s0 >> i,
    ;
}

/// Bit `k` of the stream that the register runs through from state `s`:
/// bits 0 to 63 are those of `s`, and each later bit is the feedback of the
/// bits 64, 63, 61 and 60 places before it.
pub open spec fn stream_bit(s: u64, k: nat) -> u64
    decreases k,
{
    if k < 64 {
        (s >> (k as u64)) & 1u64
    } else {
        stream_bit(s, (k - 64) as nat) ^ stream_bit(s, (k - 63) as nat) ^ stream_bit(s, (k - 61) as nat)
            ^ stream_bit(s, (k - 60) as nat)
    }
}

/// Bit `k` of the register `s` followed by the register `t` that it is
/// shifted into: bit `k` of `s` for `k < 64`, bit `k - 64` of `t` beyond.
pub open spec fn joined_bit(s: u64, t: u64, k: nat) -> u64 {
    if k < 64 {
        (s >> (k as u64)) & 1u64
    } else {
        (t >> ((k - 64) as u64)) & 1u64
    }
}

proof fn lemma_step_bits(st: u64, i: u64)
    requires
        i < 64,
    ensures
        i < 63 ==> (lfsr_step(st) >> i) & 1u64 == (st >> ((i + 1) as u64)) & 1u64,
        i == 63 ==> (lfsr_step(st) >> i) & 1u64 == ((st >> 0u64) & 1u64) ^ ((st >> 1u64) & 1u64) ^ ((st
            >> 3u64) & 1u64) ^ ((st >> 4u64) & 1u64),
{
    assert(i < 63 ==> (((st >> 1u64) | (((st ^ (st >> 1u64) ^ (st >> 3u64) ^ (st >> 4u64)) & 1u64)
        << 63u64)) >> i) & 1u64 == (st >> ((i + 1) as u64)) & 1u64) by (bit_vector)
        requires
            i < 64,
    ;
    assert(i == 63 ==> (((st >> 1u64) | (((st ^ (st >> 1u64) ^ (st >> 3u64) ^ (st >> 4u64)) & 1u64)
        << 63u64)) >> i) & 1u64 == ((st >> 0u64) & 1u64) ^ ((st >> 1u64) & 1u64) ^ ((st >> 3u64)
        & 1u64) ^ ((st >> 4u64) & 1u64)) by (bit_vector)
        requires
            i < 64,
    ;
}

/// After `n` shifts from `s`, bit `i` of the register is bit `n + i` of the stream.
proof fn lemma_steps_follow_stream(s: u64, n: nat)
    ensures
        forall|i: int| 0 <= i < 64 ==> (#[trigger] (lfsr_steps(s, n) >> (i as u64))) & 1u64 == stream_bit(
            s,
            (n + i) as nat,
        ),
    decreases n,
{
    if n > 0 {
        let m = (n - 1) as nat;
        lemma_steps_follow_stream(s, m);
        let st = lfsr_steps(s, m);
        assert forall|i: int| 0 <= i < 64 implies (#[trigger] (lfsr_steps(s, n) >> (i as u64))) & 1u64
            == stream_bit(s, (n + i) as nat) by {
            lemma_step_bits(st, i as u64);
            if i < 63 {
                assert((st >> ((i + 1) as u64)) & 1u64 == stream_bit(s, (m + (i + 1)) as nat));
            } else {
                let (i0, i1, i3, i4) = (0int, 1int, 3int, 4int);
                assert((st >> (i0 as u64)) & 1u64 == stream_bit(s, (m + i0) as nat));
                assert((st >> (i1 as u64)) & 1u64 == stream_bit(s, (m + i1) as nat));
                assert((st >> (i3 as u64)) & 1u64 == stream_bit(s, (m + i3) as nat));
                assert((st >> (i4 as u64)) & 1u64 == stream_bit(s, (m + i4) as nat));
                assert(stream_bit(s, (n + i) as nat) == stream_bit(s, m) ^ stream_bit(s, (m + 1) as nat)
                    ^ stream_bit(s, (m + 3) as nat) ^ stream_bit(s, (m + 4) as nat));
            }
        }
    } else {
        assert forall|i: int| 0 <= i < 64 implies (#[trigger] (lfsr_steps(s, n) >> (i as u64))) & 1u64
            == stream_bit(s, (n + i) as nat) by {}
    }
}

/// The register after one draw in closed form: bit `j` of the new state `t`
/// is the sum modulo 2 of bits `j`, `j + 1`, `j + 3` and `j + 4` of the old
/// state followed by the new one.
pub proof fn law_draw_state_bits(s: u64, j: nat)
    requires
        j < 64,
    ensures
        ({
            let t = lfsr_steps(s, 64);
            (t >> (j as u64)) & 1u64 == joined_bit(s, t, j) ^ joined_bit(s, t, j + 1) ^ joined_bit(
                s,
                t,
                j + 3,
            ) ^ joined_bit(s, t, j + 4)
        }),
{
    let t = lfsr_steps(s, 64);
    lemma_steps_follow_stream(s, 64);
    lemma_steps_follow_stream(s, 0);
    assert forall|k: nat| k < 128 implies #[trigger] joined_bit(s, t, k) == stream_bit(s, k) by {
        if k < 64 {
            assert((lfsr_steps(s, 0) >> (k as u64)) & 1u64 == stream_bit(s, k));
        } else {
            assert((t >> ((k - 64) as u64)) & 1u64 == stream_bit(s, (64 + (k - 64)) as nat));
        }
    }
    assert((t >> (j as u64)) & 1u64 == stream_bit(s, 64 + j));
    assert(joined_bit(s, t, j) == stream_bit(s, j));
    assert(joined_bit(s, t, j + 1) == stream_bit(s, j + 1));
    assert(joined_bit(s, t, j + 3) == stream_bit(s, j + 3));
    assert(joined_bit(s, t, j + 4) == stream_bit(s, j + 4));
}

/// A pseudo-random generator; each draw shifts the register 64 times and
/// returns the bits shifted out, the first one as the most significant.
pub struct Rng {
    state: u64,
}

impl Rng {
    /// The current register.
    pub closed spec fn state(&self) -> u64 {
        self.state
    }

    /// The current register.
    pub fn state_value(&self) -> (s: u64)
        ensures
            s == self.state(),
    {
        self.state
    }

    /// Draws the next value: the bits of the current register in reverse
    /// order; the register moves on by 64 shifts.
    pub fn next(&mut self) -> (out: u64)
        ensures
            out == bit_reverse(old(self).state()),
            final(self).state() == lfsr_steps(old(self).state(), 64),
            forall|j: nat|
                j < 64 ==> (#[trigger] (final(self).state() >> (j as u64))) & 1u64 == joined_bit(
                    old(self).state(),
                    final(self).state(),
                    j,
                ) ^ joined_bit(old(self).state(), final(self).state(), j + 1) ^ joined_bit(
                    old(self).state(),
                    final(self).state(),
                    j + 3,
                ) ^ joined_bit(old(self).state(), final(self).state(), j + 4),
    {
        let ghost s0 = self.state;
        let mut seed = self.state;
        let mut out: u64 = 0;
        let mut i: u64 = 0;
        assert(seed & (u64::MAX >> 0u64) == s0 >> 0u64) by (bit_vector)
            requires
                seed == s0,
        ;
        while i < 64
            invariant
                i <= 64,
                seed == lfsr_steps(s0, i as nat),
                out == reverse_low_bits(s0, i as nat),
                i < 64 ==> seed & (u64::MAX >> i) == s0 >> i,
            decreases 64 - i,
        {
            proof {
                lemma_step_keeps_seed_bits(seed, s0, i);
            }
            let newbit = (seed ^ (seed >> 1) ^ (seed >> 3) ^ (seed >> 4)) & 1;
            out = out << 1;
            out = out | (seed & 1);
            seed = (seed >> 1) | (newbit << 63);
            i = i + 1;
        }
        self.state = seed;
        proof {
            assert forall|j: nat| j < 64 implies (#[trigger] (seed >> (j as u64))) & 1u64 == joined_bit(
                s0,
                seed,
                j,
            ) ^ joined_bit(s0, seed, j + 1) ^ joined_bit(s0, seed, j + 3) ^ joined_bit(s0, seed, j + 4) by {
                law_draw_state_bits(s0, j);
            }
        }
        out
    }
}

/// A generator seeded with `seed`.
pub fn rng(seed: u64) -> (r: Rng)
    ensures
        r.state() == seed,
{
    Rng { state: seed }
}

} // verus!
