//! The xorshift64 generator: one 64-bit word of state, advanced by three
//! shift-and-xor stages.

use vstd::prelude::*;
use crate::sample::{Sample, unit_numerator};

verus! {

/// One step of the xorshift64 transform.
///
/// Each stage xors the running word with a shifted copy of itself: left by
/// 13, then right by 7, then left by 17. Bits shifted past bit 63 are lost.
pub open spec fn xorshift64(s: u64) -> u64 {
    let a = s ^ (s << 13);
    let b = a ^ (a >> 7);
    b ^ (b << 17)
}

/// The state reached from `seed` after `k` steps.
pub open spec fn state_after(seed: u64, k: nat) -> u64
    decreases k,
{
    if k == 0 {
        seed
    } else {
        xorshift64(state_after(seed, (k - 1) as nat))
    }
}

/// A xorshift64 generator. Its whole state is one 64-bit word.
///
/// A seed of zero is accepted but degenerate: zero is a fixed point of the
/// transform, so such a generator yields zero forever.
pub struct Xorshift64 {
    state: u64,
}

impl View for Xorshift64 {
    type V = u64;

    closed spec fn view(&self) -> u64 {
        self.state
    }
}

impl Xorshift64 {
    /// A generator whose state is `seed`.
    pub fn new(seed: u64) -> (rng: Self)
        ensures
            rng@ == seed,
    {
        Xorshift64 { state: seed }
    }

    /// The current state.
    pub fn state(&self) -> (s: u64)
        ensures
            s == self@,
    {
        self.state
    }

    /// Advances the state by one step and returns the new state.
    pub fn next_u64(&mut self) -> (s: u64)
        ensures
            final(self)@ == xorshift64(old(self)@),
            s == final(self)@,
            old(self)@ != 0 ==> s != 0,
            old(self)@ == 0 ==> s == 0,
    {
        let s0: u64 = self.state;
        let a: u64 = s0 ^ (s0 << 13);
        let b: u64 = a ^ (a >> 7);
        let c: u64 = b ^ (b << 17);
        proof {
            lemma_zero_is_fixed();
            if s0 != 0 {
                lemma_nonzero_preserved(s0);
            }
        }
        self.state = c;
        c
    }

    /// Advances the state by one step and returns the sample that the new
    /// state stands for.
    pub fn next_sample(&mut self) -> (x: Sample)
        ensures
            final(self)@ == xorshift64(old(self)@),
            x@ == unit_numerator(final(self)@),
    {
        let s: u64 = self.next_u64();
        Sample::from_state(s)
    }
}

/// Zero is a fixed point: a generator seeded with zero never leaves it.
pub proof fn lemma_zero_is_fixed()
    ensures
        xorshift64(0) == 0,
{
    assert(xorshift64(0) == 0) by (bit_vector);
}

/// The transform never maps a non-zero state to zero.
pub proof fn lemma_nonzero_preserved(s: u64)
    requires
        s != 0,
    ensures
        xorshift64(s) != 0,
{
    assert(s != 0 ==> xorshift64(s) != 0) by (bit_vector);
}

/// A stream seeded with zero is zero at every step.
pub proof fn lemma_zero_stream(k: nat)
    ensures
        state_after(0, k) == 0,
    decreases k,
{
    if k > 0 {
        lemma_zero_stream((k - 1) as nat);
        lemma_zero_is_fixed();
    }
}

/// A stream seeded with a non-zero word is non-zero at every step.
pub proof fn lemma_nonzero_stream(seed: u64, k: nat)
    requires
        seed != 0,
    ensures
        state_after(seed, k) != 0,
    decreases k,
{
    if k > 0 {
        lemma_nonzero_stream(seed, (k - 1) as nat);
        lemma_nonzero_preserved(state_after(seed, (k - 1) as nat));
    }
}

} // verus!
