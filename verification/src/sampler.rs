//! The sampling loop: pairs of successive samples, counted when they fall
//! into the unit quarter disk.

use vstd::prelude::*;
use crate::sample::{
    in_quarter_disk,
    inside_quarter_disk,
    lemma_origin_inside,
    unit_numerator,
    Sample,
};
use crate::xorshift::{lemma_zero_stream, state_after, Xorshift64};

verus! {

/// Whether pair number `i` of the stream seeded with `seed` falls inside.
/// Pairs are numbered from zero; the first coordinate of a pair is drawn
/// before the second.
pub open spec fn pair_inside(seed: u64, i: nat) -> bool {
    in_quarter_disk(
        unit_numerator(state_after(seed, 2 * i + 1)),
        unit_numerator(state_after(seed, 2 * i + 2)),
    )
}

/// How many of the first `n` pairs of the stream seeded with `seed` fall
/// inside.
pub open spec fn count_inside(seed: u64, n: nat) -> nat
    decreases n,
{
    if n == 0 {
        0
    } else {
        count_inside(seed, (n - 1) as nat) + if pair_inside(seed, (n - 1) as nat) {
            1nat
        } else {
            0nat
        }
    }
}

/// What a sampler has done so far.
pub struct Progress {
    /// The seed that the sampler was made with.
    pub seed: u64,
    /// The number of pairs drawn.
    pub drawn: nat,
    /// The number of those pairs that fell inside.
    pub inside: nat,
}

/// A sampling run in progress. It owns its generator.
pub struct Sampler {
    rng: Xorshift64,
    seed: u64,
    drawn: u64,
    inside: u64,
}

impl View for Sampler {
    type V = Progress;

    closed spec fn view(&self) -> Progress {
        Progress { seed: self.seed, drawn: self.drawn as nat, inside: self.inside as nat }
    }
}

impl Sampler {
    #[verifier::type_invariant]
    spec fn well_formed(self) -> bool {
        &&& self.rng@ == state_after(self.seed, 2 * (self.drawn as nat))
        &&& self.inside == count_inside(self.seed, self.drawn as nat)
    }

    /// A sampler that has drawn nothing yet.
    pub fn new(seed: u64) -> (sampler: Sampler)
        ensures
            sampler@ == (Progress { seed, drawn: 0, inside: 0 }),
    {
        Sampler { rng: Xorshift64::new(seed), seed, drawn: 0, inside: 0 }
    }

    /// The seed that the sampler was made with.
    pub fn seed(&self) -> (seed: u64)
        ensures
            seed == self@.seed,
    {
        self.seed
    }

    /// The number of pairs drawn so far.
    pub fn drawn(&self) -> (drawn: u64)
        ensures
            drawn == self@.drawn,
    {
        self.drawn
    }

    /// The number of pairs so far that fell inside.
    pub fn inside(&self) -> (inside: u64)
        ensures
            inside == self@.inside,
            inside == count_inside(self@.seed, self@.drawn),
            inside <= self@.drawn,
    {
        proof {
            use_type_invariant(self);
            lemma_count_at_most_drawn(self.seed, self.drawn as nat);
        }
        self.inside
    }

    /// Draws one pair, first coordinate first, and counts it if it falls
    /// inside. Returns whether it did.
    pub fn step(&mut self) -> (hit: bool)
        requires
            old(self)@.drawn < u64::MAX,
        ensures
            final(self)@.seed == old(self)@.seed,
            final(self)@.drawn == old(self)@.drawn + 1,
            final(self)@.inside == old(self)@.inside + if hit { 1nat } else { 0nat },
            hit == pair_inside(old(self)@.seed, old(self)@.drawn),
            final(self)@.inside == count_inside(final(self)@.seed, final(self)@.drawn),
            final(self)@.inside <= final(self)@.drawn,
    {
        proof {
            use_type_invariant(&*self);
            lemma_count_at_most_drawn(self.seed, self.drawn as nat);
        }
        // The generator and the counters change together: advance a generator
        // of the same state and store all of them at once.
        let mut rng = Xorshift64::new(self.rng.state());
        let x: Sample = rng.next_sample();
        let y: Sample = rng.next_sample();
        let hit = inside_quarter_disk(x, y);
        let inside: u64 = if hit { self.inside + 1 } else { self.inside };
        proof {
            let d = self.drawn as nat;
            assert(x@ == unit_numerator(state_after(self.seed, 2 * d + 1)));
            assert(y@ == unit_numerator(state_after(self.seed, 2 * d + 2)));
            assert(rng@ == state_after(self.seed, 2 * (d + 1)));
        }
        *self = Sampler { rng, seed: self.seed, drawn: self.drawn + 1, inside };
        hit
    }
}

/// Draws `n` pairs from a generator seeded with `seed` and returns how many
/// of them fell inside.
///
/// The result is a function of `n` and `seed` alone: two runs on the same
/// arguments return the same count.
pub fn run(n: u64, seed: u64) -> (inside: u64)
    ensures
        inside == count_inside(seed, n as nat),
        inside <= n,
        n == 0 ==> inside == 0,
        seed == 0 ==> inside == n,
{
    let mut sampler = Sampler::new(seed);
    let mut i: u64 = 0;
    while i < n
        invariant
            i <= n,
            sampler@.seed == seed,
            sampler@.drawn == i,
        decreases n - i,
    {
        sampler.step();
        i = i + 1;
    }
    proof {
        lemma_zero_seed_counts_all(n as nat);
    }
    sampler.inside()
}

/// No more pairs fall inside than were drawn.
pub proof fn lemma_count_at_most_drawn(seed: u64, n: nat)
    ensures
        count_inside(seed, n) <= n,
    decreases n,
{
    if n > 0 {
        lemma_count_at_most_drawn(seed, (n - 1) as nat);
    }
}

/// The count never goes down as more pairs are drawn, and one more pair adds
/// at most one.
pub proof fn lemma_count_monotone(seed: u64, j: nat, k: nat)
    requires
        j <= k,
    ensures
        count_inside(seed, j) <= count_inside(seed, k),
        count_inside(seed, k) - count_inside(seed, j) <= k - j,
    decreases k,
{
    if j < k {
        lemma_count_monotone(seed, j, (k - 1) as nat);
    }
}

/// With the seed zero every sample is zero, so every pair falls inside.
pub proof fn lemma_zero_seed_counts_all(n: nat)
    ensures
        count_inside(0, n) == n,
    decreases n,
{
    if n > 0 {
        let i: nat = (n - 1) as nat;
        lemma_zero_seed_counts_all(i);
        lemma_zero_stream(2 * i + 1);
        lemma_zero_stream(2 * i + 2);
        lemma_origin_inside();
    }
}

} // verus!
