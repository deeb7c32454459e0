//! Samples in the unit interval and the quarter-disk test on a pair of them.
//!
//! A generator state `s` stands for the double nearest to `s / 2^64`. Such a
//! value is kept as its numerator over `2^64`: a natural number of at most 53
//! significant bits, at most `2^64`. Squares and their sum are then numerators
//! over `2^128`, rounded the way double arithmetic rounds them.

use vstd::prelude::*;
use vstd::arithmetic::power2::{
    pow2,
    lemma_pow2_adds,
    lemma_pow2_strictly_increases,
    lemma2_to64,
    lemma2_to64_rest,
};
use vstd::arithmetic::div_mod::lemma_fundamental_div_mod;
use crate::rounding::{
    excess_bits,
    ulp,
    is_double,
    nearest_double,
    round_to_double,
    lemma_excess_bits_in_binade,
    lemma_significand_bounds,
    lemma_nearest_double_is_double,
    lemma_nearest_double_below_pow2,
};

verus! {

/// The numerator over `2^64` of the sample that the state `s` stands for.
pub open spec fn unit_numerator(s: u64) -> nat {
    nearest_double(s as nat)
}

/// Whether the point with coordinates `xn / 2^64` and `yn / 2^64` passes the
/// test `x * x + y * y <= 1` in double arithmetic: each square is rounded,
/// then their sum is.
pub open spec fn in_quarter_disk(xn: nat, yn: nat) -> bool {
    nearest_double(nearest_double(xn * xn) + nearest_double(yn * yn)) <= pow2(128)
}

/// The value of `2^128` and of the few smaller powers used here.
proof fn lemma_pow2_values()
    ensures
        pow2(11) == 0x800,
        pow2(63) == 0x8000_0000_0000_0000,
        pow2(64) == 0x1_0000_0000_0000_0000,
        pow2(75) == 0x800_0000_0000_0000_0000,
        pow2(76) == 0x1000_0000_0000_0000_0000,
        pow2(128) == 0x1_0000_0000_0000_0000_0000_0000_0000_0000,
        pow2(129) == 0x2_0000_0000_0000_0000_0000_0000_0000_0000,
{
    lemma2_to64();
    lemma2_to64_rest();
    lemma_pow2_adds(64, 11);
    lemma_pow2_adds(64, 12);
    lemma_pow2_adds(64, 64);
    lemma_pow2_adds(128, 1);
}

/// A sum of squares rounds to at most one exactly when it exceeds `2^128` by
/// no more than `2^75`, half the distance to the next double above one.
pub proof fn lemma_rounds_within_one(t: nat)
    ensures
        nearest_double(t) <= pow2(128) <==> t <= pow2(128) + pow2(75),
{
    lemma_pow2_values();
    if t < pow2(128) {
        lemma_nearest_double_below_pow2(t, 128);
    } else if t < pow2(129) {
        // Here doubles are 2^76 apart, and 2^128 has an even significand.
        lemma_excess_bits_in_binade(t, 76);
        assert(ulp(t) == 0x1000_0000_0000_0000_0000);
    } else {
        let u = ulp(t);
        let q = t / u;
        let e = excess_bits(t);
        lemma_significand_bounds(t);
        lemma_fundamental_div_mod(t as int, u as int);
        if e <= 76 {
            if e < 76 {
                lemma_pow2_strictly_increases(e, 76);
            }
            assert(false) by (nonlinear_arith)
                requires
                    t == u * q + t % u,
                    t % u < u,
                    q < 0x20_0000_0000_0000,
                    1 <= u <= 0x1000_0000_0000_0000_0000,
                    t >= 0x2_0000_0000_0000_0000_0000_0000_0000_0000,
            ;
        }
        lemma_pow2_strictly_increases(76, e);
        assert(q * u > pow2(128)) by (nonlinear_arith)
            requires
                q >= 0x10_0000_0000_0000,
                u > 0x1000_0000_0000_0000_0000,
                pow2(128) == 0x1_0000_0000_0000_0000_0000_0000_0000_0000,
        ;
        assert((q + 1) * u >= q * u) by (nonlinear_arith);
    }
}

/// Below one, the largest sample is `1 - 2^-53`.
proof fn lemma_double_below_one(n: nat)
    requires
        is_double(n),
        n < pow2(64),
    ensures
        n <= 0xFFFF_FFFF_FFFF_F800,
{
    lemma_pow2_values();
    if n >= pow2(63) {
        lemma_excess_bits_in_binade(n, 11);
        assert(ulp(n) == 0x800);
    }
}

/// One squared is one, exactly.
proof fn lemma_one_squared()
    ensures
        nearest_double(pow2(64) * pow2(64)) == pow2(128),
{
    lemma_pow2_values();
    lemma_excess_bits_in_binade(pow2(128), 76);
}

/// The origin lies in the quarter disk.
pub proof fn lemma_origin_inside()
    ensures
        unit_numerator(0) == 0,
        in_quarter_disk(0, 0),
{
    lemma_significand_bounds(0);
}

/// Every sample lies in the closed unit interval. It is zero only for the
/// state zero, and one only for the 1024 largest states.
pub proof fn lemma_unit_numerator_range(s: u64)
    ensures
        unit_numerator(s) <= pow2(64),
        unit_numerator(s) == 0 <==> s == 0,
        unit_numerator(s) == pow2(64) <==> s >= 0xFFFF_FFFF_FFFF_FC00,
{
    let v = s as nat;
    let u = ulp(v);
    let q = v / u;
    lemma_pow2_values();
    lemma_significand_bounds(v);
    lemma_fundamental_div_mod(v as int, u as int);
    assert(q * u == u * q && (q + 1) * u == u * q + u) by (nonlinear_arith);
    if v >= pow2(63) {
        // Here doubles are 2^11 apart; the last one below 2^64 has an odd
        // significand, so the tie above it goes up.
        lemma_excess_bits_in_binade(v, 11);
        assert(q == v / 0x800);
    } else if v >= 0x20_0000_0000_0000 {
        assert(u * q > 0) by (nonlinear_arith)
            requires
                u >= 1,
                q >= 0x10_0000_0000_0000,
        ;
    }
}

/// A sample: the double nearest to `s / 2^64` for a generator state `s`,
/// held as its numerator over `2^64`.
///
/// The numerator is a double of at most `2^64`, so the sample lies in the
/// closed unit interval. It is one only for the 1024 largest states, and zero
/// only for the state zero.
#[derive(Clone, Copy, Debug)]
pub struct Sample {
    numer: u128,
}

impl View for Sample {
    type V = nat;

    closed spec fn view(&self) -> nat {
        self.numer as nat
    }
}

impl Sample {
    #[verifier::type_invariant]
    spec fn well_formed(self) -> bool {
        self.numer <= 0x1_0000_0000_0000_0000 && is_double(self.numer as nat)
    }

    /// The sample that the generator state `state` stands for.
    pub fn from_state(state: u64) -> (x: Sample)
        ensures
            x@ == unit_numerator(state),
    {
        proof {
            lemma_pow2_values();
            lemma_nearest_double_below_pow2(state as nat, 64);
            lemma_nearest_double_is_double(state as nat);
        }
        Sample { numer: round_to_double(state as u128) }
    }

    /// The numerator of the sample over `2^64`.
    pub fn numerator(&self) -> (n: u128)
        ensures
            n == self@,
            n <= 0x1_0000_0000_0000_0000,
            is_double(n as nat),
    {
        proof {
            use_type_invariant(self);
        }
        self.numer
    }
}

/// Tests `x * x + y * y <= 1` as double arithmetic decides it.
pub fn inside_quarter_disk(x: Sample, y: Sample) -> (inside: bool)
    ensures
        inside == in_quarter_disk(x@, y@),
{
    let one: u128 = 0x1_0000_0000_0000_0000;
    let half_gap: u128 = 0x800_0000_0000_0000_0000;
    let a: u128 = x.numerator();
    let b: u128 = y.numerator();
    proof {
        lemma_pow2_values();
        lemma_one_squared();
        if a != one {
            lemma_double_below_one(a as nat);
            assert(a * a <= 0xFFFF_FFFF_FFFF_F800 * 0xFFFF_FFFF_FFFF_F800) by (nonlinear_arith)
                requires
                    0 <= a <= 0xFFFF_FFFF_FFFF_F800,
            ;
        }
        if b != one {
            lemma_double_below_one(b as nat);
            assert(b * b <= 0xFFFF_FFFF_FFFF_F800 * 0xFFFF_FFFF_FFFF_F800) by (nonlinear_arith)
                requires
                    0 <= b <= 0xFFFF_FFFF_FFFF_F800,
            ;
        }
        lemma_rounds_within_one(
            nearest_double((a * a) as nat) + nearest_double((b * b) as nat),
        );
    }
    if a == one && b == one {
        false
    } else if a == one {
        round_to_double(b * b) <= half_gap
    } else if b == one {
        round_to_double(a * a) <= half_gap
    } else {
        let p: u128 = round_to_double(a * a);
        let q: u128 = round_to_double(b * b);
        let room: u128 = u128::MAX - p;
        q <= room || q - room <= half_gap + 1
    }
}

} // verus!
