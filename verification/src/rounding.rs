//! Round-to-nearest-even onto 53 significant bits, on natural numbers.
//!
//! A double holds 53 significant bits. A natural number with more bits than
//! that is replaced by the nearest number whose low bits beyond the 53rd are
//! zero; of two equally near candidates the one with an even significand wins.
//! This is what IEEE 754 does when an integer is converted to a double and
//! when the exact result of an operation on doubles is stored, as long as
//! neither overflow nor underflow occurs, which is the case for every number
//! met in this crate.

use vstd::prelude::*;
use vstd::arithmetic::power2::{
    pow2,
    lemma_pow2_pos,
    lemma_pow2_unfold,
    lemma_pow2_adds,
    lemma_pow2_strictly_increases,
    lemma2_to64,
    lemma2_to64_rest,
};
use vstd::arithmetic::div_mod::{
    lemma_div_denominator,
    lemma_fundamental_div_mod,
    lemma_mod_multiples_basic,
};

verus! {

/// The number of low bits of `v` that do not fit into 53 significant bits.
pub open spec fn excess_bits(v: nat) -> nat
    decreases v,
{
    if v < 0x20_0000_0000_0000 {
        0
    } else {
        1 + excess_bits(v / 2)
    }
}

/// The distance between neighbouring doubles at the magnitude of `v`.
pub open spec fn ulp(v: nat) -> nat {
    pow2(excess_bits(v))
}

/// Whether `v` is held by a double without loss.
pub open spec fn is_double(v: nat) -> bool {
    v % ulp(v) == 0
}

/// The double nearest to `v`, ties going to the even significand.
pub open spec fn nearest_double(v: nat) -> nat {
    let u = ulp(v);
    let q = v / u;
    let r = v % u;
    if 2 * r < u || (2 * r == u && q % 2 == 0) {
        q * u
    } else {
        (q + 1) * u
    }
}

/// Powers of two do not decrease with the exponent.
proof fn lemma_pow2_increases(a: nat, b: nat)
    requires
        a <= b,
    ensures
        pow2(a) <= pow2(b),
{
    if a < b {
        lemma_pow2_strictly_increases(a, b);
    }
}

/// A number of at least `52 + j` bits beyond the first sheds `j` excess bits
/// when its `j` low bits are cut off.
pub proof fn lemma_excess_bits_shift(v: nat, j: nat)
    requires
        v >= pow2(52 + j),
    ensures
        excess_bits(v) == j + excess_bits(v / pow2(j)),
    decreases j,
{
    lemma2_to64();
    lemma2_to64_rest();
    if j > 0 {
        let h: nat = (j - 1) as nat;
        lemma_pow2_unfold(52 + j);
        lemma_pow2_unfold(j);
        lemma_pow2_pos(h);
        lemma_excess_bits_shift(v / 2, h);
        lemma_div_denominator(v as int, 2, pow2(h) as int);
    } else {
        assert(v / pow2(0) == v);
    }
}

/// Between `2^(52+k)` and `2^(53+k)` a number has exactly `k` excess bits.
pub proof fn lemma_excess_bits_in_binade(v: nat, k: nat)
    requires
        pow2(52 + k) <= v < pow2(53 + k),
    ensures
        excess_bits(v) == k,
        ulp(v) == pow2(k),
{
    lemma2_to64_rest();
    lemma_excess_bits_shift(v, k);
    lemma_pow2_adds(53, k);
    let d = pow2(k);
    let q = v / d;
    lemma_fundamental_div_mod(v as int, d as int);
    assert(q < 0x20_0000_0000_0000) by (nonlinear_arith)
        requires
            v == d * q + v % d,
            0 <= v % d,
            v < 0x20_0000_0000_0000 * d,
            d > 0,
            q >= 0,
    ;
}

/// The significand `v / ulp(v)` has at most 53 bits, and exactly 53 as soon
/// as `v` itself has that many.
pub proof fn lemma_significand_bounds(v: nat)
    ensures
        ulp(v) >= 1,
        v / ulp(v) < 0x20_0000_0000_0000,
        v >= 0x20_0000_0000_0000 ==> v / ulp(v) >= 0x10_0000_0000_0000,
        v < 0x20_0000_0000_0000 ==> ulp(v) == 1,
    decreases v,
{
    lemma2_to64();
    if v >= 0x20_0000_0000_0000 {
        let h = excess_bits(v / 2);
        lemma_significand_bounds(v / 2);
        lemma_pow2_unfold(h + 1);
        lemma_div_denominator(v as int, 2, pow2(h) as int);
    }
}

/// A double rounds to itself.
pub proof fn lemma_nearest_double_exact(v: nat)
    requires
        is_double(v),
    ensures
        nearest_double(v) == v,
{
    let u = ulp(v);
    lemma_significand_bounds(v);
    lemma_fundamental_div_mod(v as int, u as int);
}

/// A significand of 53 bits, or `2^53` itself, scaled by a power of two is a
/// double.
proof fn lemma_scaled_significand_is_double(m: nat, e: nat)
    requires
        0x10_0000_0000_0000 <= m <= 0x20_0000_0000_0000,
    ensures
        is_double(m * pow2(e)),
{
    lemma2_to64_rest();
    let u = pow2(e);
    let w = m * u;
    lemma_pow2_pos(e);
    lemma_pow2_adds(52, e);
    lemma_pow2_adds(53, e);
    assert(0x10_0000_0000_0000 * u <= m * u <= 0x20_0000_0000_0000 * u) by (nonlinear_arith)
        requires
            0x10_0000_0000_0000 <= m <= 0x20_0000_0000_0000,
            u > 0,
    ;
    if m < 0x20_0000_0000_0000 {
        assert(m * u < 0x20_0000_0000_0000 * u) by (nonlinear_arith)
            requires
                m < 0x20_0000_0000_0000,
                u > 0,
        ;
        lemma_excess_bits_in_binade(w, e);
        lemma_mod_multiples_basic(m as int, u as int);
    } else {
        lemma_pow2_unfold(e + 1);
        lemma_pow2_adds(53, e + 1);
        lemma_excess_bits_in_binade(w, e + 1);
        lemma_mod_multiples_basic(0x10_0000_0000_0000, pow2(e + 1) as int);
    }
}

/// Rounding lands on a double.
pub proof fn lemma_nearest_double_is_double(v: nat)
    ensures
        is_double(nearest_double(v)),
{
    let u = ulp(v);
    let q = v / u;
    lemma_significand_bounds(v);
    if v >= 0x20_0000_0000_0000 {
        lemma_scaled_significand_is_double(q, excess_bits(v));
        lemma_scaled_significand_is_double(q + 1, excess_bits(v));
    }
}

/// Rounding moves a number by at most half the distance between doubles.
pub proof fn lemma_nearest_double_error(v: nat)
    ensures
        2 * (nearest_double(v) - v) <= ulp(v),
        2 * (v - nearest_double(v)) <= ulp(v),
{
    let u = ulp(v);
    let q = v / u;
    lemma_significand_bounds(v);
    lemma_fundamental_div_mod(v as int, u as int);
    assert(q * u == u * q && (q + 1) * u == u * q + u) by (nonlinear_arith);
}

/// Rounding does not carry a number past a power of two above it.
pub proof fn lemma_nearest_double_below_pow2(v: nat, n: nat)
    requires
        v < pow2(n),
    ensures
        nearest_double(v) <= pow2(n),
{
    let e = excess_bits(v);
    let u = ulp(v);
    let q = v / u;
    lemma_significand_bounds(v);
    lemma_fundamental_div_mod(v as int, u as int);
    if v >= 0x20_0000_0000_0000 {
        lemma2_to64_rest();
        lemma_pow2_adds(52, e);
        assert(0x10_0000_0000_0000 * u <= q * u) by (nonlinear_arith)
            requires
                0x10_0000_0000_0000 <= q,
                u >= 1,
        ;
        if n <= 52 + e {
            lemma_pow2_increases(n, 52 + e);
        }
        let k: nat = (n - e) as nat;
        lemma_pow2_adds(k, e);
        assert(q + 1 <= pow2(k)) by (nonlinear_arith)
            requires
                u * q <= v,
                v < pow2(k) * u,
                u >= 1,
        ;
        assert((q + 1) * u <= pow2(k) * u) by (nonlinear_arith)
            requires
                q + 1 <= pow2(k),
                u >= 1,
        ;
    }
}

/// Rounds `v` to the nearest double, ties to even.
///
/// The largest double below `2^128` is `2^128 - 2^75`; from `2^128 - 2^74` on
/// the nearest double is `2^128` itself, which a `u128` cannot hold, so those
/// inputs are left out.
pub fn round_to_double(v: u128) -> (d: u128)
    requires
        v < 0xFFFF_FFFF_FFFF_FC00_0000_0000_0000_0000,
    ensures
        d == nearest_double(v as nat),
{
    let mut q: u128 = v;
    let mut u: u128 = 1;
    let ghost mut k: nat = 0;
    proof {
        lemma2_to64();
    }
    while q >= 0x1000_0000_0000_0000
        invariant
            u == pow2(k),
            u >= 1,
            q == v / u,
            u * q <= v,
            excess_bits(v as nat) == k + excess_bits(q as nat),
        decreases q,
    {
        proof {
            lemma2_to64();
            lemma2_to64_rest();
            lemma_excess_bits_shift(q as nat, 8);
            lemma_pow2_adds(k, 8);
            lemma_div_denominator(v as int, u as int, 256);
            assert((u * 256) * (q / 256) <= u * q) by (nonlinear_arith)
                requires
                    q == 256 * (q / 256) + q % 256,
                    q % 256 >= 0,
                    u >= 1,
            ;
            assert(u * 256 <= u * q) by (nonlinear_arith)
                requires
                    q >= 256,
                    u >= 1,
            ;
            k = k + 8;
        }
        q = q / 256;
        u = u * 256;
    }
    while q >= 0x20_0000_0000_0000
        invariant
            u == pow2(k),
            u >= 1,
            q == v / u,
            u * q <= v,
            excess_bits(v as nat) == k + excess_bits(q as nat),
        decreases q,
    {
        proof {
            lemma_pow2_unfold(k + 1);
            lemma_div_denominator(v as int, u as int, 2);
            assert((u * 2) * (q / 2) <= u * q) by (nonlinear_arith)
                requires
                    q == 2 * (q / 2) + q % 2,
                    q % 2 >= 0,
                    u >= 1,
            ;
            assert(u * 2 <= u * q) by (nonlinear_arith)
                requires
                    q >= 2,
                    u >= 1,
            ;
            k = k + 1;
        }
        q = q / 2;
        u = u * 2;
    }
    proof {
        lemma_fundamental_div_mod(v as int, u as int);
        lemma_significand_bounds(v as nat);
        assert(q * u == u * q) by (nonlinear_arith);
        if k >= 76 {
            lemma_pow2_increases(76, k);
            lemma_pow2_adds(64, 12);
            assert(u * q >= 0x1000_0000_0000_0000_0000 * 0x10_0000_0000_0000) by (nonlinear_arith)
                requires
                    u >= 0x1000_0000_0000_0000_0000,
                    q >= 0x10_0000_0000_0000,
            ;
        }
        if k == 75 {
            lemma_pow2_adds(64, 11);
        } else if k < 75 {
            lemma_pow2_increases(k, 74);
            lemma_pow2_adds(64, 10);
        }
    }
    let low: u128 = q * u;
    let r: u128 = v - low;
    if r < u - r || (r == u - r && q % 2 == 0) {
        low
    } else {
        proof {
            assert((q + 1) * u == q * u + u) by (nonlinear_arith);
        }
        low + u
    }
}

} // verus!
