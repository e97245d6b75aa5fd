//! Exact model of single-precision rounding over scaled integers.
//!
//! The colour transform multiplies sample differences by constants that are
//! single-precision values with 24-bit significands, and every such constant
//! is an integer multiple of 2^-25.  A product of one of them with an integer
//! difference, plus an integer luma term, is therefore an exact integer
//! multiple of 2^-25.  We carry all intermediate values scaled by 2^25, so a
//! fused multiply-add is exact integer arithmetic followed by one rounding
//! step to the nearest representable single-precision value (24 significant
//! bits, ties to even).  This module defines that rounding step and proves an
//! executable implementation of it.

use vstd::arithmetic::div_mod::{
    lemma_div_basics_1, lemma_div_decreases, lemma_div_denominator, lemma_fundamental_div_mod,
};
use vstd::arithmetic::mul::{
    lemma_mul_basics, lemma_mul_inequality, lemma_mul_is_associative, lemma_mul_is_commutative,
};
use vstd::prelude::*;

verus! {

/// Magnitudes below 2^24 carry at most 24 significant bits and are exact in
/// single precision.
pub const EXACT_BOUND: u64 = 0x100_0000;

/// Inputs to the rounding step are kept below 2^45 in magnitude; the colour
/// transform stays far inside this.
pub const MAG_LIMIT: u64 = 0x2000_0000_0000;

/// Spacing of representable single-precision magnitudes around `a` (in the
/// scaled domain): 1 while `a` fits in 24 bits, doubling with each further
/// binade.
pub open spec fn ulp_of(a: nat) -> nat
    decreases a,
{
    if a < EXACT_BOUND {
        1
    } else {
        2 * ulp_of(a / 2)
    }
}

/// Round a scaled magnitude to the nearest representable single-precision
/// magnitude, ties to even.
pub open spec fn round_mag(a: nat) -> nat {
    let p = ulp_of(a);
    let q = a / p;
    let r = a % p;
    if 2 * r > p {
        (q + 1) * p
    } else if 2 * r < p {
        q * p
    } else if q % 2 == 1 {
        (q + 1) * p
    } else {
        q * p
    }
}

/// Round a signed scaled value to single precision; rounding is symmetric
/// about zero.
pub open spec fn round_single(n: int) -> int {
    if n >= 0 {
        round_mag(n as nat) as int
    } else {
        -(round_mag((-n) as nat) as int)
    }
}

/// The spacing is positive, and never exceeds the magnitude itself once the
/// magnitude is large enough to be rounded at all.
pub proof fn lemma_ulp_of_bounds(a: nat)
    ensures
        1 <= ulp_of(a),
        a >= EXACT_BOUND ==> ulp_of(a) <= a,
    decreases a,
{
    if a >= EXACT_BOUND {
        lemma_ulp_of_bounds(a / 2);
        if a / 2 >= EXACT_BOUND {
            assert(2 * ulp_of(a / 2) <= 2 * (a / 2));
            assert(2 * (a / 2) <= a) by {
                lemma_fundamental_div_mod(a as int, 2);
            }
        }
    }
}

/// Rounding a magnitude keeps it between its truncation neighbours: the
/// result is never negative, exact below `EXACT_BOUND`, and at most `2 * a`.
pub proof fn lemma_round_mag_bounds(a: nat)
    ensures
        a < EXACT_BOUND ==> round_mag(a) == a,
        round_mag(a) <= 2 * a,
{
    let p = ulp_of(a);
    let q = a / p;
    let r = a % p;
    lemma_ulp_of_bounds(a);
    lemma_fundamental_div_mod(a as int, p as int);
    lemma_mul_is_commutative(q as int, p as int);
    if a < EXACT_BOUND {
        assert(p == 1);
        assert(r == 0);
        assert(q * p == a);
    } else {
        assert(q * p <= a);
        assert((q + 1) * p == q * p + p) by {
            vstd::arithmetic::mul::lemma_mul_is_distributive_add_other_way(
                p as int,
                q as int,
                1,
            );
        }
        assert(p <= a);
    }
}

/// Bounds of the signed rounding, stated for both signs.
pub proof fn lemma_round_single_bounds(n: int)
    ensures
        n >= 0 ==> 0 <= round_single(n) <= 2 * n,
        n < 0 ==> 2 * n <= round_single(n) <= 0,
        -EXACT_BOUND < n < EXACT_BOUND ==> round_single(n) == n,
{
    if n >= 0 {
        lemma_round_mag_bounds(n as nat);
    } else {
        lemma_round_mag_bounds((-n) as nat);
    }
}

/// Compute the single-precision spacing `ulp_of(a)` by widening a power of
/// two until the quotient fits in 24 bits.
fn ulp_of_exec(a: u64) -> (p: u64)
    requires
        a < MAG_LIMIT,
    ensures
        p == ulp_of(a as nat),
        1 <= p <= 0x40_0000,
{
    let mut p: u64 = 1;
    proof {
        lemma_div_basics_1(a as int);
    }
    while a / p >= EXACT_BOUND
        invariant
            1 <= p <= 0x40_0000,
            a < MAG_LIMIT,
            ulp_of(a as nat) == p * ulp_of((a / p) as nat),
        decreases a / p,
    {
        proof {
            let ghost q = (a / p) as nat;
            assert(ulp_of(q) == 2 * ulp_of(q / 2));
            assert(q / 2 == a as nat / (p as nat * 2)) by {
                lemma_div_denominator(a as int, p as int, 2);
            }
            assert(p * (2 * ulp_of(q / 2)) == (p * 2) * ulp_of(q / 2)) by {
                lemma_mul_is_associative(p as int, 2, ulp_of(q / 2) as int);
            }
            // the quotient is at least EXACT_BOUND, so p stays small
            assert(EXACT_BOUND * p <= (a / p) * p) by {
                lemma_mul_inequality(EXACT_BOUND as int, (a / p) as int, p as int);
            }
            assert((a / p) * p <= a) by {
                lemma_fundamental_div_mod(a as int, p as int);
            }
            lemma_div_decreases((a / p) as int, 2);
        }
        p = p * 2;
    }
    proof {
        assert(ulp_of((a / p) as nat) == 1);
        lemma_mul_basics(p as int);
    }
    p
}

/// Round a nonnegative scaled magnitude to the nearest single-precision
/// magnitude, ties to even.
fn round_mag_exec(a: u64) -> (r: u64)
    requires
        a < MAG_LIMIT,
    ensures
        r == round_mag(a as nat),
        r <= 2 * a,
{
    let p = ulp_of_exec(a);
    let q: u64 = a / p;
    let rem: u64 = a % p;
    proof {
        lemma_fundamental_div_mod(a as int, p as int);
        lemma_mul_is_commutative(q as int, p as int);
        assert(q * p <= a);
        assert((q + 1) * p == q * p + p) by {
            vstd::arithmetic::mul::lemma_mul_is_distributive_add_other_way(p as int, q as int, 1);
        }
        lemma_round_mag_bounds(a as nat);
    }
    if 2 * rem > p {
        (q + 1) * p
    } else if 2 * rem < p {
        q * p
    } else if q % 2 == 1 {
        (q + 1) * p
    } else {
        q * p
    }
}

/// Round a signed scaled value to single precision: one rounding step of a
/// fused multiply-add whose exact result is `n / 2^25`.
pub fn round_to_single(n: i64) -> (r: i64)
    requires
        -(MAG_LIMIT as i64) < n < MAG_LIMIT as i64,
    ensures
        r == round_single(n as int),
        n >= 0 ==> 0 <= r <= 2 * n,
        n < 0 ==> 2 * n <= r <= 0,
{
    proof {
        lemma_round_single_bounds(n as int);
    }
    if n >= 0 {
        let m = round_mag_exec(n as u64);
        m as i64
    } else {
        let m = round_mag_exec((-n) as u64);
        -(m as i64)
    }
}

} // verus!
