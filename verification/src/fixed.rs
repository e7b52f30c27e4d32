//! Fixed-point scaling helpers shared by the DSP and decoder modules.

use vstd::arithmetic::div_mod::lemma_div_is_ordered;
use vstd::arithmetic::div_mod::lemma_div_is_ordered_by_denominator;
use vstd::arithmetic::div_mod::lemma_div_pos_is_pos;
use vstd::prelude::*;

verus! {

/// One fixed-point unit. A stored value `v` stands for the real number
/// `v / UNIT`, i.e. values carry six fractional decimal digits.
pub const UNIT: u64 = 1_000_000;

/// Truncating (round-toward-zero) division of `a` by a positive `d`:
/// the behaviour of Rust's `/` on signed integers.
pub open spec fn tdiv(a: int, d: int) -> int {
    if a >= 0 {
        a / d
    } else {
        -((-a) / d)
    }
}

/// Truncating division of an `i64` by a positive divisor.
pub fn idiv(a: i64, d: u64) -> (r: i64)
    requires
        1 <= d,
        i64::MIN < a,
    ensures
        r as int == tdiv(a as int, d as int),
{
    if a >= 0 {
        let q: u64 = (a as u64) / d;
        proof {
            lemma_div_is_ordered_by_denominator(a as int, 1, d as int);
        }
        q as i64
    } else {
        let m: u64 = ((-a) as u64) / d;
        proof {
            lemma_div_is_ordered_by_denominator(-a as int, 1, d as int);
        }
        -(m as i64)
    }
}

/// The product of two values bounded in magnitude is bounded by the
/// product of the bounds.
pub proof fn lemma_abs_mul_le(a: int, b: int, aa: int, bb: int)
    by (nonlinear_arith)
    requires
        -aa <= a <= aa,
        -bb <= b <= bb,
    ensures
        -(aa * bb) <= a * b <= aa * bb,
{
}

/// Truncating division keeps a magnitude bound, divided through.
pub proof fn lemma_tdiv_bound(a: int, d: int, bound: int)
    requires
        -bound <= a <= bound,
        1 <= d,
    ensures
        -(bound / d) <= tdiv(a, d) <= bound / d,
{
    if a >= 0 {
        lemma_div_is_ordered(a, bound, d);
        lemma_div_pos_is_pos(a, d);
        lemma_div_pos_is_pos(bound, d);
    } else {
        lemma_div_is_ordered(-a, bound, d);
        lemma_div_pos_is_pos(-a, d);
        lemma_div_pos_is_pos(bound, d);
    }
}

} // verus!
