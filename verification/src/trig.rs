//! Fixed-point sine and cosine.
//!
//! Angles are given as fractions of a full turn (`num / den` turns), so
//! every phase this crate needs — oscillator phases, window arguments,
//! sinc arguments — is an exact rational and no irrational constant ever
//! enters an angle. Results are scaled by [`crate::fixed::UNIT`] and
//! saturated to one unit, so `|sin| <= 1` and `|cos| <= 1` hold exactly.

use crate::fixed::UNIT;
use vstd::arithmetic::div_mod::lemma_div_is_ordered;
use vstd::arithmetic::div_mod::lemma_div_pos_is_pos;
use vstd::arithmetic::div_mod::lemma_fundamental_div_mod_converse;
use vstd::prelude::*;

verus! {

/// pi/2 in millionths of a radian, rounded down.
pub const HALF_PI_MICRO: u64 = 1_570_796;

/// Largest denominator the turn-fraction routines accept.
pub const MAX_TURN_DEN: u64 = 0x10_0000_0000;

/// Sine of `x` millionths of a radian for `0 <= x <= pi/2`, scaled by
/// `UNIT`: an alternating Taylor sum to the ninth power, clamped to
/// `[0, UNIT]`.
pub open spec fn spec_sin_quarter(x: int) -> int {
    let u = UNIT as int;
    let x2 = (x * x) / u;
    let x3 = (x2 * x) / u;
    let x5 = (x3 * x2) / u;
    let x7 = (x5 * x2) / u;
    let x9 = (x7 * x2) / u;
    let s = x + x5 / 120 + x9 / 362880;
    let d = x3 / 6 + x7 / 5040;
    let r = if s >= d {
        s - d
    } else {
        0
    };
    if r > u {
        u
    } else {
        r
    }
}

/// Sine of `2*pi*num/den`, scaled by `UNIT`. The angle is reduced
/// modulo one turn, mapped onto the first quadrant, and signed by
/// quadrant.
pub open spec fn spec_sin_turns(num: int, den: int) -> int {
    let r = num % den;
    let r4 = 4 * r;
    let q = r4 / den;
    let rem = r4 % den;
    let x = if q == 0 || q == 2 {
        (rem * (HALF_PI_MICRO as int)) / den
    } else {
        ((den - rem) * (HALF_PI_MICRO as int)) / den
    };
    let mag = spec_sin_quarter(x);
    if q <= 1 {
        mag
    } else {
        -mag
    }
}

/// Cosine of `2*pi*num/den`, scaled by `UNIT`: the sine a quarter turn
/// ahead.
pub open spec fn spec_cos_turns(num: int, den: int) -> int {
    let r = num % den;
    spec_sin_turns(4 * r + den, 4 * den)
}

/// Executable form of [`spec_sin_quarter`].
pub fn sin_quarter(x: u64) -> (r: u64)
    requires
        x <= HALF_PI_MICRO,
    ensures
        r as int == spec_sin_quarter(x as int),
        r <= UNIT,
{
    proof {
        lemma_abs_pow_bounds(x as int);
    }
    let x2: u64 = x * x / UNIT;
    let x3: u64 = x2 * x / UNIT;
    proof {
        assert(x3 as int * x2 as int <= 9_563_104_506_800) by (nonlinear_arith)
            requires
                0 <= x3 <= 3_875_782,
                0 <= x2 <= 2_467_400,
        ;
        lemma_div_is_ordered(x3 as int * x2 as int, 9_563_104_506_800, UNIT as int);
        lemma_div_pos_is_pos(x3 as int * x2 as int, UNIT as int);
    }
    let x5: u64 = x3 * x2 / UNIT;
    proof {
        assert(x5 as int * x2 as int <= 23_596_002_809_600) by (nonlinear_arith)
            requires
                0 <= x5 <= 9_563_104,
                0 <= x2 <= 2_467_400,
        ;
        lemma_div_is_ordered(x5 as int * x2 as int, 23_596_002_809_600, UNIT as int);
        lemma_div_pos_is_pos(x5 as int * x2 as int, UNIT as int);
    }
    let x7: u64 = x5 * x2 / UNIT;
    proof {
        assert(x7 as int * x2 as int <= 58_220_775_334_800) by (nonlinear_arith)
            requires
                0 <= x7 <= 23_596_002,
                0 <= x2 <= 2_467_400,
        ;
    }
    let x9: u64 = x7 * x2 / UNIT;
    let s: u64 = x + x5 / 120 + x9 / 362880;
    let d: u64 = x3 / 6 + x7 / 5040;
    let r: u64 = if s >= d {
        s - d
    } else {
        0
    };
    if r > UNIT {
        UNIT
    } else {
        r
    }
}

/// Bounds on the Taylor powers used by [`sin_quarter`], keeping every
/// intermediate product inside `u64`.
proof fn lemma_abs_pow_bounds(x: int)
    requires
        0 <= x <= HALF_PI_MICRO,
    ensures
        0 <= x * x <= 2_467_400_073_616,
        0 <= (x * x) / (UNIT as int) <= 2_467_400,
        0 <= ((x * x) / (UNIT as int)) * x <= 3_875_782_050_400,
        0 <= (((x * x) / (UNIT as int)) * x) / (UNIT as int) <= 3_875_782,
{
    let u = UNIT as int;
    assert(x * x <= 2_467_400_073_616 && 0 <= x * x) by (nonlinear_arith)
        requires
            0 <= x <= 1_570_796,
    ;
    lemma_div_is_ordered(x * x, 2_467_400_073_616, u);
    lemma_div_pos_is_pos(x * x, u);
    let x2 = (x * x) / u;
    assert(0 <= x2 * x <= 3_875_782_050_400) by (nonlinear_arith)
        requires
            0 <= x2 <= 2_467_400,
            0 <= x <= 1_570_796,
    ;
    lemma_div_is_ordered(x2 * x, 3_875_782_050_400, u);
    lemma_div_pos_is_pos(x2 * x, u);
}

/// Executable form of [`spec_sin_turns`].
pub fn sin_turns(num: u64, den: u64) -> (r: i64)
    requires
        1 <= den <= MAX_TURN_DEN,
    ensures
        r as int == spec_sin_turns(num as int, den as int),
        -(UNIT as i64) <= r <= UNIT as i64,
{
    let rm: u64 = num % den;
    let r4: u64 = 4 * rm;
    let q: u64 = r4 / den;
    let rem: u64 = r4 % den;
    proof {
        lemma_quadrant_range(r4 as int, den as int);
        lemma_quarter_angle_range(rem as int, den as int);
    }
    let x: u64 = if q == 0 || q == 2 {
        rem * HALF_PI_MICRO / den
    } else {
        (den - rem) * HALF_PI_MICRO / den
    };
    let mag: u64 = sin_quarter(x);
    if q <= 1 {
        mag as i64
    } else {
        -(mag as i64)
    }
}

/// A reduced angle lies in one of the four quadrants.
proof fn lemma_quadrant_range(r4: int, den: int)
    requires
        1 <= den,
        0 <= r4 < 4 * den,
    ensures
        0 <= r4 / den <= 3,
        0 <= r4 % den < den,
{
    lemma_div_pos_is_pos(r4, den);
    lemma_div_is_ordered(r4, 4 * den - 1, den);
    assert((4 * den - 1) / den <= 3) by {
        lemma_fundamental_div_mod_converse(4 * den - 1, den, 3, den - 1);
    }
    assert(0 <= r4 % den < den) by (nonlinear_arith)
        requires
            1 <= den,
    ;
}

/// Mapping a within-quadrant fraction to millionths of a radian stays
/// within the first quarter wave.
proof fn lemma_quarter_angle_range(rem: int, den: int)
    requires
        1 <= den,
        0 <= rem < den,
    ensures
        0 <= (rem * (HALF_PI_MICRO as int)) / den <= HALF_PI_MICRO,
        0 <= ((den - rem) * (HALF_PI_MICRO as int)) / den <= HALF_PI_MICRO,
{
    let h = HALF_PI_MICRO as int;
    assert(rem * h <= den * h && 0 <= rem * h && (den - rem) * h <= den * h && 0 <= (den - rem)
        * h) by (nonlinear_arith)
        requires
            1 <= den,
            0 <= rem < den,
            h == 1_570_796,
    ;
    lemma_div_is_ordered(rem * h, den * h, den);
    lemma_div_is_ordered((den - rem) * h, den * h, den);
    lemma_div_pos_is_pos(rem * h, den);
    lemma_div_pos_is_pos((den - rem) * h, den);
    assert((den * h) / den == h) by {
        lemma_fundamental_div_mod_converse(den * h, den, h, 0);
    }
}

/// Executable form of [`spec_cos_turns`].
pub fn cos_turns(num: u64, den: u64) -> (r: i64)
    requires
        1 <= den <= MAX_TURN_DEN / 4,
    ensures
        r as int == spec_cos_turns(num as int, den as int),
        -(UNIT as i64) <= r <= UNIT as i64,
{
    let rm: u64 = num % den;
    sin_turns(4 * rm + den, 4 * den)
}

} // verus!
