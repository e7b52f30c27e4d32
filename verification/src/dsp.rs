//! Window functions, windowed-sinc FIR design, and convolution.
//!
//! Coefficients are fixed-point values scaled by [`UNIT`]; cutoffs are
//! given as `omega/pi` scaled by `UNIT`, so `UNIT` itself is the Nyquist
//! frequency.

use crate::fixed::idiv;
use crate::fixed::lemma_abs_mul_le;
use crate::fixed::lemma_tdiv_bound;
use crate::fixed::tdiv;
use crate::fixed::UNIT;
use crate::trig::cos_turns;
use crate::trig::sin_turns;
use crate::trig::spec_cos_turns;
use crate::trig::spec_sin_turns;
use crate::trig::HALF_PI_MICRO;
use vstd::arithmetic::div_mod::lemma_div_is_ordered;
use vstd::arithmetic::div_mod::lemma_div_pos_is_pos;
use vstd::arithmetic::div_mod::lemma_fundamental_div_mod_converse;
use vstd::pervasive::VecAdditionalExecFns;
use vstd::prelude::*;

verus! {

/// Largest signal magnitude [`filter`] accepts.
pub const SIG_ABS_MAX: i64 = 2_000_000_000;

/// Largest kernel-coefficient magnitude [`filter`] accepts. FIR kernels
/// from [`fir_design`] stay within it.
pub const KERNEL_ABS_MAX: i64 = 3_000_000;

/// Longest kernel [`filter`] accepts.
pub const KERNEL_MAX_LEN: usize = 1_024;

/// Longest filter [`fir_design`] accepts.
pub const FIR_MAX_LEN: u32 = 9_999;

/// Window functions.
#[derive(Clone, Copy, PartialEq, Eq, Structural, Debug)]
pub enum WindowType {
    Rectangular,
    Hamming,
    BlackmanHarris,
}

/// Types of filter to generate. Cutoffs are `omega/pi` scaled by
/// `UNIT`, i.e. `UNIT` is the Nyquist frequency.
#[derive(Clone, Copy, PartialEq, Eq, Structural, Debug)]
pub enum FilterType {
    LowPass(u64),
    HighPass(u64),
    BandPass(u64, u64),
    BandStop(u64, u64),
}

/// Convert a frequency in hertz to a cutoff (`omega/pi` scaled by
/// `UNIT`) at the fixed 20 MHz sample rate.
pub fn freq2cut(f: u64) -> (r: u64)
    ensures
        r == f as int / 10,
{
    f / 10
}

/// Coefficient `n` of a window of odd length `m` (samples run from 1 to
/// `m - 1`), scaled by `UNIT`.
pub open spec fn spec_window_coef(window_type: WindowType, m: int, n: int) -> int {
    let u = UNIT as int;
    match window_type {
        WindowType::Rectangular => u,
        WindowType::Hamming => 540_000 - tdiv(460_000 * spec_cos_turns(n, m), u),
        WindowType::BlackmanHarris => 358_750 - tdiv(488_290 * spec_cos_turns(n, m), u) + tdiv(
            141_280 * spec_cos_turns(2 * n, m),
            u,
        ) - tdiv(11_680 * spec_cos_turns(3 * n, m), u),
    }
}

/// One window coefficient is at most one unit in magnitude: the
/// cosine factors are saturated to a unit and the weights of each
/// window sum to exactly one unit.
pub proof fn lemma_window_coef_bound(window_type: WindowType, m: int, n: int)
    ensures
        -(UNIT as int) <= spec_window_coef(window_type, m, n) <= UNIT as int,
{
    let u = UNIT as int;
    lemma_tdiv_bound(460_000 * spec_cos_turns(n, m), u, 460_000 * u);
    lemma_tdiv_bound(488_290 * spec_cos_turns(n, m), u, 488_290 * u);
    lemma_tdiv_bound(141_280 * spec_cos_turns(2 * n, m), u, 141_280 * u);
    lemma_tdiv_bound(11_680 * spec_cos_turns(3 * n, m), u, 11_680 * u);
}

/// Generate a window function. Only odd orders are accepted.
pub fn generate_window(window_type: WindowType, window_len: u32) -> (r: Vec<i64>)
    requires
        window_len % 2 == 1,
    ensures
        r@.len() == window_len - 1,
        forall|i: int|
            0 <= i < r@.len() ==> r@[i] as int == spec_window_coef(
                window_type,
                window_len as int,
                i + 1,
            ),
        forall|i: int|
            0 <= i < r@.len() ==> -(UNIT as i64) <= #[trigger] r@[i] <= UNIT as i64,
{
    let mut r: Vec<i64> = Vec::new();
    let mut n: u32 = 1;
    while n < window_len
        invariant
            1 <= n <= window_len || (window_len == 0 && n == 1),
            window_len % 2 == 1,
            r@.len() == n - 1,
            forall|i: int|
                0 <= i < r@.len() ==> r@[i] as int == spec_window_coef(
                    window_type,
                    window_len as int,
                    i + 1,
                ),
            forall|i: int|
                0 <= i < r@.len() ==> -(UNIT as i64) <= #[trigger] r@[i] <= UNIT as i64,
        decreases window_len - n,
    {
        let m64 = window_len as u64;
        let n64 = n as u64;
        let coef: i64 = match window_type {
            WindowType::Rectangular => UNIT as i64,
            WindowType::Hamming => {
                let c = cos_turns(n64, m64);
                540_000 - idiv(460_000 * c, UNIT)
            },
            WindowType::BlackmanHarris => {
                let c1 = cos_turns(n64, m64);
                let c2 = cos_turns(2 * n64, m64);
                let c3 = cos_turns(3 * n64, m64);
                358_750 - idiv(488_290 * c1, UNIT) + idiv(141_280 * c2, UNIT) - idiv(
                    11_680 * c3,
                    UNIT,
                )
            },
        };
        proof {
            lemma_window_coef_bound(window_type, window_len as int, n as int);
        }
        r.push(coef);
        n = n + 1;
    }
    r
}

/// The windowed-sinc low-pass term for cutoff `c` (scaled by `UNIT`) at
/// sample `n` of an odd length `m`: `c * sinc(c * pi * (n - m/2))`,
/// scaled by `UNIT` and saturated to one unit.
pub open spec fn spec_lowpass_coef(c: int, m: int, n: int) -> int {
    let u = UNIT as int;
    let a = if 2 * n >= m {
        2 * n - m
    } else {
        m - 2 * n
    };
    let s = spec_sin_turns(c * a, 4 * u);
    let x = (c * a * (HALF_PI_MICRO as int)) / u;
    let lp = tdiv(c * s, x);
    if lp > u {
        u
    } else if lp < -u {
        -u
    } else {
        lp
    }
}

/// The un-windowed coefficient `n` of a filter of odd length `m`.
pub open spec fn spec_filter_coef(filter_type: FilterType, m: int, n: int) -> int {
    let u = UNIT as int;
    match filter_type {
        FilterType::LowPass(c) => spec_lowpass_coef(c as int, m, n),
        FilterType::HighPass(c) => spec_lowpass_coef(u, m, n) - spec_lowpass_coef(c as int, m, n),
        FilterType::BandPass(cl, ch) => spec_lowpass_coef(ch as int, m, n) - spec_lowpass_coef(
            cl as int,
            m,
            n,
        ),
        FilterType::BandStop(cl, ch) => spec_lowpass_coef(u, m, n) - spec_lowpass_coef(
            ch as int,
            m,
            n,
        ) + spec_lowpass_coef(cl as int, m, n),
    }
}

/// Coefficient `n` of the designed FIR kernel: the filter term shaped
/// by the window.
pub open spec fn spec_fir_coef(
    filter_type: FilterType,
    window_type: WindowType,
    m: int,
    n: int,
) -> int {
    tdiv(spec_filter_coef(filter_type, m, n) * spec_window_coef(window_type, m, n), UNIT as int)
}

/// A designed coefficient stays within [`KERNEL_ABS_MAX`]: the filter
/// term is at most three saturated low-pass terms and the window at
/// most one unit.
pub proof fn lemma_fir_coef_bound(
    filter_type: FilterType,
    window_type: WindowType,
    m: int,
    n: int,
)
    ensures
        -(KERNEL_ABS_MAX as int) <= spec_fir_coef(filter_type, window_type, m, n)
            <= KERNEL_ABS_MAX as int,
{
    let u = UNIT as int;
    let ff = spec_filter_coef(filter_type, m, n);
    let w = spec_window_coef(window_type, m, n);
    lemma_window_coef_bound(window_type, m, n);
    assert(-3 * u <= ff <= 3 * u);
    lemma_abs_mul_le(ff, w, 3 * u, u);
    lemma_tdiv_bound(ff * w, u, 3 * u * u);
    assert(3 * u * u / u == 3 * u) by {
        lemma_fundamental_div_mod_converse(3 * u * u, u, 3 * u, 0);
    }
}

/// Executable form of [`spec_lowpass_coef`].
fn lowpass_coef(c: u64, m: u64, n: u64) -> (r: i64)
    requires
        1 <= c <= UNIT,
        m % 2 == 1,
        1 <= m <= FIR_MAX_LEN as u64,
        1 <= n < m,
    ensures
        r as int == spec_lowpass_coef(c as int, m as int, n as int),
        -(UNIT as i64) <= r <= UNIT as i64,
{
    let a: u64 = if 2 * n >= m {
        2 * n - m
    } else {
        m - 2 * n
    };
    proof {
        if 2 * n == m {
            lemma_fundamental_div_mod_converse(m as int, 2, n as int, 0);
        }
        assert(c * a <= 9_999_000_000 && c * a >= 1) by (nonlinear_arith)
            requires
                1 <= c <= 1_000_000,
                1 <= a <= 9_999,
        ;
        assert(c * a * (HALF_PI_MICRO as int) <= 15_706_389_204_000_000) by (nonlinear_arith)
            requires
                1 <= c * a <= 9_999_000_000,
                HALF_PI_MICRO == 1_570_796,
        ;
        assert(c * a * (HALF_PI_MICRO as int) >= 1_570_796) by (nonlinear_arith)
            requires
                1 <= c * a,
                HALF_PI_MICRO == 1_570_796,
        ;
        lemma_div_is_ordered(UNIT as int, c * a * (HALF_PI_MICRO as int), UNIT as int);
        lemma_fundamental_div_mod_converse(UNIT as int, UNIT as int, 1, 0);
    }
    let s: i64 = sin_turns(c * a, 4 * UNIT);
    let x: u64 = c * a * HALF_PI_MICRO / UNIT;
    proof {
        lemma_abs_mul_le(c as int, s as int, UNIT as int, UNIT as int);
    }
    let cs: i64 = (c as i64) * s;
    let lp: i64 = idiv(cs, x);
    if lp > UNIT as i64 {
        UNIT as i64
    } else if lp < -(UNIT as i64) {
        -(UNIT as i64)
    } else {
        lp
    }
}

/// Design FIR filter coefficients of the given order. Only odd orders
/// are accepted; cutoffs must lie in `(0, UNIT]`.
pub fn fir_design(filter_type: FilterType, window_type: WindowType, filter_len: u32) -> (r: Vec<
    i64,
>)
    requires
        filter_len % 2 == 1,
        filter_len <= FIR_MAX_LEN,
        cutoffs_valid(filter_type),
    ensures
        r@.len() == filter_len - 1,
        forall|i: int|
            0 <= i < r@.len() ==> r@[i] as int == spec_fir_coef(
                filter_type,
                window_type,
                filter_len as int,
                i + 1,
            ),
        forall|i: int|
            0 <= i < r@.len() ==> -KERNEL_ABS_MAX <= #[trigger] r@[i] <= KERNEL_ABS_MAX,
{
    let window = generate_window(window_type, filter_len);
    let mut r: Vec<i64> = Vec::new();
    let mut n: u32 = 1;
    while n < filter_len
        invariant
            1 <= n <= filter_len || (filter_len == 0 && n == 1),
            filter_len % 2 == 1,
            filter_len <= FIR_MAX_LEN,
            cutoffs_valid(filter_type),
            window@.len() == filter_len - 1,
            forall|i: int|
                0 <= i < window@.len() ==> window@[i] as int == spec_window_coef(
                    window_type,
                    filter_len as int,
                    i + 1,
                ),
            forall|i: int|
                0 <= i < window@.len() ==> -(UNIT as i64) <= #[trigger] window@[i] <= UNIT as i64,
            r@.len() == n - 1,
            forall|i: int|
                0 <= i < r@.len() ==> r@[i] as int == spec_fir_coef(
                    filter_type,
                    window_type,
                    filter_len as int,
                    i + 1,
                ),
            forall|i: int|
                0 <= i < r@.len() ==> -KERNEL_ABS_MAX <= #[trigger] r@[i] <= KERNEL_ABS_MAX,
        decreases filter_len - n,
    {
        let m64 = filter_len as u64;
        let n64 = n as u64;
        let ff: i64 = match filter_type {
            FilterType::LowPass(c) => lowpass_coef(c, m64, n64),
            FilterType::HighPass(c) => lowpass_coef(UNIT, m64, n64) - lowpass_coef(c, m64, n64),
            FilterType::BandPass(cl, ch) => lowpass_coef(ch, m64, n64) - lowpass_coef(
                cl,
                m64,
                n64,
            ),
            FilterType::BandStop(cl, ch) => lowpass_coef(UNIT, m64, n64) - lowpass_coef(
                ch,
                m64,
                n64,
            ) + lowpass_coef(cl, m64, n64),
        };
        let w: i64 = window[(n - 1) as usize];
        proof {
            lemma_abs_mul_le(ff as int, w as int, 3 * (UNIT as int), UNIT as int);
            lemma_fir_coef_bound(filter_type, window_type, filter_len as int, n as int);
        }
        let coef: i64 = idiv(ff * w, UNIT);
        r.push(coef);
        n = n + 1;
    }
    r
}

/// The cutoffs a filter type carries all lie in `(0, UNIT]`.
pub open spec fn cutoffs_valid(filter_type: FilterType) -> bool {
    match filter_type {
        FilterType::LowPass(c) => 1 <= c <= UNIT,
        FilterType::HighPass(c) => 1 <= c <= UNIT,
        FilterType::BandPass(cl, ch) => 1 <= cl <= UNIT && 1 <= ch <= UNIT,
        FilterType::BandStop(cl, ch) => 1 <= cl <= UNIT && 1 <= ch <= UNIT,
    }
}

/// Law: FIR design is deterministic. Any two kernels whose entries obey
/// the coefficient formula for identical design arguments are
/// identical, entry for entry — so re-running the design with the same
/// arguments reproduces the same kernel exactly.
pub proof fn lemma_fir_design_deterministic(
    k1: Seq<i64>,
    k2: Seq<i64>,
    filter_type: FilterType,
    window_type: WindowType,
    filter_len: u32,
)
    requires
        k1.len() == filter_len - 1,
        k2.len() == filter_len - 1,
        forall|i: int|
            0 <= i < k1.len() ==> k1[i] as int == spec_fir_coef(
                filter_type,
                window_type,
                filter_len as int,
                i + 1,
            ),
        forall|i: int|
            0 <= i < k2.len() ==> k2[i] as int == spec_fir_coef(
                filter_type,
                window_type,
                filter_len as int,
                i + 1,
            ),
    ensures
        k1 == k2,
{
    assert(k1 =~= k2);
}

/// The convolution sum at index `n` over the first `j` kernel taps:
/// `sum of s[n - t] * k[t]` for `t < j`.
pub open spec fn spec_conv_partial(s: Seq<i64>, k: Seq<i64>, n: int, j: int) -> int
    decreases j,
{
    if j <= 0 {
        0
    } else {
        spec_conv_partial(s, k, n, j - 1) + s[n - (j - 1)] * k[j - 1]
    }
}

/// The full convolution sum at index `n`.
pub open spec fn spec_conv(s: Seq<i64>, k: Seq<i64>, n: int) -> int {
    spec_conv_partial(s, k, n, k.len() as int)
}

/// Magnitudes of all entries of a sequence are bounded by `b`.
pub open spec fn all_abs_le(s: Seq<i64>, b: int) -> bool {
    forall|i: int| 0 <= i < s.len() ==> -b <= #[trigger] s[i] <= b
}

/// A partial convolution sum of `j` taps of bounded signal and kernel
/// is bounded by `j` times the product of the bounds.
pub proof fn lemma_conv_partial_bound(s: Seq<i64>, k: Seq<i64>, n: int, j: int, sb: int, kb: int)
    requires
        0 <= j <= k.len(),
        j <= n + 1,
        n < s.len(),
        0 <= sb,
        0 <= kb,
        all_abs_le(s, sb),
        all_abs_le(k, kb),
    ensures
        -(j * (sb * kb)) <= spec_conv_partial(s, k, n, j) <= j * (sb * kb),
    decreases j,
{
    if j > 0 {
        lemma_conv_partial_bound(s, k, n, j - 1, sb, kb);
        lemma_abs_mul_le(s[n - (j - 1)] as int, k[j - 1] as int, sb, kb);
        assert((j - 1) * (sb * kb) + sb * kb == j * (sb * kb)) by (nonlinear_arith);
    }
}

/// Convolve `signal` with `kernel` into `result` (all fixed-point,
/// scaled by `UNIT`): entry `n` of the result is the `UNIT`-normalized
/// convolution sum for `n` past the kernel length, and zero before it.
pub fn filter(signal: &Vec<i64>, kernel: &Vec<i64>, result: &mut Vec<i64>)
    requires
        old(result)@.len() == signal@.len(),
        kernel@.len() <= KERNEL_MAX_LEN,
        all_abs_le(signal@, SIG_ABS_MAX as int),
        all_abs_le(kernel@, KERNEL_ABS_MAX as int),
    ensures
        final(result)@.len() == signal@.len(),
        forall|n: int|
            0 <= n < signal@.len() && n < kernel@.len() ==> final(result)@[n] == 0,
        forall|n: int|
            kernel@.len() <= n < signal@.len() ==> final(result)@[n] as int == tdiv(
                spec_conv(signal@, kernel@, n),
                UNIT as int,
            ),
{
    let len = result.len();
    let mut z: usize = 0;
    while z < len
        invariant
            len == result@.len(),
            z <= len,
            forall|i: int| 0 <= i < z ==> result@[i] == 0,
        decreases len - z,
    {
        result.set(z, 0);
        z = z + 1;
    }
    let klen = kernel.len();
    let mut n: usize = klen;
    while n < len
        invariant
            len == result@.len() == signal@.len(),
            klen == kernel@.len() <= KERNEL_MAX_LEN,
            klen <= n <= len || (n == klen && len < klen),
            all_abs_le(signal@, SIG_ABS_MAX as int),
            all_abs_le(kernel@, KERNEL_ABS_MAX as int),
            forall|i: int| 0 <= i < len && i < klen ==> result@[i] == 0,
            forall|i: int|
                klen <= i < n ==> result@[i] as int == tdiv(
                    spec_conv(signal@, kernel@, i),
                    UNIT as int,
                ),
        decreases len - n,
    {
        let mut acc: i64 = 0;
        let mut j: usize = 0;
        while j < klen
            invariant
                len == result@.len() == signal@.len(),
                klen == kernel@.len() <= KERNEL_MAX_LEN,
                klen <= n < len,
                j <= klen,
                all_abs_le(signal@, SIG_ABS_MAX as int),
                all_abs_le(kernel@, KERNEL_ABS_MAX as int),
                acc as int == spec_conv_partial(signal@, kernel@, n as int, j as int),
            decreases klen - j,
        {
            proof {
                let sk = (SIG_ABS_MAX as int) * (KERNEL_ABS_MAX as int);
                lemma_abs_mul_le(
                    signal@[n - j] as int,
                    kernel@[j as int] as int,
                    SIG_ABS_MAX as int,
                    KERNEL_ABS_MAX as int,
                );
                lemma_conv_partial_bound(
                    signal@,
                    kernel@,
                    n as int,
                    j as int,
                    SIG_ABS_MAX as int,
                    KERNEL_ABS_MAX as int,
                );
                assert(0 <= (j as int) * sk <= 1_023 * sk) by (nonlinear_arith)
                    requires
                        0 <= j,
                        j as int <= 1_023,
                        sk == (SIG_ABS_MAX as int) * (KERNEL_ABS_MAX as int),
                ;
            }
            acc = acc + signal[n - j] * kernel[j];
            j = j + 1;
        }
        proof {
            let sk = (SIG_ABS_MAX as int) * (KERNEL_ABS_MAX as int);
            lemma_conv_partial_bound(
                signal@,
                kernel@,
                n as int,
                klen as int,
                SIG_ABS_MAX as int,
                KERNEL_ABS_MAX as int,
            );
            assert(0 <= (klen as int) * sk <= 1_024 * sk) by (nonlinear_arith)
                requires
                    0 <= klen,
                    klen as int <= 1_024,
                    sk == (SIG_ABS_MAX as int) * (KERNEL_ABS_MAX as int),
            ;
        }
        result.set(n, idiv(acc, UNIT));
        n = n + 1;
    }
}

} // verus!
