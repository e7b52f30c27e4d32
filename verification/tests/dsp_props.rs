//! Tests of the DSP utility: window generation, FIR design,
//! convolution, and the quadrature demodulation building blocks.

use composite_decode::dsp::filter;
use composite_decode::dsp::fir_design;
use composite_decode::dsp::freq2cut;
use composite_decode::dsp::generate_window;
use composite_decode::dsp::FilterType;
use composite_decode::dsp::WindowType;
use composite_decode::fixed::UNIT;
use composite_decode::trig::cos_turns;
use composite_decode::trig::sin_turns;

const UNIT_I: i64 = UNIT as i64;

#[test]
fn freq2cut_maps_hertz_to_unit_cutoff() {
    // 3 MHz at a 20 MHz sample rate is 0.3 of Nyquist.
    assert_eq!(freq2cut(3_000_000), 300_000);
    assert_eq!(freq2cut(10_000_000), 1_000_000);
}

#[test]
fn hamming_window_has_expected_shape() {
    let w = generate_window(WindowType::Hamming, 21);
    assert_eq!(w.len(), 20);
    // Symmetric about the centre of the (1..21) sample range.
    for i in 0..20 {
        assert_eq!(w[i], w[19 - i]);
    }
    // Endpoint: 0.54 - 0.46*cos(2*pi/21) ~ 0.1004, exact in the
    // library's fixed-point trigonometry; centre near the maximum.
    assert_eq!(w[0], 100_437);
    assert!(w[9] > 980_000 && w[9] <= UNIT_I);
}

#[test]
fn trig_exact_cardinal_points() {
    assert_eq!(cos_turns(0, 16_000_000), 1_000_000);
    assert_eq!(sin_turns(0, 7), 0);
    // Quarter, half and three-quarter turns.
    assert_eq!(sin_turns(1, 4), 1_000_000);
    assert_eq!(sin_turns(1, 2), 0);
    assert_eq!(sin_turns(3, 4), -1_000_000);
    assert_eq!(cos_turns(1, 2), -1_000_000);
}

#[test]
fn luma_kernel_exact_coefficients() {
    // The decoder's kernel: LowPass(0.3 of Nyquist), Hamming, 21.
    let k = fir_design(FilterType::LowPass(300_000), WindowType::Hamming, 21);
    assert_eq!(k.len(), 20);
    // Symmetric, with known first and central taps and near-unit DC
    // gain.
    assert_eq!(k[0], 1_527);
    assert_eq!(k[9], 287_534);
    assert_eq!(k[9], k[10]);
    let dc: i64 = k.iter().sum();
    assert!((dc - UNIT_I).abs() < 5_000, "dc gain {}", dc);
}

#[test]
fn rectangular_window_is_flat() {
    let w = generate_window(WindowType::Rectangular, 9);
    assert_eq!(w, vec![UNIT_I; 8]);
}

#[test]
fn fir_design_is_deterministic() {
    // Re-running the design with identical arguments yields identical
    // coefficients, bit for bit.
    let a = fir_design(FilterType::LowPass(300_000), WindowType::Hamming, 21);
    let b = fir_design(FilterType::LowPass(300_000), WindowType::Hamming, 21);
    assert_eq!(a, b);
    let c = fir_design(
        FilterType::BandPass(100_000, 400_000),
        WindowType::BlackmanHarris,
        33,
    );
    let d = fir_design(
        FilterType::BandPass(100_000, 400_000),
        WindowType::BlackmanHarris,
        33,
    );
    assert_eq!(c, d);
}

#[test]
fn windowed_sinc_unity_passes_dc() {
    // At the Nyquist cutoff the kernel is an (interpolating) all-pass:
    // convolving a constant signal reproduces it within a percent.
    let kernel = fir_design(FilterType::LowPass(UNIT), WindowType::Hamming, 21);
    let signal = vec![500_000i64; 120];
    let mut out = vec![0i64; 120];
    filter(&signal, &kernel, &mut out);
    for n in 21..120 {
        assert!(
            (out[n] - 500_000).abs() < 10_000,
            "out[{}] = {}",
            n,
            out[n]
        );
    }
}

#[test]
fn filter_zeroes_the_leading_window() {
    let kernel = fir_design(FilterType::LowPass(300_000), WindowType::Hamming, 21);
    let signal = vec![700_000i64; 50];
    let mut out = vec![123i64; 50];
    filter(&signal, &kernel, &mut out);
    for n in 0..kernel.len() {
        assert_eq!(out[n], 0);
    }
}

/// Subcarrier frequency as a fraction of the sample rate, reduced.
const BURST_NUM: u64 = 3_546_895;
const BURST_DEN: u64 = 16_000_000;

fn energy(v: &[i64]) -> i128 {
    v.iter().map(|&x| (x as i128) * (x as i128)).sum()
}

fn demod_energies(signal: &[i64]) -> (i128, i128) {
    let kernel = fir_design(
        FilterType::LowPass(freq2cut(3_000_000)),
        WindowType::Hamming,
        21,
    );
    let n = signal.len();
    let mut i_raw = Vec::with_capacity(n);
    let mut q_raw = Vec::with_capacity(n);
    for k in 0..n {
        let c = cos_turns(k as u64 * BURST_NUM, BURST_DEN);
        let s = sin_turns(k as u64 * BURST_NUM, BURST_DEN);
        i_raw.push(c * signal[k] / UNIT_I);
        q_raw.push(s * signal[k] / UNIT_I);
    }
    let mut i_f = vec![0i64; n];
    let mut q_f = vec![0i64; n];
    filter(&i_raw, &kernel, &mut i_f);
    filter(&q_raw, &kernel, &mut q_f);
    (energy(&i_f[21..]), energy(&q_f[21..]))
}

#[test]
fn quadrature_orthogonality_cosine() {
    // A pure cosine at the burst frequency puts its energy in the
    // I channel after the low-pass.
    let signal: Vec<i64> = (0..600u64)
        .map(|k| cos_turns(k * BURST_NUM, BURST_DEN))
        .collect();
    let (ei, eq) = demod_energies(&signal);
    assert!(ei > 100 * eq, "I energy {} not >> Q energy {}", ei, eq);
}

#[test]
fn quadrature_orthogonality_sine() {
    // A pure sine at the burst frequency puts its energy in the
    // Q channel after the low-pass.
    let signal: Vec<i64> = (0..600u64)
        .map(|k| sin_turns(k * BURST_NUM, BURST_DEN))
        .collect();
    let (ei, eq) = demod_energies(&signal);
    assert!(eq > 100 * ei, "Q energy {} not >> I energy {}", eq, ei);
}
