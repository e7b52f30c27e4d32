//! The streaming composite decoder: a push-driven state machine that
//! recovers sync structure by hysteretic edge detection and pulse-width
//! classification, captures scanlines, demodulates chroma against a
//! synthesized subcarrier, and emits RGB pixel rows.
//!
//! Sample amplitudes are fixed-point values scaled by
//! [`crate::fixed::UNIT`] (so `1.0` of the nominal waveform is
//! `1_000_000`); pulse widths are measured in whole samples at the
//! fixed 20 MHz sample rate.

use crate::dsp::all_abs_le;
use crate::dsp::filter;
use crate::dsp::fir_design;
use crate::dsp::freq2cut;
use crate::dsp::spec_conv;
use crate::dsp::spec_fir_coef;
use crate::dsp::FilterType;
use crate::dsp::WindowType;
use crate::dsp::KERNEL_ABS_MAX;
use crate::fixed::idiv;
use crate::fixed::lemma_abs_mul_le;
use crate::fixed::lemma_tdiv_bound;
use crate::fixed::tdiv;
use crate::fixed::UNIT;
use crate::trig::cos_turns;
use crate::trig::sin_turns;
use crate::trig::spec_cos_turns;
use crate::trig::spec_sin_turns;
use vstd::arithmetic::div_mod::lemma_div_is_ordered;
use vstd::arithmetic::div_mod::lemma_div_pos_is_pos;
use vstd::pervasive::VecAdditionalExecFns;
use vstd::prelude::*;

verus! {

/// Samples per second of the input waveform.
pub const SAMPLE_RATE: u64 = 20_000_000;

/// Staging-buffer capacity of the sample intake.
pub const BUF_SZ: usize = 1024;

/// Display width in pixels.
pub const SCREEN_WIDTH: usize = 800;

/// Display height in pixels.
pub const SCREEN_HEIGHT: usize = 600;

/// Blanking lines per field.
pub const V_BLANKING_LINES: i32 = 25;

/// First captured sample index relative to the trailing edge of an
/// H-sync pulse.
pub const SCANLINE_START_N: usize = 0;

/// First active-video sample index: the 5.7 us back porch at 20 MHz.
pub const SCANLINE_VID_START_N: usize = 114;

/// One past the last captured sample index: back porch + active video
/// + front porch (5.7 + 51.96 + 1.65 us) at 20 MHz.
pub const SCANLINE_END_N: usize = 1186;

/// Length of the scanline capture buffer.
pub const SCANLINE_SAMPLES: usize = 1186;

/// Number of active-video samples per line.
pub const SCANLINE_VID_SAMPLES: usize = 1072;

/// Centre of the color burst: half the back porch.
pub const SCANLINE_BURST_N: usize = 57;

/// Length of the luma low-pass FIR design (3 MHz cutoff, Hamming).
pub const FIR_LUMA_LEN: u32 = 21;

/// Hysteresis midpoint amplitude (0.07), scaled by `UNIT`.
pub const SYNC_THRESHOLD: i64 = 70_000;

/// Lower hysteresis threshold: half the midpoint.
pub const SYNC_LOW_THRESHOLD: i64 = 35_000;

/// Upper hysteresis threshold: one and a half times the midpoint.
pub const SYNC_HIGH_THRESHOLD: i64 = 105_000;

/// Horizontal sync width: 4.7 us in samples.
pub const H_SYNC_PULSE_SAMPLES: usize = 94;

/// Equalizing (vertical-short) pulse width: 2.35 us in samples.
pub const V_SHORT_SYNC_PULSE_SAMPLES: usize = 47;

/// Complement of the broad vertical pulse within a half line:
/// 32 - 4.7 = 27.3 us in samples.
pub const V_BROAD_GAP_SAMPLES: usize = 546;

/// Classifier tolerance: 0.5 us in samples.
pub const SYNC_LEN_DELTA_SAMPLES: usize = 10;

/// High run preceding a vertical-short pulse in an odd field:
/// 59.35 us in samples.
pub const ODD_FRAME_HI_SAMPLES: usize = 1187;

/// High run preceding a vertical-short pulse in an even field:
/// 27.35 us in samples.
pub const EVEN_FRAME_HI_SAMPLES: usize = 547;

/// Subcarrier phase advance per sample, in turns:
/// `F_BURST / SAMPLE_RATE = 4_433_618.75 / 20_000_000`, reduced.
pub const BURST_PHASE_NUM: u64 = 3_546_895;

/// Denominator of the per-sample subcarrier phase.
pub const BURST_PHASE_DEN: u64 = 16_000_000;

/// Largest sample magnitude the decoder accepts (two nominal units).
pub const SAMPLE_ABS_MAX: i64 = 2_000_000;

/// Black-level pedestal subtracted from luma (0.1), scaled by `UNIT`.
pub const LUMA_PEDESTAL: i64 = 100_000;

/// Gain applied to the demodulated chroma components.
pub const CHROMA_GAIN: i64 = 80;

/// Largest magnitude of a filtered luma or chroma sample.
pub const LUMA_ABS_MAX: i64 = 120_000_000;

/// Largest magnitude of a phase-corrected chroma sample.
pub const IQ_REAL_ABS_MAX: i64 = 28_800_000_000;

/// Largest magnitude [`yiq_to_rgb`] accepts for each component.
pub const YIQ_ABS_MAX: i64 = 3_000_000_000_000;

/// Largest magnitude of a color channel before clamping.
pub const RGB_ABS_MAX: i64 = 12_000_000_000_000;

/// Classification of a completed sync pulse.
#[derive(Clone, Copy, PartialEq, Eq, Structural, Debug)]
pub enum SyncPulse {
    Unknown,
    Horizontal,
    VerticalShort,
    VerticalBroad,
}

/// Field parity, set at vertical-short pulses from the preceding high
/// run.
#[derive(Clone, Copy, PartialEq, Eq, Structural, Debug)]
pub enum Field {
    Unknown,
    Odd,
    Even,
}

/// One display pixel.
#[derive(Clone, Copy, PartialEq, Eq, Structural, Debug)]
pub struct Rgb {
    pub r: u8,
    pub g: u8,
    pub b: u8,
}

/// One rendered scanline: a display row index and its pixels.
pub struct RenderedLine {
    pub y: i32,
    pub pixels: Vec<Rgb>,
}

/// The mathematical state of the sync tracker, line capture and raster
/// index — everything the per-sample step function reads or writes.
#[verifier::ext_equal]
pub ghost struct Model {
    pub in_sync_pulse: bool,
    pub since_edge: int,
    pub last_flat: int,
    pub last_sync: SyncPulse,
    pub last_field: Field,
    pub scanline: Seq<i64>,
    pub scanline_index: int,
}

/// An emitted row in the model: a row index and its pixel sequence.
#[verifier::ext_equal]
pub ghost struct RowModel {
    pub y: int,
    pub pixels: Seq<Rgb>,
}

/// The decoder state before any sample has been observed.
pub open spec fn initial_model() -> Model {
    Model {
        in_sync_pulse: false,
        since_edge: 0,
        last_flat: 0,
        last_sync: SyncPulse::Unknown,
        last_field: Field::Unknown,
        scanline: Seq::new(SCANLINE_SAMPLES as nat, |i: int| 0i64),
        scanline_index: 0,
    }
}

/// Increment saturating at the machine word, so an arbitrarily long
/// flat stretch cannot wrap the edge counter.
pub open spec fn sat_inc(se: int) -> int {
    if se < usize::MAX as int {
        se + 1
    } else {
        se
    }
}

/// Advance the raster index by an interlaced line pair, saturating at
/// the top of `i32`.
pub open spec fn sat_add2(idx: int) -> int {
    if idx <= i32::MAX - 2 {
        idx + 2
    } else {
        idx
    }
}

/// A measured width lies within the classifier tolerance of a
/// canonical width.
pub open spec fn near(len: int, target: int) -> bool {
    target - (SYNC_LEN_DELTA_SAMPLES as int) < len < target + (SYNC_LEN_DELTA_SAMPLES as int)
}

/// Classify a completed low run of `len` samples; unrecognized widths
/// leave the previous classification in place.
pub open spec fn classify_sync(cur: SyncPulse, len: int) -> SyncPulse {
    if near(len, H_SYNC_PULSE_SAMPLES as int) {
        SyncPulse::Horizontal
    } else if near(len, V_SHORT_SYNC_PULSE_SAMPLES as int) {
        SyncPulse::VerticalShort
    } else if near(len, V_BROAD_GAP_SAMPLES as int) {
        SyncPulse::VerticalBroad
    } else {
        cur
    }
}

/// Update the field parity: only a vertical-short pulse reclassifies,
/// from the length of the preceding high run.
pub open spec fn classify_field(cur: Field, flat: int, len: int) -> Field {
    if near(len, V_SHORT_SYNC_PULSE_SAMPLES as int) {
        if near(flat, ODD_FRAME_HI_SAMPLES as int) {
            Field::Odd
        } else if near(flat, EVEN_FRAME_HI_SAMPLES as int) {
            Field::Even
        } else {
            cur
        }
    } else {
        cur
    }
}

/// The hysteresis predicate: true while the current run continues.
pub open spec fn visit_stays(m: Model, x: i64) -> bool {
    if m.in_sync_pulse {
        (x as int) < SYNC_HIGH_THRESHOLD as int
    } else {
        (x as int) > SYNC_LOW_THRESHOLD as int
    }
}

/// Coefficient `n` of the decoder's luma/chroma low-pass kernel.
pub open spec fn spec_luma_coef(n: int) -> int {
    spec_fir_coef(
        FilterType::LowPass(300_000),
        WindowType::Hamming,
        FIR_LUMA_LEN as int,
        n,
    )
}

/// The decoder's luma/chroma low-pass kernel.
pub open spec fn spec_luma_kernel() -> Seq<i64> {
    Seq::new((FIR_LUMA_LEN - 1) as nat, |i: int| spec_luma_coef(i + 1) as i64)
}

/// The local oscillator's cosine at sample `n`.
pub open spec fn spec_osc_cos(n: int) -> int {
    spec_cos_turns(n * BURST_PHASE_NUM as int, BURST_PHASE_DEN as int)
}

/// The local oscillator's sine at sample `n`.
pub open spec fn spec_osc_sin(n: int) -> int {
    spec_sin_turns(n * BURST_PHASE_NUM as int, BURST_PHASE_DEN as int)
}

/// The cosine reference vector over one scanline.
pub open spec fn spec_cos_wave() -> Seq<i64> {
    Seq::new(SCANLINE_SAMPLES as nat, |n: int| spec_osc_cos(n) as i64)
}

/// The sine reference vector over one scanline.
pub open spec fn spec_sin_wave() -> Seq<i64> {
    Seq::new(SCANLINE_SAMPLES as nat, |n: int| spec_osc_sin(n) as i64)
}

/// The low-pass-filtered scanline at sample `n` (zero in the
/// kernel-length prefix, which precedes the displayed window).
pub open spec fn spec_luma_at(scan: Seq<i64>, n: int) -> int {
    if n < spec_luma_kernel().len() {
        0
    } else {
        tdiv(spec_conv(scan, spec_luma_kernel(), n), UNIT as int)
    }
}

/// The raw in-phase product: scanline times the cosine reference.
pub open spec fn spec_i_raw(scan: Seq<i64>) -> Seq<i64> {
    Seq::new(SCANLINE_SAMPLES as nat, |n: int| tdiv(spec_osc_cos(n) * scan[n], UNIT as int) as i64)
}

/// The raw quadrature product: scanline times the sine reference.
pub open spec fn spec_q_raw(scan: Seq<i64>) -> Seq<i64> {
    Seq::new(SCANLINE_SAMPLES as nat, |n: int| tdiv(spec_osc_sin(n) * scan[n], UNIT as int) as i64)
}

/// The filtered in-phase component at sample `n`.
pub open spec fn spec_i_filtered_at(scan: Seq<i64>, n: int) -> int {
    if n < spec_luma_kernel().len() {
        0
    } else {
        tdiv(spec_conv(spec_i_raw(scan), spec_luma_kernel(), n), UNIT as int)
    }
}

/// The filtered quadrature component at sample `n`.
pub open spec fn spec_q_filtered_at(scan: Seq<i64>, n: int) -> int {
    if n < spec_luma_kernel().len() {
        0
    } else {
        tdiv(spec_conv(spec_q_raw(scan), spec_luma_kernel(), n), UNIT as int)
    }
}

/// The burst-phase-corrected in-phase component at sample `n`: the
/// real part of the filtered I/Q rotated by the conjugate of the
/// burst-centre sample.
pub open spec fn spec_i_real_at(scan: Seq<i64>, n: int) -> int {
    let ib = spec_i_filtered_at(scan, SCANLINE_BURST_N as int);
    let qb = spec_q_filtered_at(scan, SCANLINE_BURST_N as int);
    tdiv(ib * spec_i_filtered_at(scan, n) + qb * spec_q_filtered_at(scan, n), UNIT as int)
}

/// The burst-phase-corrected quadrature component at sample `n`.
pub open spec fn spec_q_real_at(scan: Seq<i64>, n: int) -> int {
    let ib = spec_i_filtered_at(scan, SCANLINE_BURST_N as int);
    let qb = spec_q_filtered_at(scan, SCANLINE_BURST_N as int);
    tdiv(ib * spec_q_filtered_at(scan, n) - qb * spec_i_filtered_at(scan, n), UNIT as int)
}

/// Convert Y/I/Q to R/G/B with the fixed coefficient matrix, before
/// clamping.
pub open spec fn spec_yiq_to_rgb(y: int, i: int, q: int) -> (int, int, int) {
    let u = UNIT as int;
    (
        y + tdiv(956_000 * i + 621_000 * q, u),
        y + tdiv(-272_000 * i - 647_000 * q, u),
        y + tdiv(-1_106_000 * i + 1_703_000 * q, u),
    )
}

/// Clamp a channel below at zero and saturate the 8-bit conversion.
pub open spec fn spec_to_byte(c: int) -> u8 {
    let c0 = if c < 0 {
        0
    } else {
        c
    };
    let v = (255 * c0) / (UNIT as int);
    if v > 255 {
        255u8
    } else {
        v as u8
    }
}

/// The pixel rendered at display column `x` from a captured scanline.
pub open spec fn spec_pixel(scan: Seq<i64>, x: int) -> Rgb {
    let xc = SCANLINE_VID_START_N as int + (x * SCANLINE_VID_SAMPLES as int) / (
    SCREEN_WIDTH as int);
    let y = spec_luma_at(scan, xc) - LUMA_PEDESTAL as int;
    let i = CHROMA_GAIN as int * spec_i_real_at(scan, xc);
    let q = CHROMA_GAIN as int * spec_q_real_at(scan, xc);
    let rgb = spec_yiq_to_rgb(y, i, q);
    Rgb { r: spec_to_byte(rgb.0), g: spec_to_byte(rgb.1), b: spec_to_byte(rgb.2) }
}

/// The full pixel row rendered from a captured scanline.
pub open spec fn spec_render_row(scan: Seq<i64>) -> Seq<Rgb> {
    Seq::new(SCREEN_WIDTH as nat, |x: int| spec_pixel(scan, x))
}

/// Whether the raster emitter, called at a low-to-high edge, renders a
/// row — and which row: framing must be acquired, the previous pulse
/// horizontal, and the raster index on screen.
pub open spec fn draw_emits(m: Model) -> Option<RowModel> {
    if m.last_field != Field::Unknown && m.last_sync == SyncPulse::Horizontal && 0
        <= m.scanline_index < SCREEN_HEIGHT as int {
        Some(RowModel { y: m.scanline_index, pixels: spec_render_row(m.scanline) })
    } else {
        None
    }
}

/// The raster index after the emitter runs: reset at a vertical-short
/// pulse by field parity, advanced by two after a horizontal pulse,
/// untouched otherwise.
pub open spec fn draw_index(m: Model) -> int {
    if m.last_field == Field::Unknown || m.last_sync == SyncPulse::Unknown {
        m.scanline_index
    } else if m.last_sync == SyncPulse::VerticalShort {
        match m.last_field {
            Field::Even => -(V_BLANKING_LINES as int) - 1,
            Field::Odd => -(V_BLANKING_LINES as int),
            Field::Unknown => 0,
        }
    } else if m.last_sync == SyncPulse::Horizontal {
        sat_add2(m.scanline_index)
    } else {
        m.scanline_index
    }
}

/// One examination of a sample by the edge-detector loop: count it,
/// capture it into the scanline when relevant, and on an edge run the
/// emitter and classifier and reset the counter. The sample that
/// breaks a run triggers the transition and is then examined again as
/// the first sample of the new run (see [`step_core`]).
pub open spec fn visit_core(m: Model, x: i64) -> Model {
    let se = sat_inc(m.since_edge);
    let scan = if !m.in_sync_pulse && m.last_sync == SyncPulse::Horizontal && se
        > SCANLINE_START_N as int && se < SCANLINE_END_N as int {
        m.scanline.update(se - SCANLINE_START_N as int, x)
    } else {
        m.scanline
    };
    if visit_stays(m, x) {
        Model { since_edge: se, scanline: scan, ..m }
    } else if m.in_sync_pulse {
        // a low run ends: the emitter sees the previous pulse's
        // classification, then the just-ended pulse is classified
        Model {
            in_sync_pulse: false,
            since_edge: 0,
            last_flat: se,
            last_sync: classify_sync(m.last_sync, se),
            last_field: classify_field(m.last_field, m.last_flat, se),
            scanline: scan,
            scanline_index: draw_index(m),
        }
    } else {
        Model { in_sync_pulse: true, since_edge: 0, last_flat: se, scanline: scan, ..m }
    }
}

/// The row emitted during one examination: only the end of a low run
/// reaches the emitter, which sees the previous classification.
pub open spec fn visit_emit(m: Model, x: i64) -> Option<RowModel> {
    if !visit_stays(m, x) && m.in_sync_pulse {
        draw_emits(m)
    } else {
        None
    }
}

/// A row option as a sequence of zero or one rows.
pub open spec fn opt_row_seq(o: Option<RowModel>) -> Seq<RowModel> {
    match o {
        Some(r) => seq![r],
        None => Seq::empty(),
    }
}

/// The full effect of one incoming sample: one examination, and a
/// second one of the same sample under the new state when the first
/// detected an edge.
pub open spec fn step_core(m: Model, x: i64) -> Model {
    if visit_stays(m, x) {
        visit_core(m, x)
    } else {
        visit_core(visit_core(m, x), x)
    }
}

/// The rows emitted while one incoming sample is processed.
pub open spec fn step_rows(m: Model, x: i64) -> Seq<RowModel> {
    if visit_stays(m, x) {
        opt_row_seq(visit_emit(m, x))
    } else {
        opt_row_seq(visit_emit(m, x)) + opt_row_seq(visit_emit(visit_core(m, x), x))
    }
}

/// The decoder state after observing a whole sample sequence.
pub open spec fn run_core(m: Model, s: Seq<i64>) -> Model
    decreases s.len(),
{
    if s.len() == 0 {
        m
    } else {
        run_core(step_core(m, s[0]), s.drop_first())
    }
}

/// The rows emitted while observing a whole sample sequence.
pub open spec fn run_rows(m: Model, s: Seq<i64>) -> Seq<RowModel>
    decreases s.len(),
{
    if s.len() == 0 {
        Seq::empty()
    } else {
        step_rows(m, s[0]) + run_rows(step_core(m, s[0]), s.drop_first())
    }
}

/// Observing one more sample extends a run by one step.
pub proof fn lemma_run_push(m: Model, s: Seq<i64>, x: i64)
    ensures
        run_core(m, s.push(x)) == step_core(run_core(m, s), x),
        run_rows(m, s.push(x)) =~= run_rows(m, s) + step_rows(run_core(m, s), x),
    decreases s.len(),
{
    if s.len() == 0 {
        assert(s.push(x).drop_first() =~= Seq::<i64>::empty());
        assert(s.push(x)[0] == x);
        assert(run_core(m, s.push(x)) == run_core(step_core(m, x), Seq::<i64>::empty()));
        assert(run_core(step_core(m, x), Seq::<i64>::empty()) == step_core(m, x));
        assert(run_core(m, s) == m);
        assert(run_rows(m, s.push(x)) == step_rows(m, x) + run_rows(
            step_core(m, x),
            Seq::<i64>::empty(),
        ));
        assert(run_rows(step_core(m, x), Seq::<i64>::empty()) == Seq::<RowModel>::empty());
        assert(run_rows(m, s) == Seq::<RowModel>::empty());
        assert(run_rows(m, s.push(x)) =~= step_rows(m, x));
        assert(run_rows(m, s) + step_rows(run_core(m, s), x) =~= step_rows(m, x));
    } else {
        let h = s[0];
        let t = s.drop_first();
        let m1 = step_core(m, h);
        assert(s.push(x)[0] == h);
        assert(s.push(x).drop_first() =~= t.push(x));
        lemma_run_push(m1, t, x);
        assert(run_core(m, s.push(x)) == run_core(m1, t.push(x)));
        assert(run_core(m, s) == run_core(m1, t));
        assert(run_rows(m, s.push(x)) == step_rows(m, h) + run_rows(m1, t.push(x)));
        assert(run_rows(m1, t.push(x)) =~= run_rows(m1, t) + step_rows(run_core(m1, t), x));
        assert(step_rows(m, h) + (run_rows(m1, t) + step_rows(run_core(m1, t), x)) =~= (step_rows(
            m,
            h,
        ) + run_rows(m1, t)) + step_rows(run_core(m1, t), x));
        assert(run_rows(m, s) == step_rows(m, h) + run_rows(m1, t));
        assert(run_rows(m, s.push(x)) =~= run_rows(m, s) + step_rows(run_core(m, s), x));
    }
}

/// Law: observation composes — feeding a stream in two parts leaves
/// the tracker exactly where feeding it whole would, and emits the
/// same rows in the same order. Every sample acts exactly once, at
/// its position in the stream, however the intake batches it.
pub proof fn lemma_run_append(m: Model, a: Seq<i64>, b: Seq<i64>)
    ensures
        run_core(m, a + b) == run_core(run_core(m, a), b),
        run_rows(m, a + b) =~= run_rows(m, a) + run_rows(run_core(m, a), b),
    decreases a.len(),
{
    if a.len() == 0 {
        assert(a + b =~= b);
        assert(run_core(m, a) == m);
        assert(run_rows(m, a) == Seq::<RowModel>::empty());
        assert(run_rows(m, a) + run_rows(m, b) =~= run_rows(m, b));
    } else {
        let h = a[0];
        let t = a.drop_first();
        let m1 = step_core(m, h);
        assert((a + b)[0] == h);
        assert((a + b).drop_first() =~= t + b);
        lemma_run_append(m1, t, b);
        assert(run_core(m, a + b) == run_core(m1, t + b));
        assert(run_core(m, a) == run_core(m1, t));
        assert(run_rows(m, a + b) == step_rows(m, h) + run_rows(m1, t + b));
        assert(run_rows(m1, t + b) =~= run_rows(m1, t) + run_rows(run_core(m1, t), b));
        assert(step_rows(m, h) + (run_rows(m1, t) + run_rows(run_core(m1, t), b)) =~= (step_rows(
            m,
            h,
        ) + run_rows(m1, t)) + run_rows(run_core(m1, t), b));
        assert(run_rows(m, a) == step_rows(m, h) + run_rows(m1, t));
    }
}

/// After an edge, re-examining the sample that caused it never causes
/// a second edge: the thresholds bracket each other.
pub proof fn lemma_second_visit_stays(m: Model, x: i64)
    requires
        !visit_stays(m, x),
    ensures
        visit_stays(visit_core(m, x), x),
{
}

/// Law: every sample is counted exactly once — a non-edge examination
/// advances `since_edge` by exactly one (below the counter's
/// saturation point), and an edge examination resets it to zero.
pub proof fn lemma_since_edge_step(m: Model, x: i64)
    ensures
        visit_stays(m, x) && m.since_edge < usize::MAX as int ==> visit_core(m, x).since_edge
            == m.since_edge + 1,
        !visit_stays(m, x) ==> visit_core(m, x).since_edge == 0,
{
}

/// Law: hysteresis — the sync flag flips exactly when a sample crosses
/// the threshold appropriate to the current state, and the re-examined
/// edge sample never flips it back.
pub proof fn lemma_hysteresis_step(m: Model, x: i64)
    ensures
        (visit_core(m, x).in_sync_pulse != m.in_sync_pulse) <==> (if m.in_sync_pulse {
            x as int >= SYNC_HIGH_THRESHOLD as int
        } else {
            x as int <= SYNC_LOW_THRESHOLD as int
        }),
        step_core(m, x).in_sync_pulse == visit_core(m, x).in_sync_pulse,
{
    if !visit_stays(m, x) {
        lemma_second_visit_stays(m, x);
    }
}

/// Law: the raster index is reset at a vertical-short pulse to exactly
/// `-V_BLANKING_LINES` (odd field) or `-V_BLANKING_LINES - 1` (even
/// field), and advances by exactly two per horizontal pulse while the
/// index is in range.
pub proof fn lemma_scanline_index_step(m: Model)
    requires
        m.last_field != Field::Unknown,
        m.last_sync != SyncPulse::Unknown,
    ensures
        m.last_sync == SyncPulse::VerticalShort && m.last_field == Field::Odd ==> draw_index(m)
            == -(V_BLANKING_LINES as int),
        m.last_sync == SyncPulse::VerticalShort && m.last_field == Field::Even ==> draw_index(m)
            == -(V_BLANKING_LINES as int) - 1,
        m.last_sync == SyncPulse::Horizontal && m.scanline_index <= i32::MAX - 2 ==> draw_index(
            m,
        ) == m.scanline_index + 2,
        m.last_sync == SyncPulse::VerticalBroad ==> draw_index(m) == m.scanline_index,
{
}

/// A vector of `n` zero samples.
fn zeros(n: usize) -> (r: Vec<i64>)
    ensures
        r@.len() == n,
        forall|i: int| 0 <= i < n ==> r@[i] == 0i64,
{
    let mut r: Vec<i64> = Vec::new();
    let mut k: usize = 0;
    while k < n
        invariant
            k <= n,
            r@.len() == k,
            forall|i: int| 0 <= i < k ==> r@[i] == 0i64,
        decreases n - k,
    {
        r.push(0);
        k = k + 1;
    }
    r
}

/// Convert Y/I/Q to R/G/B with the fixed coefficient matrix.
pub fn yiq_to_rgb(y: i64, i: i64, q: i64) -> (rgb: (i64, i64, i64))
    requires
        -YIQ_ABS_MAX <= y <= YIQ_ABS_MAX,
        -YIQ_ABS_MAX <= i <= YIQ_ABS_MAX,
        -YIQ_ABS_MAX <= q <= YIQ_ABS_MAX,
    ensures
        rgb.0 as int == spec_yiq_to_rgb(y as int, i as int, q as int).0,
        rgb.1 as int == spec_yiq_to_rgb(y as int, i as int, q as int).1,
        rgb.2 as int == spec_yiq_to_rgb(y as int, i as int, q as int).2,
        -RGB_ABS_MAX <= rgb.0 <= RGB_ABS_MAX,
        -RGB_ABS_MAX <= rgb.1 <= RGB_ABS_MAX,
        -RGB_ABS_MAX <= rgb.2 <= RGB_ABS_MAX,
{
    proof {
        let u = UNIT as int;
        lemma_tdiv_bound(956_000 * (i as int) + 621_000 * (q as int), u, 4_731_000_000_000_000_000);
        lemma_tdiv_bound(
            -272_000 * (i as int) - 647_000 * (q as int),
            u,
            2_757_000_000_000_000_000,
        );
        lemma_tdiv_bound(
            -1_106_000 * (i as int) + 1_703_000 * (q as int),
            u,
            8_427_000_000_000_000_000,
        );
    }
    let r = y + idiv(956_000 * i + 621_000 * q, UNIT);
    let g = y + idiv(-272_000 * i - 647_000 * q, UNIT);
    let b = y + idiv(-1_106_000 * i + 1_703_000 * q, UNIT);
    (r, g, b)
}

/// Clamp a channel below at zero and saturate the 8-bit conversion.
fn to_byte(c: i64) -> (r: u8)
    requires
        -RGB_ABS_MAX <= c <= RGB_ABS_MAX,
    ensures
        r == spec_to_byte(c as int),
{
    let c0: u64 = if c < 0 {
        0
    } else {
        c as u64
    };
    let v: u64 = 255 * c0 / UNIT;
    proof {
        lemma_div_pos_is_pos(255 * (c0 as int), UNIT as int);
    }
    if v > 255 {
        255
    } else {
        v as u8
    }
}

/// The streaming composite decoder: sample intake, sync tracker, line
/// capture, demodulator and raster emitter, in one state machine.
pub struct CompositeDecode {
    /// Staging buffer of the sample intake.
    pub input_buffer: Vec<i64>,
    /// Fill level of the staging buffer.
    pub input_index: usize,
    /// Hysteresis state: tracking a low (sync) excursion.
    pub in_sync_pulse: bool,
    /// Samples since the last detected edge.
    pub since_edge: usize,
    /// Duration in samples of the most recent completed run.
    pub last_flat_samples: usize,
    /// Most recently classified pulse.
    pub last_sync: SyncPulse,
    /// Current field parity.
    pub last_field: Field,
    /// Capture buffer for the active window of one line.
    pub cur_scanline: Vec<i64>,
    /// Destination row index on the display; negative during blanking.
    pub cur_scanline_index: i32,
    /// Precomputed luma/chroma low-pass kernel.
    pub fir_luma: Vec<i64>,
    /// Precomputed subcarrier cosine reference.
    pub cos_wave: Vec<i64>,
    /// Precomputed subcarrier sine reference.
    pub sin_wave: Vec<i64>,
    /// Every sample the tracker has observed, in order.
    pub observed: Ghost<Seq<i64>>,
}

impl CompositeDecode {
    /// Structural well-formedness: buffer sizes, amplitude bounds, and
    /// the precomputed tables pinned to their defining formulas.
    pub open spec fn wf(self) -> bool {
        &&& self.input_buffer@.len() == BUF_SZ
        &&& self.input_index <= BUF_SZ
        &&& all_abs_le(self.input_buffer@, SAMPLE_ABS_MAX as int)
        &&& self.cur_scanline@.len() == SCANLINE_SAMPLES
        &&& all_abs_le(self.cur_scanline@, SAMPLE_ABS_MAX as int)
        &&& self.fir_luma@.len() == FIR_LUMA_LEN - 1
        &&& forall|i: int|
            0 <= i < self.fir_luma@.len() ==> #[trigger] self.fir_luma@[i] as int
                == spec_luma_coef(i + 1)
        &&& all_abs_le(self.fir_luma@, KERNEL_ABS_MAX as int)
        &&& self.cos_wave@.len() == SCANLINE_SAMPLES
        &&& forall|n: int|
            0 <= n < self.cos_wave@.len() ==> #[trigger] self.cos_wave@[n] as int == spec_osc_cos(
                n,
            )
        &&& all_abs_le(self.cos_wave@, UNIT as int)
        &&& self.sin_wave@.len() == SCANLINE_SAMPLES
        &&& forall|n: int|
            0 <= n < self.sin_wave@.len() ==> #[trigger] self.sin_wave@[n] as int == spec_osc_sin(
                n,
            )
        &&& all_abs_le(self.sin_wave@, UNIT as int)
    }

    /// The tracker state this decoder holds, as a [`Model`].
    pub open spec fn model(self) -> Model {
        Model {
            in_sync_pulse: self.in_sync_pulse,
            since_edge: self.since_edge as int,
            last_flat: self.last_flat_samples as int,
            last_sync: self.last_sync,
            last_field: self.last_field,
            scanline: self.cur_scanline@,
            scanline_index: self.cur_scanline_index as int,
        }
    }

    /// The decoder's state equals a model.
    pub open spec fn models(self, m: Model) -> bool {
        self.model() =~= m
    }

    /// The samples staged in the intake buffer, in arrival order.
    pub open spec fn staged(self) -> Seq<i64> {
        self.input_buffer@.take(self.input_index as int)
    }

    /// The intake state and observation history are unchanged.
    pub open spec fn stable_io(self, other: Self) -> bool {
        &&& self.input_buffer@ =~= other.input_buffer@
        &&& self.input_index == other.input_index
        &&& self.observed@ =~= other.observed@
    }

    /// Create a decoder with empty staging, unknown framing, and the
    /// FIR kernel and oscillator references computed once.
    pub fn new() -> (d: CompositeDecode)
        ensures
            d.wf(),
            d.models(initial_model()),
            d.input_index == 0,
            d.observed@ =~= Seq::<i64>::empty(),
    {
        let fir_luma = fir_design(
            FilterType::LowPass(freq2cut(3_000_000)),
            WindowType::Hamming,
            FIR_LUMA_LEN,
        );
        let mut cos_wave: Vec<i64> = Vec::new();
        let mut sin_wave: Vec<i64> = Vec::new();
        let mut n: usize = 0;
        while n < SCANLINE_SAMPLES
            invariant
                n <= SCANLINE_SAMPLES,
                cos_wave@.len() == n,
                sin_wave@.len() == n,
                forall|i: int|
                    0 <= i < n ==> #[trigger] cos_wave@[i] as int == spec_osc_cos(i),
                forall|i: int|
                    0 <= i < n ==> #[trigger] sin_wave@[i] as int == spec_osc_sin(i),
                all_abs_le(cos_wave@, UNIT as int),
                all_abs_le(sin_wave@, UNIT as int),
            decreases SCANLINE_SAMPLES - n,
        {
            let num: u64 = (n as u64) * BURST_PHASE_NUM;
            cos_wave.push(cos_turns(num, BURST_PHASE_DEN));
            sin_wave.push(sin_turns(num, BURST_PHASE_DEN));
            n = n + 1;
        }
        let d = CompositeDecode {
            input_buffer: zeros(BUF_SZ),
            input_index: 0,
            in_sync_pulse: false,
            since_edge: 0,
            last_flat_samples: 0,
            last_sync: SyncPulse::Unknown,
            last_field: Field::Unknown,
            cur_scanline: zeros(SCANLINE_SAMPLES),
            cur_scanline_index: 0,
            fir_luma,
            cos_wave,
            sin_wave,
            observed: Ghost(Seq::empty()),
        };
        proof {
            assert(d.model().scanline =~= initial_model().scanline);
        }
        d
    }

    /// The stored kernel is exactly the designed luma kernel.
    proof fn lemma_kernel_pinned(self)
        requires
            self.wf(),
        ensures
            self.fir_luma@ == spec_luma_kernel(),
    {
        assert forall|i: int| 0 <= i < self.fir_luma@.len() implies #[trigger] self.fir_luma@[i]
            == spec_luma_kernel()[i] by {
            crate::dsp::lemma_fir_coef_bound(
                FilterType::LowPass(300_000),
                WindowType::Hamming,
                FIR_LUMA_LEN as int,
                i + 1,
            );
        }
        assert(self.fir_luma@ =~= spec_luma_kernel());
    }

    /// Demodulate the captured scanline: low-pass the luma, multiply
    /// by the oscillator references, low-pass the I/Q products, and
    /// apply the burst-phase correction. Returns `(luma, i_real,
    /// q_real)` over the whole capture window.
    pub fn demodulate(&self) -> (r: (Vec<i64>, Vec<i64>, Vec<i64>))
        requires
            self.wf(),
        ensures
            r.0@.len() == SCANLINE_SAMPLES,
            r.1@.len() == SCANLINE_SAMPLES,
            r.2@.len() == SCANLINE_SAMPLES,
            forall|n: int|
                0 <= n < SCANLINE_SAMPLES ==> #[trigger] r.0@[n] as int == spec_luma_at(
                    self.cur_scanline@,
                    n,
                ),
            forall|n: int|
                0 <= n < SCANLINE_SAMPLES ==> #[trigger] r.1@[n] as int == spec_i_real_at(
                    self.cur_scanline@,
                    n,
                ),
            forall|n: int|
                0 <= n < SCANLINE_SAMPLES ==> #[trigger] r.2@[n] as int == spec_q_real_at(
                    self.cur_scanline@,
                    n,
                ),
            all_abs_le(r.0@, LUMA_ABS_MAX as int),
            all_abs_le(r.1@, IQ_REAL_ABS_MAX as int),
            all_abs_le(r.2@, IQ_REAL_ABS_MAX as int),
    {
        let scan = &self.cur_scanline;
        proof {
            self.lemma_kernel_pinned();
            assert(all_abs_le(self.cur_scanline@, crate::dsp::SIG_ABS_MAX as int));
        }
        let mut luma = zeros(SCANLINE_SAMPLES);
        filter(scan, &self.fir_luma, &mut luma);
        proof {
            assert forall|n: int| 0 <= n < SCANLINE_SAMPLES implies #[trigger] luma@[n] as int
                == spec_luma_at(self.cur_scanline@, n) && -(LUMA_ABS_MAX as int) <= luma@[n] as int
                <= LUMA_ABS_MAX as int by {
                lemma_filtered_entry(self.cur_scanline@, luma@, n);
            }
        }
        let mut i_raw: Vec<i64> = Vec::new();
        let mut q_raw: Vec<i64> = Vec::new();
        let mut k: usize = 0;
        while k < SCANLINE_SAMPLES
            invariant
                self.wf(),
                k <= SCANLINE_SAMPLES,
                i_raw@.len() == k,
                q_raw@.len() == k,
                forall|n: int|
                    0 <= n < k ==> #[trigger] i_raw@[n] == spec_i_raw(self.cur_scanline@)[n],
                forall|n: int|
                    0 <= n < k ==> #[trigger] q_raw@[n] == spec_q_raw(self.cur_scanline@)[n],
                all_abs_le(i_raw@, SAMPLE_ABS_MAX as int),
                all_abs_le(q_raw@, SAMPLE_ABS_MAX as int),
            decreases SCANLINE_SAMPLES - k,
        {
            proof {
                lemma_abs_mul_le(
                    self.cos_wave@[k as int] as int,
                    self.cur_scanline@[k as int] as int,
                    UNIT as int,
                    SAMPLE_ABS_MAX as int,
                );
                lemma_abs_mul_le(
                    self.sin_wave@[k as int] as int,
                    self.cur_scanline@[k as int] as int,
                    UNIT as int,
                    SAMPLE_ABS_MAX as int,
                );
                lemma_tdiv_bound(
                    (self.cos_wave@[k as int] as int) * (self.cur_scanline@[k as int] as int),
                    UNIT as int,
                    (UNIT as int) * (SAMPLE_ABS_MAX as int),
                );
                lemma_tdiv_bound(
                    (self.sin_wave@[k as int] as int) * (self.cur_scanline@[k as int] as int),
                    UNIT as int,
                    (UNIT as int) * (SAMPLE_ABS_MAX as int),
                );
                assert((UNIT as int) * (SAMPLE_ABS_MAX as int) / (UNIT as int)
                    == SAMPLE_ABS_MAX as int) by (nonlinear_arith);
            }
            let iv = idiv(self.cos_wave[k] * self.cur_scanline[k], UNIT);
            let qv = idiv(self.sin_wave[k] * self.cur_scanline[k], UNIT);
            i_raw.push(iv);
            q_raw.push(qv);
            k = k + 1;
        }
        proof {
            assert(i_raw@ =~= spec_i_raw(self.cur_scanline@));
            assert(q_raw@ =~= spec_q_raw(self.cur_scanline@));
            assert(all_abs_le(i_raw@, crate::dsp::SIG_ABS_MAX as int));
            assert(all_abs_le(q_raw@, crate::dsp::SIG_ABS_MAX as int));
        }
        let mut i_filtered = zeros(SCANLINE_SAMPLES);
        let mut q_filtered = zeros(SCANLINE_SAMPLES);
        filter(&i_raw, &self.fir_luma, &mut i_filtered);
        filter(&q_raw, &self.fir_luma, &mut q_filtered);
        proof {
            assert forall|n: int|
                0 <= n < SCANLINE_SAMPLES implies #[trigger] i_filtered@[n] as int
                == spec_i_filtered_at(self.cur_scanline@, n) && -(LUMA_ABS_MAX as int)
                <= i_filtered@[n] as int <= LUMA_ABS_MAX as int by {
                lemma_filtered_entry(i_raw@, i_filtered@, n);
            }
            assert forall|n: int|
                0 <= n < SCANLINE_SAMPLES implies #[trigger] q_filtered@[n] as int
                == spec_q_filtered_at(self.cur_scanline@, n) && -(LUMA_ABS_MAX as int)
                <= q_filtered@[n] as int <= LUMA_ABS_MAX as int by {
                lemma_filtered_entry(q_raw@, q_filtered@, n);
            }
        }
        let i_burst = i_filtered[SCANLINE_BURST_N];
        let q_burst = q_filtered[SCANLINE_BURST_N];
        let mut i_real: Vec<i64> = Vec::new();
        let mut q_real: Vec<i64> = Vec::new();
        let mut k2: usize = 0;
        while k2 < SCANLINE_SAMPLES
            invariant
                self.wf(),
                k2 <= SCANLINE_SAMPLES,
                i_real@.len() == k2,
                q_real@.len() == k2,
                i_filtered@.len() == SCANLINE_SAMPLES,
                q_filtered@.len() == SCANLINE_SAMPLES,
                i_burst == i_filtered@[SCANLINE_BURST_N as int],
                q_burst == q_filtered@[SCANLINE_BURST_N as int],
                forall|n: int|
                    0 <= n < SCANLINE_SAMPLES ==> #[trigger] i_filtered@[n] as int
                        == spec_i_filtered_at(self.cur_scanline@, n),
                forall|n: int|
                    0 <= n < SCANLINE_SAMPLES ==> #[trigger] q_filtered@[n] as int
                        == spec_q_filtered_at(self.cur_scanline@, n),
                all_abs_le(i_filtered@, LUMA_ABS_MAX as int),
                all_abs_le(q_filtered@, LUMA_ABS_MAX as int),
                forall|n: int|
                    0 <= n < k2 ==> #[trigger] i_real@[n] as int == spec_i_real_at(
                        self.cur_scanline@,
                        n,
                    ),
                forall|n: int|
                    0 <= n < k2 ==> #[trigger] q_real@[n] as int == spec_q_real_at(
                        self.cur_scanline@,
                        n,
                    ),
                all_abs_le(i_real@, IQ_REAL_ABS_MAX as int),
                all_abs_le(q_real@, IQ_REAL_ABS_MAX as int),
            decreases SCANLINE_SAMPLES - k2,
        {
            proof {
                lemma_abs_mul_le(
                    i_burst as int,
                    i_filtered@[k2 as int] as int,
                    LUMA_ABS_MAX as int,
                    LUMA_ABS_MAX as int,
                );
                lemma_abs_mul_le(
                    q_burst as int,
                    q_filtered@[k2 as int] as int,
                    LUMA_ABS_MAX as int,
                    LUMA_ABS_MAX as int,
                );
                lemma_abs_mul_le(
                    i_burst as int,
                    q_filtered@[k2 as int] as int,
                    LUMA_ABS_MAX as int,
                    LUMA_ABS_MAX as int,
                );
                lemma_abs_mul_le(
                    q_burst as int,
                    i_filtered@[k2 as int] as int,
                    LUMA_ABS_MAX as int,
                    LUMA_ABS_MAX as int,
                );
                lemma_tdiv_bound(
                    (i_burst as int) * (i_filtered@[k2 as int] as int) + (q_burst as int) * (
                    q_filtered@[k2 as int] as int),
                    UNIT as int,
                    28_800_000_000_000_000,
                );
                lemma_tdiv_bound(
                    (i_burst as int) * (q_filtered@[k2 as int] as int) - (q_burst as int) * (
                    i_filtered@[k2 as int] as int),
                    UNIT as int,
                    28_800_000_000_000_000,
                );
            }
            let vi = idiv(i_burst * i_filtered[k2] + q_burst * q_filtered[k2], UNIT);
            let vq = idiv(i_burst * q_filtered[k2] - q_burst * i_filtered[k2], UNIT);
            i_real.push(vi);
            q_real.push(vq);
            k2 = k2 + 1;
        }
        (luma, i_real, q_real)
    }
}

/// An output entry of [`filter`] applied with the luma kernel to a
/// signal bounded by the sample ceiling equals the corresponding
/// `spec_conv`-based value and stays within [`LUMA_ABS_MAX`].
proof fn lemma_filtered_entry(s: Seq<i64>, out: Seq<i64>, n: int)
    requires
        s.len() == SCANLINE_SAMPLES,
        out.len() == SCANLINE_SAMPLES,
        all_abs_le(s, SAMPLE_ABS_MAX as int),
        0 <= n < SCANLINE_SAMPLES,
        n < spec_luma_kernel().len() ==> out[n] == 0,
        n >= spec_luma_kernel().len() ==> out[n] as int == tdiv(
            spec_conv(s, spec_luma_kernel(), n),
            UNIT as int,
        ),
    ensures
        n < spec_luma_kernel().len() ==> out[n] == 0,
        n >= spec_luma_kernel().len() ==> out[n] as int == tdiv(
            spec_conv(s, spec_luma_kernel(), n),
            UNIT as int,
        ),
        -(LUMA_ABS_MAX as int) <= out[n] as int <= LUMA_ABS_MAX as int,
{
    let k = spec_luma_kernel();
    assert forall|i: int| 0 <= i < k.len() implies -(KERNEL_ABS_MAX as int) <= #[trigger] k[i]
        <= KERNEL_ABS_MAX as int by {
        crate::dsp::lemma_fir_coef_bound(
            FilterType::LowPass(300_000),
            WindowType::Hamming,
            FIR_LUMA_LEN as int,
            i + 1,
        );
    }
    if n >= k.len() {
        crate::dsp::lemma_conv_partial_bound(
            s,
            k,
            n,
            k.len() as int,
            SAMPLE_ABS_MAX as int,
            KERNEL_ABS_MAX as int,
        );
        lemma_tdiv_bound(spec_conv(s, k, n), UNIT as int, 120_000_000_000_000);
    }
}

/// A returned row corresponds to an emitted model row.
pub open spec fn row_opt_matches(row: Option<RenderedLine>, e: Option<RowModel>) -> bool {
    match (row, e) {
        (Some(rl), Some(rm)) => rl.y as int == rm.y && rl.pixels@ =~= rm.pixels,
        (None, None) => true,
        _ => false,
    }
}

/// A vector of returned rows corresponds, row for row, to a sequence
/// of emitted model rows.
pub open spec fn rows_match(rows: Seq<RenderedLine>, ms: Seq<RowModel>) -> bool {
    &&& rows.len() == ms.len()
    &&& forall|i: int|
        0 <= i < rows.len() ==> ((#[trigger] rows[i]).y as int == ms[i].y && rows[i].pixels@
            =~= ms[i].pixels)
}

impl CompositeDecode {
    /// The raster emitter. Called at each low-to-high edge, before the
    /// just-ended pulse is classified, so it sees the previous pulse's
    /// classification. Resets the raster index at a vertical-short
    /// pulse, renders and advances past a horizontal pulse, and drops
    /// everything until framing is acquired.
    pub fn draw_scanline(&mut self) -> (row: Option<RenderedLine>)
        requires
            old(self).wf(),
        ensures
            final(self).wf(),
            final(self).stable_io(*old(self)),
            final(self).models(
                Model { scanline_index: draw_index(old(self).model()), ..old(self).model() },
            ),
            row_opt_matches(row, draw_emits(old(self).model())),
    {
        if self.last_field == Field::Unknown || self.last_sync == SyncPulse::Unknown {
            return None;
        }
        if self.last_sync == SyncPulse::VerticalShort {
            self.cur_scanline_index = match self.last_field {
                Field::Even => -V_BLANKING_LINES - 1,
                Field::Odd => -V_BLANKING_LINES,
                Field::Unknown => 0,
            };
            return None;
        }
        let mut row: Option<RenderedLine> = None;
        if self.last_sync == SyncPulse::Horizontal && self.cur_scanline_index >= 0
            && self.cur_scanline_index < SCREEN_HEIGHT as i32 {
            let (luma, i_real, q_real) = self.demodulate();
            let mut pixels: Vec<Rgb> = Vec::new();
            let mut x: usize = 0;
            while x < SCREEN_WIDTH
                invariant
                    self.wf(),
                    x <= SCREEN_WIDTH,
                    pixels@.len() == x,
                    luma@.len() == SCANLINE_SAMPLES,
                    i_real@.len() == SCANLINE_SAMPLES,
                    q_real@.len() == SCANLINE_SAMPLES,
                    forall|n: int|
                        0 <= n < SCANLINE_SAMPLES ==> #[trigger] luma@[n] as int == spec_luma_at(
                            self.cur_scanline@,
                            n,
                        ),
                    forall|n: int|
                        0 <= n < SCANLINE_SAMPLES ==> #[trigger] i_real@[n] as int
                            == spec_i_real_at(self.cur_scanline@, n),
                    forall|n: int|
                        0 <= n < SCANLINE_SAMPLES ==> #[trigger] q_real@[n] as int
                            == spec_q_real_at(self.cur_scanline@, n),
                    all_abs_le(luma@, LUMA_ABS_MAX as int),
                    all_abs_le(i_real@, IQ_REAL_ABS_MAX as int),
                    all_abs_le(q_real@, IQ_REAL_ABS_MAX as int),
                    forall|j: int|
                        0 <= j < x ==> #[trigger] pixels@[j] == spec_pixel(self.cur_scanline@, j),
                decreases SCREEN_WIDTH - x,
            {
                proof {
                    lemma_div_pos_is_pos(x as int * SCANLINE_VID_SAMPLES as int, SCREEN_WIDTH as int);
                    lemma_div_is_ordered(
                        x as int * SCANLINE_VID_SAMPLES as int,
                        799 * SCANLINE_VID_SAMPLES as int,
                        SCREEN_WIDTH as int,
                    );
                }
                let xc = SCANLINE_VID_START_N + x * SCANLINE_VID_SAMPLES / SCREEN_WIDTH;
                let y = luma[xc] - LUMA_PEDESTAL;
                let pi = CHROMA_GAIN * i_real[xc];
                let pq = CHROMA_GAIN * q_real[xc];
                let rgb = yiq_to_rgb(y, pi, pq);
                let px = Rgb { r: to_byte(rgb.0), g: to_byte(rgb.1), b: to_byte(rgb.2) };
                proof {
                    assert(px == spec_pixel(self.cur_scanline@, x as int));
                }
                pixels.push(px);
                x = x + 1;
            }
            proof {
                assert(pixels@ =~= spec_render_row(self.cur_scanline@));
            }
            row = Some(RenderedLine { y: self.cur_scanline_index, pixels });
        }
        if self.last_sync == SyncPulse::Horizontal {
            self.cur_scanline_index = if self.cur_scanline_index <= i32::MAX - 2 {
                self.cur_scanline_index + 2
            } else {
                self.cur_scanline_index
            };
        }
        row
    }

    /// One examination of a sample by the edge-detector: count it,
    /// capture it into the scanline when relevant, and on an edge run
    /// the emitter, classify the ended pulse, and reset the counter.
    /// Returns whether an edge fired, and the emitted row if one was.
    fn observe_sample(&mut self, x: i64) -> (r: (bool, Option<RenderedLine>))
        requires
            old(self).wf(),
            -SAMPLE_ABS_MAX <= x <= SAMPLE_ABS_MAX,
        ensures
            final(self).wf(),
            final(self).stable_io(*old(self)),
            final(self).models(visit_core(old(self).model(), x)),
            r.0 == !visit_stays(old(self).model(), x),
            row_opt_matches(r.1, visit_emit(old(self).model(), x)),
    {
        let se = if self.since_edge < usize::MAX {
            self.since_edge + 1
        } else {
            self.since_edge
        };
        self.since_edge = se;
        if !self.in_sync_pulse && self.last_sync == SyncPulse::Horizontal && se > SCANLINE_START_N
            && se < SCANLINE_END_N {
            self.cur_scanline.set(se - SCANLINE_START_N, x);
        }
        let stays = if self.in_sync_pulse {
            x < SYNC_HIGH_THRESHOLD
        } else {
            x > SYNC_LOW_THRESHOLD
        };
        if stays {
            proof {
                assert(self.model() =~= visit_core(old(self).model(), x));
            }
            (false, None)
        } else {
            self.in_sync_pulse = !self.in_sync_pulse;
            let mut row: Option<RenderedLine> = None;
            if !self.in_sync_pulse {
                row = self.draw_scanline();
                if se > H_SYNC_PULSE_SAMPLES - SYNC_LEN_DELTA_SAMPLES && se < H_SYNC_PULSE_SAMPLES
                    + SYNC_LEN_DELTA_SAMPLES {
                    self.last_sync = SyncPulse::Horizontal;
                } else if se > V_SHORT_SYNC_PULSE_SAMPLES - SYNC_LEN_DELTA_SAMPLES && se
                    < V_SHORT_SYNC_PULSE_SAMPLES + SYNC_LEN_DELTA_SAMPLES {
                    self.last_sync = SyncPulse::VerticalShort;
                    if self.last_flat_samples > ODD_FRAME_HI_SAMPLES - SYNC_LEN_DELTA_SAMPLES
                        && self.last_flat_samples < ODD_FRAME_HI_SAMPLES
                        + SYNC_LEN_DELTA_SAMPLES {
                        self.last_field = Field::Odd;
                    } else if self.last_flat_samples > EVEN_FRAME_HI_SAMPLES
                        - SYNC_LEN_DELTA_SAMPLES && self.last_flat_samples < EVEN_FRAME_HI_SAMPLES
                        + SYNC_LEN_DELTA_SAMPLES {
                        self.last_field = Field::Even;
                    }
                } else if se > V_BROAD_GAP_SAMPLES - SYNC_LEN_DELTA_SAMPLES && se
                    < V_BROAD_GAP_SAMPLES + SYNC_LEN_DELTA_SAMPLES {
                    self.last_sync = SyncPulse::VerticalBroad;
                }
            }
            self.since_edge = 0;
            self.last_flat_samples = se;
            proof {
                assert(self.model() =~= visit_core(old(self).model(), x));
            }
            (true, row)
        }
    }

    /// The sync tracker: an explicit edge-detecting loop with
    /// hysteresis over a batch of samples. The sample that breaks a
    /// run triggers the transition and is then re-examined as the
    /// first sample of the new run. Returns every row rendered while
    /// the batch was processed.
    pub fn process(&mut self, buf: &Vec<i64>) -> (rows: Vec<RenderedLine>)
        requires
            old(self).wf(),
            all_abs_le(buf@, SAMPLE_ABS_MAX as int),
        ensures
            final(self).wf(),
            final(self).input_buffer@ =~= old(self).input_buffer@,
            final(self).input_index == old(self).input_index,
            final(self).models(run_core(old(self).model(), buf@)),
            final(self).observed@ =~= old(self).observed@ + buf@,
            rows_match(rows@, run_rows(old(self).model(), buf@)),
    {
        let ghost pre = *self;
        let mut rows: Vec<RenderedLine> = Vec::new();
        let mut pos: usize = 0;
        while pos < buf.len()
            invariant
                self.wf(),
                all_abs_le(buf@, SAMPLE_ABS_MAX as int),
                pos <= buf@.len(),
                self.input_buffer@ =~= pre.input_buffer@,
                self.input_index == pre.input_index,
                self.observed@ =~= pre.observed@,
                self.models(run_core(pre.model(), buf@.take(pos as int))),
                rows_match(rows@, run_rows(pre.model(), buf@.take(pos as int))),
            decreases buf@.len() - pos,
        {
            let ghost mcur = run_core(pre.model(), buf@.take(pos as int));
            let ghost rows_pre = rows@;
            proof {
                assert(self.model() =~= mcur);
            }
            let x = buf[pos];
            let (edge, row1) = self.observe_sample(x);
            match row1 {
                Some(rl) => rows.push(rl),
                None => {},
            }
            if edge {
                let (edge2, row2) = self.observe_sample(x);
                proof {
                    lemma_second_visit_stays(mcur, x);
                    assert(!edge2);
                    assert(row2 is None);
                }
            }
            proof {
                let xs = buf@[pos as int];
                assert(step_rows(mcur, xs) =~= opt_row_seq(visit_emit(mcur, xs)));
                assert(buf@.take(pos as int + 1) =~= buf@.take(pos as int).push(xs));
                lemma_run_push(pre.model(), buf@.take(pos as int), xs);
                assert(rows_match(
                    rows@,
                    run_rows(pre.model(), buf@.take(pos as int)) + step_rows(mcur, xs),
                ));
            }
            pos = pos + 1;
        }
        proof {
            assert(buf@.take(buf@.len() as int) =~= buf@);
        }
        self.observed = Ghost(self.observed@ + buf@);
        rows
    }

    /// The sample intake: append a chunk of samples to the staging
    /// buffer and, when it fills, run the tracker over the whole batch
    /// and carry the chunk's tail into the emptied buffer. No sample
    /// is dropped or reordered; each chunk must be shorter than the
    /// staging capacity.
    pub fn push_data(&mut self, values: &Vec<i64>) -> (rows: Vec<RenderedLine>)
        requires
            old(self).wf(),
            values@.len() < BUF_SZ,
            all_abs_le(values@, SAMPLE_ABS_MAX as int),
        ensures
            final(self).wf(),
            ({
                let stream = old(self).staged() + values@;
                let cut: int = if stream.len() >= BUF_SZ {
                    BUF_SZ as int
                } else {
                    0
                };
                &&& final(self).models(run_core(old(self).model(), stream.take(cut)))
                &&& final(self).observed@ =~= old(self).observed@ + stream.take(cut)
                &&& final(self).staged() =~= stream.skip(cut)
                &&& rows_match(rows@, run_rows(old(self).model(), stream.take(cut)))
            }),
    {
        let ghost pre = *self;
        let idx0 = self.input_index;
        let n_to_copy = if values.len() < BUF_SZ - idx0 {
            values.len()
        } else {
            BUF_SZ - idx0
        };
        let mut k: usize = 0;
        while k < n_to_copy
            invariant
                self.wf(),
                pre.wf(),
                idx0 == pre.input_index,
                self.input_index == idx0,
                n_to_copy <= values@.len(),
                idx0 + n_to_copy <= BUF_SZ,
                k <= n_to_copy,
                values@.len() < BUF_SZ,
                all_abs_le(values@, SAMPLE_ABS_MAX as int),
                self.models(pre.model()),
                self.observed@ =~= pre.observed@,
                self.input_buffer@.len() == BUF_SZ,
                forall|i: int|
                    0 <= i < idx0 ==> #[trigger] self.input_buffer@[i] == pre.input_buffer@[i],
                forall|i: int|
                    idx0 <= i < idx0 + k ==> #[trigger] self.input_buffer@[i] == values@[i - idx0],
            decreases n_to_copy - k,
        {
            self.input_buffer.set(idx0 + k, values[k]);
            k = k + 1;
        }
        self.input_index = idx0 + n_to_copy;
        let mut rows: Vec<RenderedLine> = Vec::new();
        let ghost stream = pre.staged() + values@;
        if self.input_index == BUF_SZ {
            let mut batch: Vec<i64> = Vec::new();
            let mut k2: usize = 0;
            while k2 < BUF_SZ
                invariant
                    self.wf(),
                    k2 <= BUF_SZ,
                    batch@.len() == k2,
                    self.input_buffer@.len() == BUF_SZ,
                    forall|i: int|
                        0 <= i < k2 ==> #[trigger] batch@[i] == self.input_buffer@[i],
                decreases BUF_SZ - k2,
            {
                batch.push(self.input_buffer[k2]);
                k2 = k2 + 1;
            }
            proof {
                assert(batch@ =~= self.input_buffer@);
                assert(batch@ =~= stream.take(BUF_SZ as int));
                assert(all_abs_le(batch@, SAMPLE_ABS_MAX as int));
            }
            rows = self.process(&batch);
            self.input_index = 0;
            if n_to_copy < values.len() {
                let n_left = values.len() - n_to_copy;
                let mut k3: usize = 0;
                while k3 < n_left
                    invariant
                        self.wf(),
                        k3 <= n_left,
                        n_to_copy + n_left == values@.len(),
                        values@.len() < BUF_SZ,
                        n_to_copy <= values@.len(),
                        n_left < BUF_SZ,
                        self.input_index == 0,
                        all_abs_le(values@, SAMPLE_ABS_MAX as int),
                        self.input_buffer@.len() == BUF_SZ,
                        forall|j: int|
                            0 <= j < k3 ==> #[trigger] self.input_buffer@[j] == values@[n_to_copy
                                + j],
                        self.models(run_core(pre.model(), stream.take(BUF_SZ as int))),
                        self.observed@ =~= pre.observed@ + stream.take(BUF_SZ as int),
                        rows_match(rows@, run_rows(pre.model(), stream.take(BUF_SZ as int))),
                    decreases n_left - k3,
                {
                    self.input_buffer.set(k3, values[n_to_copy + k3]);
                    k3 = k3 + 1;
                }
                self.input_index = n_left;
                proof {
                    assert(self.staged() =~= stream.skip(BUF_SZ as int));
                }
            } else {
                proof {
                    assert(self.staged() =~= stream.skip(BUF_SZ as int));
                }
            }
        } else {
            proof {
                assert(stream.take(0) =~= Seq::<i64>::empty());
                assert(run_core(pre.model(), Seq::<i64>::empty()) == pre.model());
                assert(run_rows(pre.model(), Seq::<i64>::empty()) == Seq::<RowModel>::empty());
                assert(self.staged() =~= stream);
                assert(self.observed@ =~= pre.observed@ + stream.take(0));
            }
        }
        rows
    }
}

/// Law: burst-phase correction at the burst centre. Rotating the
/// filtered I/Q vector by the conjugate of its own burst-centre sample
/// leaves the quadrature component exactly zero there and the in-phase
/// component nonnegative, whatever the scanline holds.
pub proof fn lemma_burst_phase_identity(scan: Seq<i64>)
    ensures
        spec_q_real_at(scan, SCANLINE_BURST_N as int) == 0,
        spec_i_real_at(scan, SCANLINE_BURST_N as int) >= 0,
{
    let u = UNIT as int;
    let ib = spec_i_filtered_at(scan, SCANLINE_BURST_N as int);
    let qb = spec_q_filtered_at(scan, SCANLINE_BURST_N as int);
    assert(ib * qb - qb * ib == 0) by (nonlinear_arith);
    assert(ib * ib + qb * qb >= 0) by (nonlinear_arith);
    assert(tdiv(0, u) == 0) by {
        vstd::arithmetic::div_mod::lemma_fundamental_div_mod_converse(0, u, 0, 0);
    }
    lemma_div_pos_is_pos(ib * ib + qb * qb, u);
}

/// Law: the classifier accepts a pulse only within the tolerance of
/// its canonical width — and always accepts one within it.
pub proof fn lemma_classified_width(cur: SyncPulse, len: int)
    ensures
        near(len, H_SYNC_PULSE_SAMPLES as int) ==> classify_sync(cur, len)
            == SyncPulse::Horizontal,
        near(len, V_SHORT_SYNC_PULSE_SAMPLES as int) ==> classify_sync(cur, len)
            == SyncPulse::VerticalShort,
        near(len, V_BROAD_GAP_SAMPLES as int) ==> classify_sync(cur, len)
            == SyncPulse::VerticalBroad,
        classify_sync(cur, len) != cur ==> {
            &&& classify_sync(cur, len) == SyncPulse::Horizontal ==> near(
                len,
                H_SYNC_PULSE_SAMPLES as int,
            )
            &&& classify_sync(cur, len) == SyncPulse::VerticalShort ==> near(
                len,
                V_SHORT_SYNC_PULSE_SAMPLES as int,
            )
            &&& classify_sync(cur, len) == SyncPulse::VerticalBroad ==> near(
                len,
                V_BROAD_GAP_SAMPLES as int,
            )
        },
{
}

} // verus!
