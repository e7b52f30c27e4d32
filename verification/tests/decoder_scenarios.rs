//! Scenario tests of the streaming decoder: hysteresis, pulse
//! classification, field phasing, burst-phase correction, and an
//! end-to-end fixture.

use composite_decode::decoder::yiq_to_rgb;
use composite_decode::decoder::CompositeDecode;
use composite_decode::decoder::Field;
use composite_decode::decoder::RenderedLine;
use composite_decode::decoder::SyncPulse;
use composite_decode::decoder::SCANLINE_BURST_N;

/// One amplitude unit of the nominal waveform, in fixed-point.
const U: i64 = 1_000_000;

fn milli(x: i64) -> i64 {
    // x thousandths of a unit.
    x * 1_000
}

#[test]
fn new_decoder_has_unknown_framing() {
    let d = CompositeDecode::new();
    assert_eq!(d.last_sync, SyncPulse::Unknown);
    assert_eq!(d.last_field, Field::Unknown);
    assert!(!d.in_sync_pulse);
    assert_eq!(d.since_edge, 0);
    assert_eq!(d.input_index, 0);
    assert_eq!(d.cur_scanline_index, 0);
    assert_eq!(d.fir_luma.len(), 20);
    assert_eq!(d.cur_scanline.len(), 1186);
}

#[test]
fn hysteresis_boundary_sequence() {
    // [0.5, 0.10, 0.08, 0.03, 0.06, 0.12] against T_LO = 0.035 and
    // T_HI = 0.105: one high-to-low transition at 0.03, one
    // low-to-high at 0.12.
    let mut d = CompositeDecode::new();
    d.process(&vec![milli(500), milli(100), milli(80), milli(30)]);
    assert!(d.in_sync_pulse, "0.03 crosses T_LO");
    // The edge sample is re-examined as the first of the low run.
    assert_eq!(d.since_edge, 1);
    assert_eq!(d.last_flat_samples, 4);
    d.process(&vec![milli(60), milli(120)]);
    assert!(!d.in_sync_pulse, "0.12 crosses T_HI");
    assert_eq!(d.since_edge, 1);
    // The 0.15 us low run matches no canonical width: no latch.
    assert_eq!(d.last_sync, SyncPulse::Unknown);
    assert_eq!(d.last_flat_samples, 3);
}

#[test]
fn no_edges_without_threshold_crossing() {
    let mut d = CompositeDecode::new();
    // All samples stay above T_LO: the high run just grows.
    d.process(&vec![milli(500), milli(100), milli(80), milli(40), milli(900)]);
    assert!(!d.in_sync_pulse);
    assert_eq!(d.since_edge, 5);
}

#[test]
fn horizontal_pulse_classification() {
    // 100 samples at 0.8, then 94 samples at 0.0 (4.7 us at 20 MHz),
    // then 200 samples at 0.8: exactly one classified pulse.
    let mut wave = vec![milli(800); 100];
    wave.extend(vec![0i64; 94]);
    wave.extend(vec![milli(800); 200]);
    let mut d = CompositeDecode::new();
    d.process(&wave);
    assert_eq!(d.last_sync, SyncPulse::Horizontal);
    assert_eq!(d.last_field, Field::Unknown);
}

#[test]
fn vertical_short_pulse_with_odd_field_prelude() {
    // 1187 samples at 0.8 (~59.35 us), then 47 at 0.0 (~2.35 us),
    // then high again.
    let mut wave = vec![milli(800); 1187];
    wave.extend(vec![0i64; 47]);
    wave.extend(vec![milli(800); 200]);
    let mut d = CompositeDecode::new();
    d.process(&wave);
    assert_eq!(d.last_sync, SyncPulse::VerticalShort);
    assert_eq!(d.last_field, Field::Odd);
    // The raster index resets when the emitter next runs: at the end
    // of the following low pulse.
    let mut tail = vec![0i64; 47];
    tail.extend(vec![milli(800); 10]);
    d.process(&tail);
    assert_eq!(d.cur_scanline_index, -25);
}

#[test]
fn vertical_broad_pulse_classification() {
    // A low run near 27.3 us (the broad pulse's complement within the
    // 32 us half line) classifies as VerticalBroad.
    let mut wave = vec![milli(800); 200];
    wave.extend(vec![0i64; 546]);
    wave.extend(vec![milli(800); 100]);
    let mut d = CompositeDecode::new();
    d.process(&wave);
    assert_eq!(d.last_sync, SyncPulse::VerticalBroad);
}

#[test]
fn vertical_short_pulse_with_even_field_prelude() {
    // A ~27.35 us high run before the vertical-short pulse marks the
    // even field; the raster index then resets to -26.
    let mut wave = vec![milli(800); 547];
    wave.extend(vec![0i64; 47]);
    wave.extend(vec![milli(800); 100]);
    let mut d = CompositeDecode::new();
    d.process(&wave);
    assert_eq!(d.last_sync, SyncPulse::VerticalShort);
    assert_eq!(d.last_field, Field::Even);
    let mut tail = vec![0i64; 47];
    tail.extend(vec![milli(800); 10]);
    d.process(&tail);
    assert_eq!(d.cur_scanline_index, -26);
}

#[test]
fn emitter_is_inert_before_framing() {
    let mut d = CompositeDecode::new();
    assert!(d.draw_scanline().is_none());
    assert_eq!(d.cur_scanline_index, 0);
    assert_eq!(d.last_sync, SyncPulse::Unknown);
}

fn first_rendered_row(field: Field) -> RenderedLine {
    let mut d = CompositeDecode::new();
    d.last_sync = SyncPulse::VerticalShort;
    d.last_field = field;
    // The emitter sees the vertical-short classification and resets.
    assert!(d.draw_scanline().is_none());
    d.last_sync = SyncPulse::Horizontal;
    for _ in 0..50 {
        if let Some(row) = d.draw_scanline() {
            return row;
        }
    }
    panic!("no row rendered");
}

#[test]
fn even_field_renders_even_rows_first() {
    // After an Even reset the index starts at -26 and advances by 2:
    // the first on-screen row is y = 0.
    let row = first_rendered_row(Field::Even);
    assert_eq!(row.y, 0);
}

#[test]
fn odd_field_renders_odd_rows_first() {
    // After an Odd reset the index starts at -25: first row y = 1.
    let row = first_rendered_row(Field::Odd);
    assert_eq!(row.y, 1);
}

#[test]
fn scanline_index_advances_by_two_per_horizontal_pulse() {
    let mut d = CompositeDecode::new();
    d.last_sync = SyncPulse::Horizontal;
    d.last_field = Field::Odd;
    d.cur_scanline_index = 10;
    d.draw_scanline();
    assert_eq!(d.cur_scanline_index, 12);
    d.draw_scanline();
    assert_eq!(d.cur_scanline_index, 14);
}

#[test]
fn burst_phase_correction_identity() {
    // With the scanline exactly the subcarrier cosine, the corrected
    // quadrature component vanishes at the burst centre and the
    // in-phase component is strictly positive.
    let mut d = CompositeDecode::new();
    d.cur_scanline = d.cos_wave.clone();
    let (_luma, i_real, q_real) = d.demodulate();
    assert_eq!(q_real[SCANLINE_BURST_N], 0);
    assert!(
        i_real[SCANLINE_BURST_N] > 0,
        "i_real at burst = {}",
        i_real[SCANLINE_BURST_N]
    );
}

#[test]
fn yiq_to_rgb_matches_matrix() {
    // Pure luma passes through unchanged on every channel.
    let (r, g, b) = yiq_to_rgb(400_000, 0, 0);
    assert_eq!((r, g, b), (400_000, 400_000, 400_000));
    // The documented coefficients, at one unit of I.
    let (r, g, b) = yiq_to_rgb(0, U, 0);
    assert_eq!((r, g, b), (956_000, -272_000, -1_106_000));
    let (r, g, b) = yiq_to_rgb(0, 0, U);
    assert_eq!((r, g, b), (621_000, -647_000, 1_703_000));
}

/// Invert the YIQ matrix (in floating point, which tests may use) and
/// check the round trip against the decoder's fixed-point forward
/// matrix within 1/255 of full scale.
#[test]
fn yiq_rgb_round_trip_eight_primaries() {
    let primaries: [(f64, f64, f64); 8] = [
        (0.0, 0.0, 0.0),
        (1.0, 0.0, 0.0),
        (0.0, 1.0, 0.0),
        (0.0, 0.0, 1.0),
        (1.0, 1.0, 0.0),
        (0.0, 1.0, 1.0),
        (1.0, 0.0, 1.0),
        (1.0, 1.0, 1.0),
    ];
    for &(r0, g0, b0) in primaries.iter() {
        // Inverse of the forward matrix used by the decoder.
        let y = 0.298936 * r0 + 0.587043 * g0 + 0.114021 * b0;
        let i = 0.595946 * r0 - 0.274389 * g0 - 0.321557 * b0;
        let q = 0.211497 * r0 - 0.522911 * g0 + 0.311413 * b0;
        let (r, g, b) = yiq_to_rgb(
            (y * U as f64).round() as i64,
            (i * U as f64).round() as i64,
            (q * U as f64).round() as i64,
        );
        let tol = U / 255 + 2_000;
        assert!(
            (r - (r0 * U as f64) as i64).abs() < tol,
            "r {} vs {}",
            r,
            r0
        );
        assert!(
            (g - (g0 * U as f64) as i64).abs() < tol,
            "g {} vs {}",
            g,
            g0
        );
        assert!(
            (b - (b0 * U as f64) as i64).abs() < tol,
            "b {} vs {}",
            b,
            b0
        );
    }
}

#[test]
fn intake_carries_partial_chunks_without_loss() {
    let mut d = CompositeDecode::new();
    // 1000 staged samples: nothing processed yet.
    d.push_data(&vec![milli(800); 1000]);
    assert_eq!(d.input_index, 1000);
    assert_eq!(d.since_edge, 0);
    // 100 more: the batch of 1024 is processed, 76 carried over.
    d.push_data(&vec![milli(800); 100]);
    assert_eq!(d.input_index, 76);
    assert_eq!(d.since_edge, 1024);
}

#[test]
fn empty_push_changes_nothing() {
    let mut d = CompositeDecode::new();
    let rows = d.push_data(&Vec::new());
    assert!(rows.is_empty());
    assert_eq!(d.input_index, 0);
    assert_eq!(d.since_edge, 0);
}

#[test]
fn end_to_end_gray_fixture() {
    // A framed synthetic waveform: an odd-field vertical-short pulse,
    // then lines whose active window is DC 0.5 and whose sync pulses
    // are 4.7 us of 0.0. Rendered pixels must come out near
    // 0.4 * 255 = 102 on every channel after the 0.1 pedestal.
    let mut wave = vec![milli(500); 1187];
    wave.extend(vec![0i64; 47]);
    for _ in 0..32 {
        wave.extend(vec![milli(500); 1186]);
        wave.extend(vec![0i64; 94]);
    }
    wave.extend(vec![milli(500); 1186]);

    let mut d = CompositeDecode::new();
    let mut rows: Vec<RenderedLine> = Vec::new();
    for chunk in wave.chunks(512) {
        rows.extend(d.push_data(&chunk.to_vec()));
    }
    assert!(!rows.is_empty(), "no rows rendered");
    // Odd field: first rendered row lands on y = 1, then y = 3, ...
    assert_eq!(rows[0].y, 1);
    assert_eq!(rows[1].y, 3);
    for row in rows.iter() {
        assert_eq!(row.pixels.len(), 800);
        for px in row.pixels.iter() {
            assert!(
                (px.r as i32 - 102).abs() <= 3
                    && (px.g as i32 - 102).abs() <= 3
                    && (px.b as i32 - 102).abs() <= 3,
                "pixel {:?} at row {}",
                px,
                row.y
            );
        }
    }
}
