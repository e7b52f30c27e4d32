//! Streaming composite-video decoder.
//!
//! The decoder recovers horizontal and vertical sync structure from an
//! unlabeled stream of baseband samples, captures one scanline of active
//! video per horizontal sync pulse, demodulates the quadrature color
//! subcarrier against a synthesized reference, applies a per-line
//! burst-phase correction, and converts Y/I/Q to RGB pixel rows.
//!
//! All signal values are fixed-point integers carrying six fractional
//! decimal digits (see [`fixed::UNIT`]); the caller converts raw samples
//! into these units at the intake edge.

pub mod decoder;
pub mod dsp;
pub mod fixed;
pub mod trig;
