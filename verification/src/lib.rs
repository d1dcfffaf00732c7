//! Adaptive local-contrast correction for photographed documents.
//!
//! The pipeline estimates, per pixel, the darkest and brightest tones in a
//! growing neighborhood (a doubling-offset extrema pyramid), repairs the
//! border band the pyramid leaves unreliable, flattens illumination with a
//! per-pixel affine stretch, and finishes with a histogram-driven global
//! tone stretch.

pub mod buffer;
pub mod cli;
pub mod global_equalization;
pub mod imageops;
pub mod math;
pub mod pipeline;
pub mod pixelops;
