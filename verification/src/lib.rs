//! Verified layout logic for real-time audio visualizers.
//!
//! The drawing itself (curves, colours, the Fourier transform) is floating
//! point and lives with the views; what is proved here is the integer logic
//! that decides which samples, bins and points each piece of geometry is
//! built from.

pub mod capture;
pub mod columns;
pub(crate) mod bignat;
pub mod ring;
pub mod spectrum;
pub mod spline;

pub use capture::CaptureActivation;
pub use columns::{column_count, column_span};
pub use ring::SampleRing;
pub use spectrum::{band_bins, band_edge};
pub use spline::{SplineStep, after, before, catmull_rom_plan};
