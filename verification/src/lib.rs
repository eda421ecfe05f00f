//! A stereo delay-line audio core, verified.
//!
//! Samples are fixed-point values carried in `i64`; level and feedback
//! parameters are integer percentages. The ring-buffer algorithm, the
//! delay-time clamp, the feedback routing and the wet/dry mix are all
//! specified against a mathematical model of the ring (`ring::RingState`)
//! and proved. The floating-point host shell that feeds this core lives
//! outside the verified library.

pub mod delay_line;
pub mod laws;
pub mod params;
pub mod processor;
pub mod ring;
