//! Renders a stopwatch-style `M:SS.CC` timer reading as a raster image.
//!
//! The library has three parts: a fixed-point time value ([`time::Time`])
//! counting elapsed microseconds, with parsing, saturating addition and a
//! canonical fixed-width text rendering; a glyph set ([`display::Display`])
//! mapping each displayable symbol to a bitmap tile; and a compositing
//! renderer that concatenates tiles horizontally into one output bitmap.
//! [`bulk`] plans a numbered frame sequence spanning a time interval at a
//! fixed frame interval.

pub mod bulk;
pub mod display;
pub mod num_text;
pub mod time;
