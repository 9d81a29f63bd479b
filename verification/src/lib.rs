//! Resolution of overlapping scope annotations into display styles.
//!
//! Independent sources contribute scope-name stacks and per-range scope
//! indices over a shared document. Each source's data lives in its own
//! layer; the layers are composited, in ascending source-identifier order,
//! into one merged sequence of styles covering the whole document.

pub mod interval;
pub mod style;
pub mod spans;
pub mod resolver;
pub mod layers;
