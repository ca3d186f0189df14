//! Reduces GPS tracks to deduplicated, simplified coordinate sequences.
//!
//! A batch of tracks is loaded from GPX-shaped markup, every coordinate
//! is rounded to six decimal digits, immediately-consecutive duplicate
//! points are collapsed, tracks that claim no coarse coordinate beyond
//! what earlier tracks of the same activity class already claimed are
//! dropped, and exactly-collinear interior points are removed. The
//! surviving tracks are rendered as named array literals for a map
//! script to consume.
//!
//! Coordinates are decimal fixed-point values held in integers: nine
//! fractional digits as loaded, six after rounding. All arithmetic on
//! them — rounding, equality, the collinearity cross product — is exact.

pub mod dedup;
pub mod geom;
pub mod loader;
pub mod novelty;
pub mod output;
pub mod parse_num;
pub mod pipeline;
pub mod rounding;
pub mod simplify;
pub mod track;
