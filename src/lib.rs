//! Verified core of a guided-local-search strip packer: the pairwise overlap
//! tracker with its penalty weights, the best-samples buffer and coordinate
//! descent of the placement search, the decisions of the separation,
//! exploration and compression loops, and small value types shared with the
//! geometric front end.
//!
//! All quantities are integers. Losses, weights, positions, widths and areas
//! are fixed-point values that the geometric front end derives from its
//! floating-point geometry.
pub mod arith;
pub mod tracker;
pub mod moves;
pub mod samples;
pub mod descent;
pub mod search;
pub mod strike;
pub mod pool;
pub mod explore;
pub mod stats;
pub mod color;
