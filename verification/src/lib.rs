//! Exact enumeration of all pairwise intersections among a set of line
//! segments, found with a plane sweep over an event queue, together with the
//! bit-pattern codec used to exchange coordinates as 64-character binary
//! strings.
//!
//! Coordinates live on a bounded integer grid, so every orientation test
//! and every intersection point is computed exactly; results are
//! deterministic and reproducible bit for bit.

pub mod codec;
pub mod geom;
pub mod sweep;
