//! Ley-line and pentagram detection for a 2D marker field.
//!
//! Given a snapshot of marker positions and a distance threshold, the library
//! builds a proximity graph (every pair of markers within the threshold gets an
//! edge with a brightness score), enumerates the 5-cliques of that graph, tests
//! each 5-clique for approximate pentagonal regularity, and classifies every
//! edge as ordinary or as part of a detected pentagram. The whole computation
//! is a pure function of the marker list and the threshold.
//!
//! Markers live on an integer grid of world units; callers working in other
//! units convert on the way in and out. All geometry is exact integer
//! arithmetic: distances are compared by their squares, brightness is reported
//! in parts per million, and angular regularity is decided with cross and dot
//! products against fixed rational tangent thresholds.

pub mod assets;
pub mod cliques;
pub mod flag_state;
pub mod flags;
pub mod geometry;
pub mod graph;
pub mod intensity;
pub mod ley_lines;
pub mod movement;
pub mod pentagon;

pub use flag_state::FlagState;
pub use flags::Flag;
pub use geometry::Pos;
pub use ley_lines::{compute_ley_state, LeyCenter, LeyLine, LeyLineKind, LeyState};
