//! Arranging timed tracks onto the sides of a physical medium, and scoring
//! arrangements against weighted soft constraints.
//!
//! Durations are whole numbers of milliseconds, so that packing and
//! comparisons are exact.

pub mod medium;
pub mod permutations;
pub mod scoring;
pub mod track;

pub use medium::Medium;
pub use permutations::TracklistPermutations;
pub use scoring::{score_tracklist, Constraint, ConstraintKind};
pub use track::{Duration, Track, Tracklist};
