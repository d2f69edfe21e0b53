//! Text rewriting by ordered groups of regular-expression rules.
//!
//! An [`Accent`] holds levels of intensity. Each level is a list of named
//! passes. A [`Pass`] compiles the patterns of its rules into one regex, scans a
//! text once and replaces every match by what the [`Tag`] of the pattern that
//! matched gives for it.

pub mod accent;
pub mod definition;
pub mod intensity;
pub mod matching;
pub mod merge;
pub mod pass;
pub mod tag;
pub mod tag_impls;
pub mod text;
pub mod utils;

pub use accent::Accent;
pub use intensity::Intensity;
pub use matching::Match;
pub use pass::Pass;
pub use tag::Tag;
