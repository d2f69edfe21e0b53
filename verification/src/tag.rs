//! The capability that turns a match into its replacement.

use vstd::prelude::*;
use crate::matching::{Match, MatchView};

verus! {

/// Receives a match and provides its replacement.
///
/// A tag may choose among several texts: `produces` says which texts it may give
/// for a match, and `generate` gives one of them.
pub trait Tag: Send + Sync {
    /// Whether `out` is a replacement that this tag may give for the match `m`. A
    /// tag that does not say which texts it may give may give any.
    open spec fn produces(&self, m: MatchView, out: Seq<char>) -> bool {
        true
    }

    /// Makes a replacement for the match.
    fn generate(&self, m: &Match) -> (r: String)
        requires
            m.wf(),
        ensures
            self.produces(m@, r@),
    ;
}

} // verus!
