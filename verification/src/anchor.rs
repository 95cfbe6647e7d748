//! Identity keys for nodes within one sibling list.
//!
//! A node with an explicit name keeps its identity wherever it moves among
//! its siblings; a node without one is identified by its ordinal position
//! among the unnamed siblings only.

use vstd::prelude::*;

verus! {

/// Stable identity key of a node within one sibling list.
pub enum Anchor {
    /// Ordinal position among the unnamed siblings of one list.
    Auto(usize),
    /// Explicit name given by the author.
    Named(String),
}

/// Mathematical value of an `Anchor`.
pub ghost enum AnchorKey {
    Auto(int),
    Named(Seq<char>),
}

impl View for Anchor {
    type V = AnchorKey;

    open spec fn view(&self) -> AnchorKey {
        match self {
            Anchor::Auto(i) => AnchorKey::Auto(*i as int),
            Anchor::Named(s) => AnchorKey::Named(s@),
        }
    }
}

impl Anchor {
    /// Whether two anchors are the same identity key.
    pub fn matches(&self, other: &Anchor) -> (r: bool)
        ensures
            r == (self@ == other@),
    {
        match (self, other) {
            (Anchor::Auto(i), Anchor::Auto(j)) => i == j,
            (Anchor::Named(s), Anchor::Named(t)) => s.eq(t),
            _ => false,
        }
    }
}

} // verus!
