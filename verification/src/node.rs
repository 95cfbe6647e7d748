//! The declarative description: payloads and template nodes.

use vstd::prelude::*;
use crate::anchor::AnchorKey;
use crate::world::{world_live, world_seen, comp_map, kid_list, world_hier};

verus! {

/// A component-bearing value that a node contributes to its target entity.
///
/// This is the capability an author implements for each concrete payload
/// type (an enum over the payload types of one application is the usual
/// shape). The contracts are obligations on the implementor:
/// - `data()` names the components the payload stands for, by component id,
///   with each value abstracted as bytes; it must not claim a hierarchy
///   bookkeeping id.
/// - `type_ids` reports exactly the ids of `data()`, registering component
///   types with the store as needed but changing no entity.
/// - `apply` writes exactly the components of `data()` onto the given live
///   entity, overwriting values of those types and touching nothing else;
///   the components inserted must carry no hooks or observers that mutate
///   the store further.
pub trait Payload: Sized {
    /// The components this payload contributes: component id to value
    /// bytes. An implementation outside the verified world leaves the
    /// default, an unconstrained map that the other two obligations pin
    /// against each other.
    open spec fn data(&self) -> Map<usize, Seq<u8>> {
        arbitrary()
    }

    /// The component ids of `data()`, each once, in any order.
    fn type_ids(&self, w: &mut bevy_ecs::world::World) -> (r: Vec<usize>)
        ensures
            r@.to_set() == self.data().dom(),
            r@.no_duplicates(),
            self.data().dom().disjoint(world_hier(*final(w))),
            world_live(*final(w)) == world_live(*old(w)),
            world_seen(*final(w)) == world_seen(*old(w)),
            forall|x: u64| #[trigger] comp_map(*final(w), x) == comp_map(*old(w), x),
            forall|x: u64| #[trigger] kid_list(*final(w), x) == kid_list(*old(w), x),
            world_hier(*final(w)) == world_hier(*old(w)),
    ;

    /// Write the payload's component values onto entity `e`.
    fn apply(&self, w: &mut bevy_ecs::world::World, e: u64)
        requires
            world_live(*old(w)).contains(e),
        ensures
            comp_map(*final(w), e) == comp_map(*old(w), e).union_prefer_right(self.data()),
            forall|x: u64| x != e ==> #[trigger] comp_map(*final(w), x) == comp_map(*old(w), x),
            forall|x: u64| #[trigger] kid_list(*final(w), x) == kid_list(*old(w), x),
            world_live(*final(w)) == world_live(*old(w)),
            world_seen(*final(w)) == world_seen(*old(w)),
            world_hier(*final(w)) == world_hier(*old(w)),
    ;
}

/// One node of a template: an optional identity hint, a payload, and the
/// ordered children to build beneath it.
pub struct Node<P> {
    /// Explicit identity of this node among its siblings, if any.
    pub anchor: Option<String>,
    /// The components this node puts on its entity.
    pub payload: P,
    /// The subtree to build beneath this node, in order.
    pub children: Vec<Node<P>>,
}

/// An ordered description of sibling subtrees to realize against the store.
pub type Template<P> = Vec<Node<P>>;

/// How many of the first `i` siblings are unnamed; the counter value that
/// anchor resolution assigns to the next unnamed sibling.
pub open spec fn unnamed_before<P>(children: Seq<Node<P>>, i: int) -> int
    decreases i,
{
    if i <= 0 {
        0
    } else {
        unnamed_before(children, i - 1) + if children[i - 1].anchor is None {
            1int
        } else {
            0int
        }
    }
}

/// The anchor of sibling `i`: its name when it has one, else its ordinal
/// position among the unnamed siblings alone.
pub open spec fn anchor_at<P>(children: Seq<Node<P>>, i: int) -> AnchorKey {
    match children[i].anchor {
        Some(s) => AnchorKey::Named(s@),
        None => AnchorKey::Auto(unnamed_before(children, i)),
    }
}

/// Whether key `k` is the anchor of some sibling in the list.
pub open spec fn anchor_hit<P>(children: Seq<Node<P>>, k: AnchorKey) -> bool {
    exists|i: int| 0 <= i < children.len() && anchor_at(children, i) == k
}

/// No two siblings share an anchor.
pub open spec fn distinct_anchors<P>(children: Seq<Node<P>>) -> bool {
    forall|i: int, j: int|
        0 <= i < j < children.len() ==> anchor_at(children, i) != anchor_at(children, j)
}

/// Anchors are unique within every sibling list of the subtree. Duplicate
/// explicit names are a caller-contract violation; the contracts here are
/// stated only for templates without them.
pub open spec fn wf_node<P>(n: Node<P>) -> bool
    decreases n,
{
    &&& distinct_anchors(n.children@)
    &&& forall|i: int| 0 <= i < n.children@.len() ==> wf_node(#[trigger] n.children@[i])
}

/// `wf_node` across a whole template.
pub open spec fn wf_template<P>(t: Seq<Node<P>>) -> bool {
    &&& distinct_anchors(t)
    &&& forall|i: int| 0 <= i < t.len() ==> wf_node(#[trigger] t[i])
}

} // verus!
