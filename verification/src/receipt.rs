//! Receipts: persistent bookkeeping of what a prior build left in the store.

use vstd::prelude::*;
use crate::anchor::{Anchor, AnchorKey};
use crate::world::{world_live, world_seen, comp_map, kid_list, world_hier, is_live, despawn};

verus! {

/// What one prior build of one node left behind: the entity it targeted,
/// the component ids it applied, and a receipt per child, keyed by anchor.
pub struct Receipt {
    /// The entity the node was built on, if it has been built.
    pub target: Option<u64>,
    /// The component ids the last build applied to the target.
    pub applied: Vec<usize>,
    /// One receipt per child of the last build, with its anchor.
    pub children: Vec<(Anchor, Receipt)>,
}

impl Receipt {
    /// The empty receipt, for an anchor seen for the first time.
    pub fn new() -> (r: Receipt)
        ensures
            r.target is None,
            r.applied@ == Seq::<usize>::empty(),
            r.children@ == Seq::<(Anchor, Receipt)>::empty(),
    {
        Receipt { target: None, applied: Vec::new(), children: Vec::new() }
    }
}

/// The component ids a receipt records as applied.
pub open spec fn applied_ids(r: Receipt) -> Set<usize> {
    r.applied@.to_set()
}

/// Every entity id recorded anywhere in the receipt tree.
pub open spec fn receipt_targets(r: Receipt) -> Set<u64>
    decreases r,
{
    let own = match r.target {
        Some(t) => Set::empty().insert(t),
        None => Set::empty(),
    };
    own.union(list_targets(r.children@))
}

/// Every entity id recorded in a list of child receipts.
pub open spec fn list_targets(s: Seq<(Anchor, Receipt)>) -> Set<u64>
    decreases s,
{
    if s.len() == 0 {
        Set::empty()
    } else {
        list_targets(s.subrange(0, s.len() - 1)).union(receipt_targets(s[s.len() - 1].1))
    }
}

/// No id is in both sets while alive.
pub open spec fn live_disjoint(a: Set<u64>, b: Set<u64>, w: bevy_ecs::world::World) -> bool {
    forall|t: u64| a.contains(t) && b.contains(t) ==> !world_live(w).contains(t)
}

/// A keyed list of receipts is sound for world `w`: each entry is sound,
/// anchors are unique, and no live entity is recorded in two entries.
pub open spec fn roots_ok(s: Seq<(Anchor, Receipt)>, w: bevy_ecs::world::World) -> bool
    decreases s,
{
    &&& forall|i: int| 0 <= i < s.len() ==> receipt_ok((#[trigger] s[i]).1, w)
    &&& forall|i: int, j: int| 0 <= i < j < s.len() ==> s[i].0@ != s[j].0@
    &&& forall|i: int, j: int|
        0 <= i < j < s.len() ==> live_disjoint(
            receipt_targets(s[i].1),
            receipt_targets(s[j].1),
            w,
        )
}

/// A receipt tree is sound for world `w`: every recorded id was handed out
/// by `w`; applied ids never name hierarchy bookkeeping; the child list is
/// sound; and a live parent target recurs in no child subtree.
pub open spec fn receipt_ok(r: Receipt, w: bevy_ecs::world::World) -> bool
    decreases r,
{
    &&& match r.target {
        Some(t) => world_seen(w).contains(t),
        None => true,
    }
    &&& forall|id: usize| applied_ids(r).contains(id) ==> !world_hier(w).contains(id)
    &&& roots_ok(r.children@, w)
    &&& match r.target {
        Some(t) => world_live(w).contains(t) ==> forall|i: int|
            0 <= i < r.children@.len() ==> !receipt_targets(
                (#[trigger] r.children@[i]).1,
            ).contains(t),
        None => true,
    }
}

/// Whether some entry of the list carries anchor key `k`.
pub open spec fn has_key(s: Seq<(Anchor, Receipt)>, k: AnchorKey) -> bool {
    exists|i: int| 0 <= i < s.len() && s[i].0@ == k
}

/// Index of the first entry with anchor key `k`, if any.
pub fn find_key(s: &Vec<(Anchor, Receipt)>, a: &Anchor) -> (o: Option<usize>)
    ensures
        match o {
            Some(i) => i < s@.len() && s@[i as int].0@ == a@,
            None => !has_key(s@, a@),
        },
{
    let mut i: usize = 0;
    while i < s.len()
        invariant
            0 <= i <= s@.len(),
            forall|j: int| 0 <= j < i ==> s@[j].0@ != a@,
        decreases s@.len() - i,
    {
        if s[i].0.matches(a) {
            return Some(i);
        }
        i += 1;
    }
    None
}

/// An id in a child-list union is in one of the children.
pub proof fn lemma_list_targets_member(s: Seq<(Anchor, Receipt)>, t: u64)
    ensures
        list_targets(s).contains(t) <==> exists|i: int|
            0 <= i < s.len() && receipt_targets(#[trigger] s[i].1).contains(t),
    decreases s,
{
    if s.len() > 0 {
        lemma_list_targets_member(s.subrange(0, s.len() - 1), t);
        let sub = s.subrange(0, s.len() - 1);
        if list_targets(s).contains(t) {
            if list_targets(sub).contains(t) {
                let i = choose|i: int|
                    0 <= i < sub.len() && receipt_targets(#[trigger] sub[i].1).contains(t);
                assert(receipt_targets(s[i].1).contains(t));
            }
        }
        if exists|i: int| 0 <= i < s.len() && receipt_targets(#[trigger] s[i].1).contains(t) {
            let i = choose|i: int|
                0 <= i < s.len() && receipt_targets(#[trigger] s[i].1).contains(t);
            if i < s.len() - 1 {
                assert(sub[i] == s[i]);
            }
        }
    }
}

/// A prefix union grows one subtree at a time.
pub proof fn lemma_prefix_targets(s: Seq<(Anchor, Receipt)>, i: int)
    requires
        0 <= i < s.len(),
    ensures
        list_targets(s.subrange(0, i + 1)) == list_targets(s.subrange(0, i)).union(
            receipt_targets(s[i].1),
        ),
{
    let q = s.subrange(0, i + 1);
    assert(q.subrange(0, q.len() - 1) =~= s.subrange(0, i));
    assert(q[q.len() - 1] == s[i]);
}

/// The whole list union equals the full prefix.
pub proof fn lemma_full_prefix_targets(s: Seq<(Anchor, Receipt)>)
    ensures
        list_targets(s.subrange(0, s.len() as int)) == list_targets(s),
{
    assert(s.subrange(0, s.len() as int) =~= s);
}

/// In a sound receipt every recorded id was handed out by the world.
pub proof fn lemma_targets_seen(r: Receipt, w: bevy_ecs::world::World)
    requires
        receipt_ok(r, w),
    ensures
        forall|t: u64| receipt_targets(r).contains(t) ==> world_seen(w).contains(t),
    decreases r,
{
    assert forall|t: u64| receipt_targets(r).contains(t) implies world_seen(w).contains(t) by {
        if list_targets(r.children@).contains(t) {
            lemma_list_targets_member(r.children@, t);
            let i = choose|i: int|
                0 <= i < r.children@.len() && receipt_targets(
                    #[trigger] r.children@[i].1,
                ).contains(t);
            lemma_targets_seen(r.children@[i].1, w);
        }
    }
}

/// Soundness of a receipt survives any evolution of the world that hands
/// out new ids only, keeps the bookkeeping ids, and revives nothing.
pub proof fn lemma_receipt_ok_preserved(
    r: Receipt,
    w0: bevy_ecs::world::World,
    w1: bevy_ecs::world::World,
)
    requires
        receipt_ok(r, w0),
        world_seen(w0).subset_of(world_seen(w1)),
        world_hier(w1) == world_hier(w0),
        forall|x: u64|
            world_live(w1).contains(x) ==> world_live(w0).contains(x) || !world_seen(
                w0,
            ).contains(x),
    ensures
        receipt_ok(r, w1),
    decreases r,
{
    assert forall|i: int| 0 <= i < r.children@.len() implies receipt_ok(
        (#[trigger] r.children@[i]).1,
        w1,
    ) by {
        lemma_receipt_ok_preserved(r.children@[i].1, w0, w1);
    }
    assert forall|i: int, j: int| 0 <= i < j < r.children@.len() implies live_disjoint(
        receipt_targets(r.children@[i].1),
        receipt_targets(r.children@[j].1),
        w1,
    ) by {
        lemma_targets_seen(r.children@[i].1, w0);
        assert(live_disjoint(
            receipt_targets(r.children@[i].1),
            receipt_targets(r.children@[j].1),
            w0,
        ));
    }
    match r.target {
        Some(t) => {
            if world_live(w1).contains(t) {
                assert(world_live(w0).contains(t));
            }
        },
        None => {},
    }
}

/// Destroy every entity a receipt subtree records, children first.
///
/// Entities the subtree does not record are untouched; ids recorded but
/// already dead stay dead.
pub fn destroy_receipt(w: &mut bevy_ecs::world::World, r: &Receipt)
    ensures
        world_live(*final(w)) == world_live(*old(w)).difference(receipt_targets(*r)),
        world_seen(*final(w)) == world_seen(*old(w)),
        world_hier(*final(w)) == world_hier(*old(w)),
        forall|x: u64|
            !receipt_targets(*r).contains(x) ==> #[trigger] comp_map(*final(w), x) == comp_map(
                *old(w),
                x,
            ),
        forall|x: u64|
            !receipt_targets(*r).contains(x) ==> #[trigger] kid_list(*final(w), x) == kid_list(
                *old(w),
                x,
            ),
    decreases *r,
{
    let ghost w0 = *w;
    let mut i: usize = 0;
    while i < r.children.len()
        invariant
            0 <= i <= r.children@.len(),
            world_live(*w) == world_live(w0).difference(
                list_targets(r.children@.subrange(0, i as int)),
            ),
            world_seen(*w) == world_seen(w0),
            world_hier(*w) == world_hier(w0),
            forall|x: u64|
                !list_targets(r.children@.subrange(0, i as int)).contains(x)
                    ==> #[trigger] comp_map(*w, x) == comp_map(w0, x),
            forall|x: u64|
                !list_targets(r.children@.subrange(0, i as int)).contains(x)
                    ==> #[trigger] kid_list(*w, x) == kid_list(w0, x),
        decreases r.children@.len() - i,
    {
        proof {
            assert(decreases_to!(*r => r.children@[i as int].1));
            lemma_prefix_targets(r.children@, i as int);
        }
        destroy_receipt(w, &r.children[i].1);
        proof {
            assert(world_live(*w) =~= world_live(w0).difference(
                list_targets(r.children@.subrange(0, i + 1 as int)),
            ));
        }
        i += 1;
    }
    proof {
        lemma_full_prefix_targets(r.children@);
    }
    match r.target {
        Some(t) => {
            if is_live(w, t) {
                despawn(w, t);
            }
            proof {
                assert(world_live(*w) =~= world_live(w0).difference(receipt_targets(*r)));
            }
        },
        None => {
            proof {
                assert(world_live(*w) =~= world_live(w0).difference(receipt_targets(*r)));
            }
        },
    }
}

} // verus!
