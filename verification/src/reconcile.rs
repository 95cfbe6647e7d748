//! The reconciler: applying a template against prior receipts and the store.

use vstd::prelude::*;
use crate::anchor::{Anchor, AnchorKey};
use crate::node::{Node, Payload, Template, anchor_at, anchor_hit, distinct_anchors, unnamed_before, wf_node, wf_template};
use crate::receipt::{
    Receipt, applied_ids, has_key, find_key, receipt_ok, roots_ok, receipt_targets, list_targets,
    live_disjoint, lemma_list_targets_member, lemma_prefix_targets, lemma_full_prefix_targets,
    lemma_targets_seen, lemma_receipt_ok_preserved, destroy_receipt,
};
use crate::world::{
    world_live, world_seen, comp_map, kid_list, world_hier, no_comps, known, preserved_outside,
    spawn_empty, is_live, has_component, remove_component, take_children, add_children,
};

verus! {

/// The entity a receipt records, with a placeholder for the unbuilt case.
pub open spec fn target_of(r: Receipt) -> u64 {
    match r.target {
        Some(t) => t,
        None => 0,
    }
}

/// The recorded entities of a keyed receipt list, in list order.
pub open spec fn list_child_targets(s: Seq<(Anchor, Receipt)>) -> Seq<u64> {
    Seq::new(s.len(), |i: int| target_of(s[i].1))
}

/// The recorded child entities, one per child receipt, in receipt order.
pub open spec fn child_targets(r: Receipt) -> Seq<u64> {
    list_child_targets(r.children@)
}

/// Receipt `r` faithfully describes node `n` as realized in world `w`: the
/// target is alive and carries at least the payload's components, exactly
/// the payload's ids are recorded as applied, the store reports the
/// children in authored order, and each child is likewise realized.
pub open spec fn built_node<P: Payload>(n: Node<P>, r: Receipt, w: bevy_ecs::world::World) -> bool
    decreases n,
{
    &&& r.target is Some
    &&& world_live(w).contains(target_of(r))
    &&& applied_ids(r) == n.payload.data().dom()
    &&& n.payload.data().submap_of(comp_map(w, target_of(r)))
    &&& kid_list(w, target_of(r)) == child_targets(r)
    &&& list_built(n.children@, r.children@, w)
}

/// Each sibling receipt faithfully describes its sibling node, under the
/// anchor that resolution assigns to that position.
pub open spec fn list_built<P: Payload>(
    nodes: Seq<Node<P>>,
    s: Seq<(Anchor, Receipt)>,
    w: bevy_ecs::world::World,
) -> bool
    decreases nodes,
{
    &&& s.len() == nodes.len()
    &&& forall|i: int| 0 <= i < nodes.len() ==> (#[trigger] s[i]).0@ == anchor_at(nodes, i)
    &&& forall|i: int|
        0 <= i < nodes.len() ==> built_node(#[trigger] nodes[i], s[i].1, w)
}

/// Two receipts that record the same entities at the same anchors.
pub open spec fn same_identity(a: Receipt, b: Receipt) -> bool
    decreases a,
{
    &&& a.target == b.target
    &&& list_same(a.children@, b.children@)
}

/// Entry by entry, the same anchors over the same recorded entities.
pub open spec fn list_same(a: Seq<(Anchor, Receipt)>, b: Seq<(Anchor, Receipt)>) -> bool
    decreases a,
{
    &&& a.len() == b.len()
    &&& forall|i: int|
        0 <= i < a.len() ==> (#[trigger] a[i]).0@ == b[i].0@ && same_identity(a[i].1, b[i].1)
}

/// A child subtree records only ids the whole receipt records.
pub proof fn lemma_child_targets_sub(r: Receipt, i: int)
    requires
        0 <= i < r.children@.len(),
    ensures
        receipt_targets(r.children@[i].1).subset_of(receipt_targets(r)),
{
    assert forall|t: u64| receipt_targets(r.children@[i].1).contains(t) implies receipt_targets(
        r,
    ).contains(t) by {
        lemma_list_targets_member(r.children@, t);
    }
}

/// In a realized subtree every recorded entity is alive, and its child list
/// stays inside the subtree, below its root.
pub proof fn lemma_built_kids<P: Payload>(n: Node<P>, r: Receipt, w: bevy_ecs::world::World)
    requires
        built_node(n, r, w),
        receipt_ok(r, w),
    ensures
        forall|x: u64|
            #[trigger] receipt_targets(r).contains(x) ==> world_live(w).contains(x) && kid_list(
                w,
                x,
            ).to_set().subset_of(receipt_targets(r).remove(target_of(r))),
    decreases n,
{
    assert forall|x: u64| #[trigger] receipt_targets(r).contains(x) implies world_live(
        w,
    ).contains(x) && kid_list(w, x).to_set().subset_of(
        receipt_targets(r).remove(target_of(r)),
    ) by {
        if x == target_of(r) {
            assert(world_live(w).contains(x));
            assert(kid_list(w, x) == child_targets(r));
            assert forall|t: u64| kid_list(w, x).to_set().contains(t) implies receipt_targets(
                r,
            ).remove(target_of(r)).contains(t) by {
                assert(child_targets(r).contains(t));
                let i = choose|i: int| 0 <= i < child_targets(r).len() && child_targets(r)[i] == t;
                assert(receipt_targets(r.children@[i].1).contains(t)) by {
                    assert(built_node(n.children@[i], r.children@[i].1, w));
                    assert(r.children@[i].1.target == Some(t));
                }
                lemma_child_targets_sub(r, i);
                assert(world_live(w).contains(target_of(r)));
                assert(!receipt_targets(r.children@[i].1).contains(target_of(r)));
            }
        } else {
            lemma_list_targets_member(r.children@, x);
            let i = choose|i: int|
                0 <= i < r.children@.len() && receipt_targets(
                    #[trigger] r.children@[i].1,
                ).contains(x);
            assert(built_node(n.children@[i], r.children@[i].1, w));
            assert(receipt_ok(r.children@[i].1, w));
            lemma_built_kids(n.children@[i], r.children@[i].1, w);
            lemma_child_targets_sub(r, i);
            assert(receipt_targets(r.children@[i].1).contains(x));
            assert(world_live(w).contains(x) && kid_list(w, x).to_set().subset_of(
                receipt_targets(r.children@[i].1).remove(target_of(r.children@[i].1)),
            ));
            assert(kid_list(w, x).to_set().subset_of(
                receipt_targets(r.children@[i].1).remove(target_of(r.children@[i].1)),
            ));
            assert(world_live(w).contains(target_of(r)));
            assert(!receipt_targets(r.children@[i].1).contains(target_of(r)));
            assert forall|t: u64| kid_list(w, x).to_set().contains(t) implies receipt_targets(
                r,
            ).remove(target_of(r)).contains(t) by {
                assert(receipt_targets(r.children@[i].1).contains(t));
            }
        }
    }
}

/// A realized subtree stays realized while the world evolves outside it.
pub proof fn lemma_built_preserved<P: Payload>(
    n: Node<P>,
    r: Receipt,
    w0: bevy_ecs::world::World,
    w1: bevy_ecs::world::World,
    except: Set<u64>,
)
    requires
        built_node(n, r, w0),
        receipt_ok(r, w0),
        preserved_outside(w0, w1, except),
        receipt_targets(r).disjoint(except),
    ensures
        built_node(n, r, w1),
    decreases n,
{
    lemma_targets_seen(r, w0);
    let e = target_of(r);
    assert(receipt_targets(r).contains(e));
    assert(world_seen(w0).contains(e));
    assert(!except.contains(e)) by {
        assert(receipt_targets(r).disjoint(except));
        assert(!(receipt_targets(r).contains(e) && except.contains(e)));
    }
    assert(world_live(w1).contains(e) && comp_map(w1, e) == comp_map(w0, e));
    assert(kid_list(w1, e) == kid_list(w0, e)) by {
        assert forall|t: u64| kid_list(w0, e).to_set().contains(t) implies world_seen(
            w0,
        ).difference(except).contains(t) by {
            let i = choose|i: int| 0 <= i < child_targets(r).len() && child_targets(r)[i] == t;
            assert(receipt_targets(r.children@[i].1).contains(t)) by {
                assert(built_node(n.children@[i], r.children@[i].1, w0));
            }
            lemma_child_targets_sub(r, i);
        }
    }
    assert forall|i: int| 0 <= i < n.children@.len() implies built_node(
        #[trigger] n.children@[i],
        r.children@[i].1,
        w1,
    ) by {
        lemma_child_targets_sub(r, i);
        assert(receipt_targets(r.children@[i].1).disjoint(except));
        lemma_built_preserved(n.children@[i], r.children@[i].1, w0, w1, except);
    }
}

/// `preserved_outside` composes along a fixed exception set.
pub proof fn lemma_preserved_trans(
    w0: bevy_ecs::world::World,
    w1: bevy_ecs::world::World,
    w2: bevy_ecs::world::World,
    except: Set<u64>,
)
    requires
        preserved_outside(w0, w1, except),
        preserved_outside(w1, w2, except),
    ensures
        preserved_outside(w0, w2, except),
{
    assert forall|x: u64|
        known(w0, x) && !except.contains(x) && (forall|y: u64|
            #[trigger] kid_list(w0, x).to_set().contains(y) ==> known(w0, y)
                && !except.contains(y)) implies kid_list(w2, x) == kid_list(w0, x) by {
        assert(kid_list(w1, x) == kid_list(w0, x));
        assert(known(w1, x));
        assert forall|y: u64| (#[trigger] kid_list(w1, x)).to_set().contains(y) implies known(
            w1,
            y,
        ) && !except.contains(y) by {
            assert(kid_list(w0, x).to_set().contains(y));
            assert(known(w0, y) && !except.contains(y));
        }
    }
}

/// A smaller exception set preserves more.
pub proof fn lemma_preserved_mono(
    w0: bevy_ecs::world::World,
    w1: bevy_ecs::world::World,
    small: Set<u64>,
    large: Set<u64>,
)
    requires
        preserved_outside(w0, w1, small),
        small.subset_of(large),
    ensures
        preserved_outside(w0, w1, large),
{
    assert forall|x: u64|
        known(w0, x) && !large.contains(x) && (forall|y: u64|
            #[trigger] kid_list(w0, x).to_set().contains(y) ==> known(w0, y)
                && !large.contains(y)) implies kid_list(w1, x) == kid_list(w0, x) by {
        assert forall|y: u64| #[trigger] kid_list(w0, x).to_set().contains(y) implies known(
            w0,
            y,
        ) && !small.contains(y) by {}
    }
}


/// Appending an element adds exactly it to the set of elements.
pub proof fn lemma_push_to_set<A>(s: Seq<A>, x: A)
    ensures
        s.push(x).to_set() == s.to_set().insert(x),
{
    assert forall|y: A| s.push(x).to_set().contains(y) implies s.to_set().insert(x).contains(
        y,
    ) by {
        assert(s.push(x).contains(y));
        let k = choose|k: int| 0 <= k < s.push(x).len() && s.push(x)[k] == y;
        if k < s.len() {
            assert(s[k] == y);
            assert(s.contains(y));
        }
    }
    assert forall|y: A| s.to_set().insert(x).contains(y) implies s.push(x).to_set().contains(
        y,
    ) by {
        if y == x {
            assert(s.push(x)[s.len() as int] == y);
        } else {
            assert(s.contains(y));
            let k = choose|k: int| 0 <= k < s.len() && s[k] == y;
            assert(s.push(x)[k] == y);
        }
        assert(s.push(x).contains(y));
    }
    assert(s.push(x).to_set() =~= s.to_set().insert(x));
}

/// No id of the set names a live entity.
pub open spec fn none_live(a: Set<u64>, w: bevy_ecs::world::World) -> bool {
    forall|t: u64| a.contains(t) ==> !world_live(w).contains(t)
}

/// Whether the vector holds the id.
fn ids_contain(v: &Vec<usize>, x: usize) -> (r: bool)
    ensures
        r == v@.contains(x),
{
    let mut i: usize = 0;
    while i < v.len()
        invariant
            0 <= i <= v@.len(),
            forall|k: int| 0 <= k < i ==> v@[k] != x,
        decreases v@.len() - i,
    {
        if v[i] == x {
            return true;
        }
        i += 1;
    }
    false
}

/// Remove from entity `e` exactly the previously applied component ids that
/// the new set no longer contributes.
fn remove_stale(w: &mut bevy_ecs::world::World, e: u64, old_ids: &Vec<usize>, keep: &Vec<usize>)
    requires
        world_live(*old(w)).contains(e),
        forall|id: usize| old_ids@.contains(id) ==> !world_hier(*old(w)).contains(id),
    ensures
        comp_map(*final(w), e) == comp_map(*old(w), e).remove_keys(
            old_ids@.to_set().difference(keep@.to_set()),
        ),
        forall|x: u64| x != e ==> #[trigger] comp_map(*final(w), x) == comp_map(*old(w), x),
        forall|x: u64| #[trigger] kid_list(*final(w), x) == kid_list(*old(w), x),
        world_live(*final(w)) == world_live(*old(w)),
        world_seen(*final(w)) == world_seen(*old(w)),
        world_hier(*final(w)) == world_hier(*old(w)),
{
    let ghost w0 = *old(w);
    let mut i: usize = 0;
    while i < old_ids.len()
        invariant
            0 <= i <= old_ids@.len(),
            world_live(*w).contains(e),
            forall|id: usize| old_ids@.contains(id) ==> !world_hier(*w).contains(id),
            comp_map(*w, e) == comp_map(w0, e).remove_keys(
                old_ids@.subrange(0, i as int).to_set().difference(keep@.to_set()),
            ),
            forall|x: u64| x != e ==> #[trigger] comp_map(*w, x) == comp_map(w0, x),
            forall|x: u64| #[trigger] kid_list(*w, x) == kid_list(w0, x),
            world_live(*w) == world_live(w0),
            world_seen(*w) == world_seen(w0),
            world_hier(*w) == world_hier(w0),
        decreases old_ids@.len() - i,
    {
        let id = old_ids[i];
        let ghost pre = old_ids@.subrange(0, i as int).to_set().difference(keep@.to_set());
        let ghost post = old_ids@.subrange(0, i + 1 as int).to_set().difference(keep@.to_set());
        proof {
            assert(old_ids@.subrange(0, i + 1 as int) =~= old_ids@.subrange(0, i as int).push(
                old_ids@[i as int],
            ));
            lemma_push_to_set(old_ids@.subrange(0, i as int), id);
            assert(old_ids@.subrange(0, i + 1 as int).to_set() == old_ids@.subrange(
                0,
                i as int,
            ).to_set().insert(id));
            assert(old_ids@.contains(id));
        }
        if !ids_contain(keep, id) {
            proof {
                assert(post =~= pre.insert(id));
            }
            if has_component(w, e, id) {
                remove_component(w, e, id);
            }
            proof {
                assert(comp_map(*w, e) =~= comp_map(w0, e).remove_keys(post));
            }
        } else {
            proof {
                assert(keep@.to_set().contains(id));
                assert(post =~= pre);
            }
        }
        i += 1;
    }
    proof {
        assert(old_ids@.subrange(0, old_ids@.len() as int) =~= old_ids@);
    }
}


/// A realized subtree stays realized when its own entities are untouched.
pub proof fn lemma_built_pointwise<P: Payload>(
    n: Node<P>,
    r: Receipt,
    w0: bevy_ecs::world::World,
    w1: bevy_ecs::world::World,
)
    requires
        built_node(n, r, w0),
        world_seen(w0).subset_of(world_seen(w1)),
        forall|x: u64|
            #[trigger] receipt_targets(r).contains(x) ==> world_live(w1).contains(x)
                == world_live(w0).contains(x) && comp_map(w1, x) == comp_map(w0, x) && kid_list(
                w1,
                x,
            ) == kid_list(w0, x),
    ensures
        built_node(n, r, w1),
    decreases n,
{
    let e = target_of(r);
    assert(receipt_targets(r).contains(e));
    assert forall|i: int| 0 <= i < n.children@.len() implies built_node(
        #[trigger] n.children@[i],
        r.children@[i].1,
        w1,
    ) by {
        lemma_child_targets_sub(r, i);
        assert(built_node(n.children@[i], r.children@[i].1, w0));
        assert forall|x: u64| #[trigger] receipt_targets(r.children@[i].1).contains(
            x,
        ) implies world_live(w1).contains(x) == world_live(w0).contains(x) && comp_map(w1, x)
            == comp_map(w0, x) && kid_list(w1, x) == kid_list(w0, x) by {
            assert(receipt_targets(r).contains(x));
        }
        lemma_built_pointwise(n.children@[i], r.children@[i].1, w0, w1);
    }
}

/// Exceptions that the world has never handed out may be dropped.
pub proof fn lemma_preserved_shrink(
    wa: bevy_ecs::world::World,
    wb: bevy_ecs::world::World,
    big: Set<u64>,
    small: Set<u64>,
)
    requires
        preserved_outside(wa, wb, big),
        forall|x: u64| #[trigger] big.contains(x) ==> small.contains(x) || !known(wa, x),
    ensures
        preserved_outside(wa, wb, small),
{
    assert forall|x: u64|
        known(wa, x) && !small.contains(x) && (forall|y: u64|
            #[trigger] kid_list(wa, x).to_set().contains(y) ==> known(wa, y)
                && !small.contains(y)) implies kid_list(wb, x) == kid_list(wa, x) by {
        assert(!big.contains(x));
        assert forall|y: u64| #[trigger] kid_list(wa, x).to_set().contains(y) implies known(
            wa,
            y,
        ) && !big.contains(y) by {}
    }
}

/// Ids recorded by entries of `prior` whose anchor has no entry in `keep`.
pub open spec fn orphan_targets(
    prior: Seq<(Anchor, Receipt)>,
    keep: Seq<(Anchor, Receipt)>,
) -> Set<u64> {
    Set::new(
        |t: u64|
            exists|i: int|
                0 <= i < prior.len() && !has_key(keep, (#[trigger] prior[i]).0@) && receipt_targets(
                    prior[i].1,
                ).contains(t),
    )
}

/// Destroy the subtrees of every entry of `prior` whose anchor does not
/// appear in `keep`; everything else is untouched.
pub fn destroy_orphans(
    w: &mut bevy_ecs::world::World,
    prior: &Vec<(Anchor, Receipt)>,
    keep: &Vec<(Anchor, Receipt)>,
)
    ensures
        world_live(*final(w)) == world_live(*old(w)).difference(orphan_targets(prior@, keep@)),
        world_seen(*final(w)) == world_seen(*old(w)),
        world_hier(*final(w)) == world_hier(*old(w)),
        forall|x: u64|
            !orphan_targets(prior@, keep@).contains(x) ==> #[trigger] comp_map(*final(w), x)
                == comp_map(*old(w), x),
        forall|x: u64|
            !orphan_targets(prior@, keep@).contains(x) ==> #[trigger] kid_list(*final(w), x)
                == kid_list(*old(w), x),
        forall|i: int|
            0 <= i < prior@.len() && !has_key(keep@, (#[trigger] prior@[i]).0@) ==> none_live(
                receipt_targets(prior@[i].1),
                *final(w),
            ),
{
    let ghost w0 = *old(w);
    let mut m: usize = 0;
    while m < prior.len()
        invariant
            0 <= m <= prior@.len(),
            world_live(*w) == world_live(w0).difference(
                orphan_targets(prior@.subrange(0, m as int), keep@),
            ),
            world_seen(*w) == world_seen(w0),
            world_hier(*w) == world_hier(w0),
            forall|x: u64|
                !orphan_targets(prior@.subrange(0, m as int), keep@).contains(x)
                    ==> #[trigger] comp_map(*w, x) == comp_map(w0, x),
            forall|x: u64|
                !orphan_targets(prior@.subrange(0, m as int), keep@).contains(x)
                    ==> #[trigger] kid_list(*w, x) == kid_list(w0, x),
            forall|t: u64|
                orphan_targets(prior@.subrange(0, m as int), keep@).contains(t)
                    ==> orphan_targets(prior@, keep@).contains(t),
        decreases prior@.len() - m,
    {
        let ghost pre = orphan_targets(prior@.subrange(0, m as int), keep@);
        let ghost post = orphan_targets(prior@.subrange(0, m + 1 as int), keep@);
        let hit = find_key(keep, &prior[m].0);
        proof {
            assert(prior@.subrange(0, m as int) =~= prior@.subrange(0, m + 1 as int).subrange(
                0,
                m as int,
            ));
            assert(prior@.subrange(0, m + 1 as int)[m as int] == prior@[m as int]);
        }
        match hit {
            Some(_) => {
                proof {
                    assert(has_key(keep@, prior@[m as int].0@));
                    assert forall|t: u64| post.contains(t) implies pre.contains(t) by {
                        let i = choose|i: int|
                            0 <= i < prior@.subrange(0, m + 1 as int).len() && !has_key(
                                keep@,
                                (#[trigger] prior@.subrange(0, m + 1 as int)[i]).0@,
                            ) && receipt_targets(prior@.subrange(0, m + 1 as int)[i].1).contains(t);
                        assert(i < m);
                        assert(prior@.subrange(0, m as int)[i] == prior@.subrange(0, m + 1 as int)[i]);
                    }
                    assert(pre =~= post);
                }
            },
            None => {
                destroy_receipt(w, &prior[m].1);
                proof {
                    assert(!has_key(keep@, prior@[m as int].0@));
                    assert forall|t: u64| post.contains(t) implies pre.union(
                        receipt_targets(prior@[m as int].1),
                    ).contains(t) by {
                        let i = choose|i: int|
                            0 <= i < prior@.subrange(0, m + 1 as int).len() && !has_key(
                                keep@,
                                (#[trigger] prior@.subrange(0, m + 1 as int)[i]).0@,
                            ) && receipt_targets(prior@.subrange(0, m + 1 as int)[i].1).contains(t);
                        if i < m {
                            assert(prior@.subrange(0, m as int)[i] == prior@.subrange(
                                0,
                                m + 1 as int,
                            )[i]);
                        }
                    }
                    assert forall|t: u64| pre.union(receipt_targets(prior@[m as int].1)).contains(
                        t,
                    ) implies post.contains(t) by {
                        if pre.contains(t) {
                            let i = choose|i: int|
                                0 <= i < prior@.subrange(0, m as int).len() && !has_key(
                                    keep@,
                                    (#[trigger] prior@.subrange(0, m as int)[i]).0@,
                                ) && receipt_targets(prior@.subrange(0, m as int)[i].1).contains(t);
                            assert(prior@.subrange(0, m + 1 as int)[i] == prior@.subrange(
                                0,
                                m as int,
                            )[i]);
                        } else {
                            assert(prior@.subrange(0, m + 1 as int)[m as int] == prior@[m as int]);
                        }
                    }
                    assert(post =~= pre.union(receipt_targets(prior@[m as int].1)));
                    assert(world_live(*w) =~= world_live(w0).difference(post));
                }
            },
        }
        m += 1;
    }
    proof {
        assert(prior@.subrange(0, prior@.len() as int) =~= prior@);
        assert forall|i: int|
            0 <= i < prior@.len() && !has_key(keep@, (#[trigger] prior@[i]).0@) implies none_live(
            receipt_targets(prior@[i].1),
            *w,
        ) by {
            assert forall|t: u64| receipt_targets(prior@[i].1).contains(t) implies !world_live(
                *w,
            ).contains(t) by {
                assert(orphan_targets(prior@, keep@).contains(t));
            }
        }
    }
}


/// Whether the prior receipt records an entity that is still alive, so the
/// build can reuse it instead of spawning.
pub open spec fn reused(r0: Receipt, w0: bevy_ecs::world::World) -> bool {
    match r0.target {
        Some(t) => world_live(w0).contains(t),
        None => false,
    }
}

/// Every id of `a` is in `b` or is newer than world `w0`: neither handed
/// out nor alive there.
pub open spec fn subset_or_new(a: Set<u64>, b: Set<u64>, w0: bevy_ecs::world::World) -> bool {
    forall|t: u64|
        #[trigger] a.contains(t) ==> b.contains(t) || (!world_seen(w0).contains(t)
            && !world_live(w0).contains(t))
}

/// Ids of `a` that were alive in `w0` are still alive in `w1`.
pub open spec fn targets_kept(
    a: Set<u64>,
    w0: bevy_ecs::world::World,
    w1: bevy_ecs::world::World,
) -> bool {
    forall|t: u64|
        #[trigger] a.contains(t) && world_live(w0).contains(t) ==> world_live(w1).contains(t)
}

/// The ids recorded under anchor key `key`, across all entries that carry it.
pub open spec fn key_targets(s: Seq<(Anchor, Receipt)>, key: AnchorKey) -> Set<u64> {
    Set::new(
        |t: u64|
            exists|i: int|
                0 <= i < s.len() && (#[trigger] s[i]).0@ == key && receipt_targets(
                    s[i].1,
                ).contains(t),
    )
}

/// What recorded ids an entry under a key can contribute to the whole list.
pub proof fn lemma_key_targets_sub(s: Seq<(Anchor, Receipt)>, key: AnchorKey)
    ensures
        key_targets(s, key).subset_of(list_targets(s)),
{
    assert forall|t: u64| key_targets(s, key).contains(t) implies list_targets(s).contains(
        t,
    ) by {
        let i = choose|i: int|
            0 <= i < s.len() && (#[trigger] s[i]).0@ == key && receipt_targets(
                s[i].1,
            ).contains(t);
        assert(receipt_targets(s[i].1).contains(t));
        lemma_list_targets_member(s, t);
    }
}

/// In a sound list every recorded id was handed out by the world.
pub proof fn lemma_list_targets_seen(s: Seq<(Anchor, Receipt)>, w: bevy_ecs::world::World)
    requires
        roots_ok(s, w),
    ensures
        forall|t: u64| #[trigger] list_targets(s).contains(t) ==> world_seen(w).contains(t),
{
    assert forall|t: u64| #[trigger] list_targets(s).contains(t) implies world_seen(w).contains(
        t,
    ) by {
        lemma_list_targets_member(s, t);
        let i = choose|i: int|
            0 <= i < s.len() && receipt_targets(#[trigger] s[i].1).contains(t);
        lemma_targets_seen(s[i].1, w);
    }
}

/// Soundness of a keyed list survives any evolution of the world that hands
/// out new ids only, keeps the bookkeeping ids, and revives nothing.
pub proof fn lemma_roots_ok_preserved(
    s: Seq<(Anchor, Receipt)>,
    w0: bevy_ecs::world::World,
    w1: bevy_ecs::world::World,
)
    requires
        roots_ok(s, w0),
        world_seen(w0).subset_of(world_seen(w1)),
        world_hier(w1) == world_hier(w0),
        forall|x: u64|
            world_live(w1).contains(x) ==> world_live(w0).contains(x) || !world_seen(
                w0,
            ).contains(x),
    ensures
        roots_ok(s, w1),
{
    assert forall|i: int| 0 <= i < s.len() implies receipt_ok((#[trigger] s[i]).1, w1) by {
        lemma_receipt_ok_preserved(s[i].1, w0, w1);
    }
    assert forall|i: int, j: int| 0 <= i < j < s.len() implies live_disjoint(
        receipt_targets(s[i].1),
        receipt_targets(s[j].1),
        w1,
    ) by {
        lemma_targets_seen(s[i].1, w0);
        assert(live_disjoint(receipt_targets(s[i].1), receipt_targets(s[j].1), w0));
    }
}

/// Everything one reconciliation of one node against its receipt promises:
/// the new receipt describes the node as now realized; the prior target is
/// kept whenever it is still alive, else the target is a fresh entity; the
/// target carries exactly the prior components minus the ids no longer
/// contributed, overlaid with the payload; subtrees whose anchor is gone
/// are destroyed; entities the prior receipt does not record are untouched;
/// and reconciling an already-faithful receipt mutates nothing.
pub open spec fn apply_effect<P: Payload>(
    n: Node<P>,
    r0: Receipt,
    w0: bevy_ecs::world::World,
    e: u64,
    r1: Receipt,
    w1: bevy_ecs::world::World,
) -> bool {
    &&& built_node(n, r1, w1)
    &&& receipt_ok(r1, w1)
    &&& r1.target == Some(e)
    &&& world_seen(w1).contains(e)
    &&& if reused(r0, w0) {
        e == target_of(r0)
    } else {
        !world_seen(w0).contains(e) && !world_live(w0).contains(e)
    }
    &&& comp_map(w1, e) == (if reused(r0, w0) {
        comp_map(w0, e)
    } else {
        no_comps()
    }).remove_keys(applied_ids(r0).difference(n.payload.data().dom())).union_prefer_right(
        n.payload.data(),
    )
    &&& forall|i: int|
        0 <= i < r0.children@.len() && !anchor_hit(n.children@, (#[trigger] r0.children@[i]).0@)
            ==> none_live(receipt_targets(r0.children@[i].1), w1)
    &&& forall|k: int, i: int|
        0 <= k < n.children@.len() && 0 <= i < r0.children@.len() && (
        #[trigger] r0.children@[i]).0@ == anchor_at(n.children@, k)
            && r0.children@[i].1.target is Some && world_live(w0).contains(
            target_of(r0.children@[i].1),
        ) ==> (#[trigger] r1.children@[k]).1.target == r0.children@[i].1.target
    &&& preserved_outside(w0, w1, receipt_targets(r0).insert(e))
    &&& forall|x: u64|
        world_live(w0).contains(x) && !receipt_targets(r0).contains(x)
            ==> #[trigger] world_live(w1).contains(x)
    &&& forall|x: u64|
        #[trigger] world_live(w1).contains(x) ==> world_live(w0).contains(x) || !world_seen(
            w0,
        ).contains(x)
    &&& subset_or_new(receipt_targets(r1), receipt_targets(r0).insert(e), w0)
    &&& forall|x: u64|
        world_live(w0).contains(x) && !receipt_targets(r0).contains(x) && x != e
            ==> #[trigger] comp_map(w1, x) == comp_map(w0, x)
    &&& (built_node(n, r0, w0) ==> world_live(w1) == world_live(w0) && world_seen(w1)
        == world_seen(w0) && (forall|x: u64| #[trigger] comp_map(w1, x) == comp_map(w0, x))
        && same_identity(r1, r0))
}

/// Everything reconciling one ordered sibling list against its keyed
/// receipts promises. Orphan removal is not part of this step: the caller
/// destroys the entries whose anchor was not revisited.
pub open spec fn children_effect<P: Payload>(
    nodes: Seq<Node<P>>,
    prior: Seq<(Anchor, Receipt)>,
    w0: bevy_ecs::world::World,
    handles: Seq<u64>,
    newc: Seq<(Anchor, Receipt)>,
    w1: bevy_ecs::world::World,
) -> bool {
    &&& handles.len() == nodes.len()
    &&& list_built(nodes, newc, w1)
    &&& roots_ok(newc, w1)
    &&& forall|k: int| 0 <= k < nodes.len() ==> #[trigger] handles[k] == target_of(newc[k].1)
    &&& forall|k: int, i: int|
        0 <= k < nodes.len() && 0 <= i < prior.len() && (#[trigger] prior[i]).0@ == anchor_at(
            nodes,
            k,
        ) && prior[i].1.target is Some && world_live(w0).contains(target_of(prior[i].1)) ==> (
        #[trigger] newc[k]).1.target == prior[i].1.target
    &&& preserved_outside(w0, w1, list_targets(prior))
    &&& forall|x: u64|
        world_live(w0).contains(x) && !list_targets(prior).contains(x)
            ==> #[trigger] world_live(w1).contains(x)
    &&& forall|x: u64|
        #[trigger] world_live(w1).contains(x) ==> world_live(w0).contains(x) || !world_seen(
            w0,
        ).contains(x)
    &&& forall|k: int|
        0 <= k < nodes.len() ==> subset_or_new(
            receipt_targets((#[trigger] newc[k]).1),
            key_targets(prior, anchor_at(nodes, k)),
            w0,
        )
    &&& forall|x: u64|
        world_live(w0).contains(x) && !list_targets(prior).contains(x)
            ==> #[trigger] comp_map(w1, x) == comp_map(w0, x)
    &&& (list_built(nodes, prior, w0) ==> world_live(w1) == world_live(w0) && world_seen(w1)
        == world_seen(w0) && (forall|x: u64| #[trigger] comp_map(w1, x) == comp_map(w0, x))
        && list_same(newc, prior))
}


/// Reconcile one ordered sibling list: resolve each node's anchor, look up
/// (or default) its receipt among `prior`, recurse, and collect the child
/// entities and new receipts in authored order. Orphaned entries of
/// `prior` are left for the caller to destroy.
pub fn apply_children<P: Payload>(
    w: &mut bevy_ecs::world::World,
    nodes: &Vec<Node<P>>,
    prior: &Vec<(Anchor, Receipt)>,
) -> (res: (Vec<u64>, Vec<(Anchor, Receipt)>))
    requires
        distinct_anchors(nodes@),
        forall|i: int| 0 <= i < nodes@.len() ==> wf_node(#[trigger] nodes@[i]),
        roots_ok(prior@, *old(w)),
    ensures
        children_effect(nodes@, prior@, *old(w), res.0@, res.1@, *final(w)),
    decreases nodes@,
{
    let ghost w0 = *old(w);
    let ghost tp = list_targets(prior@);
    let mut handles: Vec<u64> = Vec::new();
    let mut newc: Vec<(Anchor, Receipt)> = Vec::new();
    let mut auto_ctr: usize = 0;
    let ghost mut used: Seq<int> = Seq::empty();
    let mut j: usize = 0;
    proof {
        lemma_list_targets_seen(prior@, w0);
    }
    while j < nodes.len()
        invariant
            0 <= j <= nodes@.len(),
            handles@.len() == j,
            newc@.len() == j,
            used.len() == j,
            auto_ctr <= j,
            auto_ctr == unnamed_before(nodes@, j as int),
            distinct_anchors(nodes@),
            forall|i: int| 0 <= i < nodes@.len() ==> wf_node(#[trigger] nodes@[i]),
            roots_ok(prior@, w0),
            tp == list_targets(prior@),
            forall|t: u64| #[trigger] tp.contains(t) ==> world_seen(w0).contains(t),
            forall|k: int| 0 <= k < j ==> (#[trigger] newc@[k]).0@ == anchor_at(nodes@, k),
            forall|k: int|
                0 <= k < j ==> built_node(nodes@[k], (#[trigger] newc@[k]).1, *w),
            forall|k: int| 0 <= k < j ==> receipt_ok((#[trigger] newc@[k]).1, *w),
            forall|k: int|
                0 <= k < j ==> #[trigger] handles@[k] == target_of(newc@[k].1),
            forall|k: int, l: int|
                0 <= k < l < j ==> live_disjoint(
                    receipt_targets((#[trigger] newc@[k]).1),
                    receipt_targets((#[trigger] newc@[l]).1),
                    *w,
                ),
            forall|k: int|
                0 <= k < j ==> subset_or_new(
                    receipt_targets((#[trigger] newc@[k]).1),
                    key_targets(prior@, anchor_at(nodes@, k)),
                    w0,
                ),
            forall|k: int|
                0 <= k < j ==> (#[trigger] used[k] == -1 && !has_key(
                    prior@,
                    anchor_at(nodes@, k),
                )) || (0 <= used[k] < prior@.len() && prior@[used[k]].0@ == anchor_at(nodes@, k)),
            forall|i: int|
                0 <= i < prior@.len() && !used.contains(i) ==> targets_kept(
                    receipt_targets((#[trigger] prior@[i]).1),
                    w0,
                    *w,
                ),
            preserved_outside(w0, *w, tp),
            forall|x: u64|
                world_live(w0).contains(x) && !tp.contains(x) ==> #[trigger] world_live(
                    *w,
                ).contains(x),
            forall|x: u64|
                #[trigger] world_live(*w).contains(x) ==> world_live(w0).contains(x)
                    || !world_seen(w0).contains(x),
            forall|x: u64|
                world_live(w0).contains(x) && !tp.contains(x) ==> #[trigger] comp_map(*w, x)
                    == comp_map(w0, x),
            forall|k: int, i: int|
                0 <= k < j && 0 <= i < prior@.len() && (#[trigger] prior@[i]).0@ == anchor_at(
                    nodes@,
                    k,
                ) && prior@[i].1.target is Some && world_live(w0).contains(
                    target_of(prior@[i].1),
                ) ==> (#[trigger] newc@[k]).1.target == prior@[i].1.target,
            list_built(nodes@, prior@, w0) ==> world_live(*w) == world_live(w0) && world_seen(*w)
                == world_seen(w0) && (forall|x: u64|
                #[trigger] comp_map(*w, x) == comp_map(w0, x)) && preserved_outside(
                w0,
                *w,
                list_targets(prior@.subrange(0, j as int)),
            ) && (forall|k: int|
                0 <= k < j ==> same_identity((#[trigger] newc@[k]).1, prior@[k].1)),
        decreases nodes@.len() - j,
    {
        let ghost wpre = *w;
        let child = &nodes[j];
        let anchor: Anchor = match &child.anchor {
            Some(name) => Anchor::Named(name.clone()),
            None => {
                let a = Anchor::Auto(auto_ctr);
                auto_ctr += 1;
                a
            },
        };
        proof {
            assert(unnamed_before(nodes@, j + 1 as int) == unnamed_before(nodes@, j as int) + (
            if nodes@[j as int].anchor is None {
                1int
            } else {
                0int
            }));
            assert(anchor@ == anchor_at(nodes@, j as int));
        }
        let fresh_receipt = Receipt::new();
        let idx_opt = find_key(prior, &anchor);
        let child_r0: &Receipt;
        let ghost used_k: int;
        match idx_opt {
            Some(i) => {
                child_r0 = &prior[i].1;
                proof {
                    used_k = i as int;
                }
            },
            None => {
                child_r0 = &fresh_receipt;
                proof {
                    used_k = -1;
                }
            },
        }
        proof {
            // the prior entry for this anchor is sound in the current world
            if used_k >= 0 {
                assert(receipt_ok(prior@[used_k].1, w0));
                lemma_receipt_ok_preserved(prior@[used_k].1, w0, *w);
                lemma_targets_seen(prior@[used_k].1, w0);
            } else {
                assert(receipt_targets(*child_r0) =~= Set::<u64>::empty());
                assert(roots_ok(fresh_receipt.children@, *w));
                assert(receipt_ok(*child_r0, *w));
            }
            // this entry was not consumed by an earlier sibling
            if used_k >= 0 && used.contains(used_k) {
                let k = choose|k: int| 0 <= k < used.len() && used[k] == used_k;
                assert(prior@[used_k].0@ == anchor_at(nodes@, k));
                assert(anchor_at(nodes@, k) != anchor_at(nodes@, j as int));
                assert(false);
            }
            // its targets that were alive at entry are still alive
            if used_k >= 0 {
                assert(targets_kept(receipt_targets(prior@[used_k].1), w0, *w));
            }
            assert(wf_node(nodes@[j as int]));
            assert(decreases_to!(nodes@ => nodes@[j as int]));
        }
        let (ce, cr1) = apply_node(w, child, child_r0);
        proof {
            let ct = receipt_targets(*child_r0);
            assert(apply_effect(nodes@[j as int], *child_r0, wpre, ce, cr1, *w));
            // targets of the consumed entry stay within the prior list
            assert forall|t: u64| #[trigger] ct.contains(t) implies tp.contains(t) by {
                assert(used_k >= 0);
                lemma_list_targets_member(prior@, t);
            }
            // the new subtree records only entry ids or fresh ids
            assert forall|t: u64| #[trigger] receipt_targets(cr1).contains(t) implies
                key_targets(prior@, anchor_at(nodes@, j as int)).contains(t) || (!world_seen(
                w0,
            ).contains(t) && !world_live(w0).contains(t)) by {
                if world_seen(w0).contains(t) || world_live(w0).contains(t) {
                    assert(world_seen(w0).subset_of(world_seen(wpre)));
                    if world_live(w0).contains(t) && !world_seen(w0).contains(t) {
                        if !tp.contains(t) {
                            assert(world_live(wpre).contains(t));
                        } else {
                            assert(false);
                        }
                    }
                    assert(ct.contains(t) || t == ce || (!world_seen(wpre).contains(t)
                        && !world_live(wpre).contains(t)));
                    if t == ce {
                        assert(reused(*child_r0, wpre));
                        assert(ct.contains(t));
                    }
                    assert(ct.contains(t));
                    assert(used_k >= 0);
                    assert(prior@[used_k].0@ == anchor_at(nodes@, j as int));
                    assert(key_targets(prior@, anchor_at(nodes@, j as int)).contains(t));
                }
            }
            // entities alive at entry and not recorded keep their components
            assert forall|x: u64|
                world_live(w0).contains(x) && !tp.contains(x) implies #[trigger] comp_map(
                *w,
                x,
            ) == comp_map(w0, x) by {
                assert(world_live(wpre).contains(x));
                assert(!ct.contains(x));
                if x == ce {
                    if reused(*child_r0, wpre) {
                        assert(ct.contains(x));
                        assert(false);
                    } else {
                        assert(!world_live(wpre).contains(ce));
                        assert(false);
                    }
                }
                assert(comp_map(*w, x) == comp_map(wpre, x));
            }
            // frame from entry to now, along the prior list's ids
            assert(preserved_outside(wpre, *w, ct.insert(ce)));
            assert forall|x: u64| #[trigger] ct.insert(ce).contains(x) implies tp.contains(x)
                || !known(wpre, x) by {
                if x == ce {
                    if reused(*child_r0, wpre) {
                        assert(ct.contains(x));
                    }
                }
                if ct.contains(x) {
                    assert(tp.contains(x));
                }
            }
            lemma_preserved_shrink(wpre, *w, ct.insert(ce), tp);
            lemma_preserved_trans(w0, wpre, *w, tp);
            // earlier siblings' subtrees are untouched by this step
            assert forall|k: int| 0 <= k < j implies built_node(
                nodes@[k],
                (#[trigger] newc@[k]).1,
                *w,
            ) && receipt_ok(newc@[k].1, *w) by {
                assert(built_node(nodes@[k], newc@[k].1, wpre));
                assert(receipt_ok(newc@[k].1, wpre));
                lemma_targets_seen(newc@[k].1, wpre);
                lemma_built_kids(nodes@[k], newc@[k].1, wpre);
                assert forall|t: u64| #[trigger] receipt_targets(newc@[k].1).contains(
                    t,
                ) implies !ct.insert(ce).contains(t) by {
                    assert(world_live(wpre).contains(t));
                    assert(world_seen(wpre).contains(t));
                    if t == ce {
                        if !reused(*child_r0, wpre) {
                            assert(!world_seen(wpre).contains(ce));
                            assert(false);
                        }
                    }
                    if ct.contains(t) {
                        // both recorded and alive: contradicts soundness at entry
                        assert(used_k >= 0);
                        assert(subset_or_new(
                            receipt_targets(newc@[k].1),
                            key_targets(prior@, anchor_at(nodes@, k)),
                            w0,
                        ));
                        assert(world_seen(w0).contains(t));
                        assert(world_live(w0).contains(t));
                        assert(key_targets(prior@, anchor_at(nodes@, k)).contains(t));
                        let i2 = choose|i2: int|
                            0 <= i2 < prior@.len() && (#[trigger] prior@[i2]).0@ == anchor_at(
                                nodes@,
                                k,
                            ) && receipt_targets(prior@[i2].1).contains(t);
                        assert(anchor_at(nodes@, k) != anchor_at(nodes@, j as int));
                        assert(i2 != used_k);
                        if i2 < used_k {
                            assert(live_disjoint(
                                receipt_targets(prior@[i2].1),
                                receipt_targets(prior@[used_k].1),
                                w0,
                            ));
                        } else {
                            assert(live_disjoint(
                                receipt_targets(prior@[used_k].1),
                                receipt_targets(prior@[i2].1),
                                w0,
                            ));
                        }
                        assert(false);
                    }
                }
                lemma_built_preserved(nodes@[k], newc@[k].1, wpre, *w, ct.insert(ce));
                lemma_receipt_ok_preserved(newc@[k].1, wpre, *w);
            }
            // unconsumed entries keep their live targets
            assert forall|i: int|
                0 <= i < prior@.len() && !used.push(used_k).contains(i) implies targets_kept(
                receipt_targets((#[trigger] prior@[i]).1),
                w0,
                *w,
            ) by {
                if used.contains(i) {
                    let k = choose|k: int| 0 <= k < used.len() && used[k] == i;
                    assert(used.push(used_k)[k] == i);
                    assert(used.push(used_k).contains(i));
                }
                assert(!used.contains(i));
                assert(i != used_k) by {
                    assert(used.push(used_k)[used.len() as int] == used_k);
                }
                assert forall|t: u64|
                    #[trigger] receipt_targets(prior@[i].1).contains(t) && world_live(
                        w0,
                    ).contains(t) implies world_live(*w).contains(t) by {
                    assert(world_live(wpre).contains(t));
                    if ct.contains(t) {
                        assert(used_k >= 0);
                        if i < used_k {
                            assert(live_disjoint(
                                receipt_targets(prior@[i].1),
                                receipt_targets(prior@[used_k].1),
                                w0,
                            ));
                        } else {
                            assert(live_disjoint(
                                receipt_targets(prior@[used_k].1),
                                receipt_targets(prior@[i].1),
                                w0,
                            ));
                        }
                        assert(false);
                    }
                    assert(world_live(*w).contains(t));
                }
            }
            // old pairs stay separated as the live set evolves
            assert forall|k: int, l: int| 0 <= k < l < j implies live_disjoint(
                receipt_targets((#[trigger] newc@[k]).1),
                receipt_targets((#[trigger] newc@[l]).1),
                *w,
            ) by {
                assert(live_disjoint(
                    receipt_targets(newc@[k].1),
                    receipt_targets(newc@[l].1),
                    wpre,
                ));
                assert(receipt_ok(newc@[k].1, wpre));
                lemma_targets_seen(newc@[k].1, wpre);
                assert forall|t: u64|
                    receipt_targets(newc@[k].1).contains(t) && receipt_targets(
                        newc@[l].1,
                    ).contains(t) implies !world_live(*w).contains(t) by {
                    assert(!world_live(wpre).contains(t));
                    assert(world_seen(wpre).contains(t));
                }
            }
            // pairwise separation with the new subtree
            assert forall|k: int| 0 <= k < j implies live_disjoint(
                receipt_targets((#[trigger] newc@[k]).1),
                receipt_targets(cr1),
                *w,
            ) by {
                assert forall|t: u64|
                    receipt_targets(newc@[k].1).contains(t) && receipt_targets(cr1).contains(
                        t,
                    ) implies !world_live(*w).contains(t) by {
                    if world_live(*w).contains(t) {
                        assert(built_node(nodes@[k], newc@[k].1, wpre));
                        assert(receipt_ok(newc@[k].1, wpre));
                        lemma_targets_seen(newc@[k].1, wpre);
                        assert(world_seen(wpre).contains(t));
                        assert(ct.contains(t) || t == ce);
                        if t == ce {
                            if !reused(*child_r0, wpre) {
                                assert(!world_seen(wpre).contains(ce));
                                assert(false);
                            }
                            assert(ct.contains(t));
                        }
                        lemma_built_kids(nodes@[k], newc@[k].1, wpre);
                        assert(world_live(wpre).contains(t));
                        assert(world_live(w0).contains(t) || !world_seen(w0).contains(t));
                        assert(used_k >= 0);
                        assert(world_seen(w0).contains(t));
                        assert(world_live(w0).contains(t));
                        assert(subset_or_new(
                            receipt_targets(newc@[k].1),
                            key_targets(prior@, anchor_at(nodes@, k)),
                            w0,
                        ));
                        assert(key_targets(prior@, anchor_at(nodes@, k)).contains(t));
                        let i2 = choose|i2: int|
                            0 <= i2 < prior@.len() && (#[trigger] prior@[i2]).0@ == anchor_at(
                                nodes@,
                                k,
                            ) && receipt_targets(prior@[i2].1).contains(t);
                        assert(i2 != used_k);
                        if i2 < used_k {
                            assert(live_disjoint(
                                receipt_targets(prior@[i2].1),
                                receipt_targets(prior@[used_k].1),
                                w0,
                            ));
                        } else {
                            assert(live_disjoint(
                                receipt_targets(prior@[used_k].1),
                                receipt_targets(prior@[i2].1),
                                w0,
                            ));
                        }
                        assert(false);
                    }
                }
            }
            // identity: a matching prior entry with a live target was reused
            if used_k >= 0 && prior@[used_k].1.target is Some && world_live(w0).contains(
                target_of(prior@[used_k].1),
            ) {
                let t = target_of(prior@[used_k].1);
                assert(receipt_targets(prior@[used_k].1).contains(t));
                assert(world_live(wpre).contains(t));
                assert(reused(*child_r0, wpre));
                assert(cr1.target == Some(t));
            }
            // idempotence path
            if list_built(nodes@, prior@, w0) {
                assert(prior@.len() == nodes@.len());
                assert(prior@[j as int].0@ == anchor_at(nodes@, j as int));
                assert(has_key(prior@, anchor_at(nodes@, j as int)));
                assert(used_k >= 0);
                assert(used_k == j as int) by {
                    if used_k != j as int {
                        assert(prior@[used_k].0@ == anchor_at(nodes@, j as int));
                        assert(prior@[j as int].0@ == anchor_at(nodes@, j as int));
                        if used_k < j as int {
                            assert(prior@[used_k].0@ != prior@[j as int].0@);
                        } else {
                            assert(prior@[j as int].0@ != prior@[used_k].0@);
                        }
                        assert(false);
                    }
                }
                assert(built_node(nodes@[j as int], prior@[j as int].1, w0));
                assert(receipt_ok(prior@[j as int].1, w0));
                lemma_targets_seen(prior@[j as int].1, w0);
                lemma_built_kids(nodes@[j as int], prior@[j as int].1, w0);
                let pfx = list_targets(prior@.subrange(0, j as int));
                assert forall|x: u64| #[trigger] receipt_targets(
                    prior@[j as int].1,
                ).contains(x) implies world_live(wpre).contains(x) == world_live(w0).contains(x)
                    && comp_map(wpre, x) == comp_map(w0, x) && kid_list(wpre, x) == kid_list(
                    w0,
                    x,
                ) by {
                    assert(world_seen(w0).contains(x));
                    assert(!pfx.contains(x)) by {
                        if pfx.contains(x) {
                            lemma_list_targets_member(prior@.subrange(0, j as int), x);
                            let p = choose|p: int|
                                0 <= p < prior@.subrange(0, j as int).len() && receipt_targets(
                                    #[trigger] prior@.subrange(0, j as int)[p].1,
                                ).contains(x);
                            assert(prior@.subrange(0, j as int)[p] == prior@[p]);
                            assert(world_live(w0).contains(x));
                            assert(live_disjoint(
                                receipt_targets(prior@[p].1),
                                receipt_targets(prior@[j as int].1),
                                w0,
                            ));
                            assert(false);
                        }
                    }
                    assert forall|y: u64| kid_list(w0, x).to_set().contains(y) implies world_seen(
                        w0,
                    ).difference(pfx).contains(y) by {
                        assert(receipt_targets(prior@[j as int].1).contains(y));
                        assert(world_live(w0).contains(y));
                        if pfx.contains(y) {
                            lemma_list_targets_member(prior@.subrange(0, j as int), y);
                            let p = choose|p: int|
                                0 <= p < prior@.subrange(0, j as int).len() && receipt_targets(
                                    #[trigger] prior@.subrange(0, j as int)[p].1,
                                ).contains(y);
                            assert(prior@.subrange(0, j as int)[p] == prior@[p]);
                            assert(live_disjoint(
                                receipt_targets(prior@[p].1),
                                receipt_targets(prior@[j as int].1),
                                w0,
                            ));
                            assert(false);
                        }
                    }
                }
                lemma_built_pointwise(nodes@[j as int], prior@[j as int].1, w0, wpre);
                assert(built_node(nodes@[j as int], *child_r0, wpre));
                assert(world_live(*w) == world_live(wpre) && world_seen(*w) == world_seen(wpre));
                assert(same_identity(cr1, *child_r0));
                // the frame now also spares this entry's subtree
                lemma_prefix_targets(prior@, j as int);
                assert(ce == target_of(*child_r0));
                assert(receipt_targets(*child_r0).contains(ce));
                assert(preserved_outside(wpre, *w, ct.insert(ce)));
                lemma_preserved_mono(
                    wpre,
                    *w,
                    ct.insert(ce),
                    list_targets(prior@.subrange(0, j + 1 as int)),
                );
                lemma_preserved_mono(
                    w0,
                    wpre,
                    pfx,
                    list_targets(prior@.subrange(0, j + 1 as int)),
                );
                lemma_preserved_trans(
                    w0,
                    wpre,
                    *w,
                    list_targets(prior@.subrange(0, j + 1 as int)),
                );
            }
        }
        handles.push(ce);
        newc.push((anchor, cr1));
        proof {
            used = used.push(used_k);
        }
        j += 1;
    }
    proof {
        assert forall|k: int, l: int| 0 <= k < l < newc@.len() implies newc@[k].0@
            != newc@[l].0@ by {
            assert(newc@[k].0@ == anchor_at(nodes@, k));
            assert(newc@[l].0@ == anchor_at(nodes@, l));
        }
        if list_built(nodes@, prior@, w0) {
            assert(list_same(newc@, prior@)) by {
                assert forall|i: int| 0 <= i < newc@.len() implies (#[trigger] newc@[i]).0@
                    == prior@[i].0@ && same_identity(newc@[i].1, prior@[i].1) by {
                    assert(newc@[i].0@ == anchor_at(nodes@, i));
                    assert(prior@[i].0@ == anchor_at(nodes@, i));
                }
            }
        }
    }
    (handles, newc)
}


/// Compose a frame step whose exceptions are, from `w0`'s point of view,
/// either already excepted or never handed out.
pub proof fn lemma_preserved_step(
    w0: bevy_ecs::world::World,
    wa: bevy_ecs::world::World,
    wb: bevy_ecs::world::World,
    big: Set<u64>,
    small: Set<u64>,
)
    requires
        preserved_outside(w0, wa, small),
        preserved_outside(wa, wb, big),
        forall|y: u64| #[trigger] big.contains(y) ==> small.contains(y) || !known(w0, y),
    ensures
        preserved_outside(w0, wb, small),
{
    assert forall|x: u64|
        known(w0, x) && !small.contains(x) implies #[trigger] world_live(wb).contains(x)
            == world_live(w0).contains(x) by {
        assert(!big.contains(x));
        assert(known(wa, x));
        assert(world_live(wa).contains(x) == world_live(w0).contains(x));
    }
    assert forall|x: u64|
        known(w0, x) && !small.contains(x) implies #[trigger] comp_map(wb, x) == comp_map(
        w0,
        x,
    ) by {
        assert(!big.contains(x));
        assert(known(wa, x));
        assert(comp_map(wa, x) == comp_map(w0, x));
    }
    assert forall|x: u64|
        known(w0, x) && !small.contains(x) && (forall|y: u64|
            #[trigger] kid_list(w0, x).to_set().contains(y) ==> known(w0, y)
                && !small.contains(y)) implies kid_list(wb, x) == kid_list(w0, x) by {
        assert(!big.contains(x));
        assert(known(wa, x));
        assert(kid_list(wa, x) == kid_list(w0, x));
        assert forall|y: u64| #[trigger] kid_list(wa, x).to_set().contains(y) implies known(
            wa,
            y,
        ) && !big.contains(y) by {
            assert(kid_list(w0, x).to_set().contains(y));
            assert(known(w0, y) && !small.contains(y));
        }
    }
}

/// Reconcile one node against its receipt on the store: reuse or spawn the
/// target, overwrite the payload's components, drop the component ids no
/// longer contributed, rebuild the children, set the child list to the
/// authored order, and destroy orphaned subtrees.
pub fn apply_node<P: Payload>(
    w: &mut bevy_ecs::world::World,
    node: &Node<P>,
    r0: &Receipt,
) -> (res: (u64, Receipt))
    requires
        wf_node(*node),
        receipt_ok(*r0, *old(w)),
    ensures
        apply_effect(*node, *r0, *old(w), res.0, res.1, *final(w)),
    decreases *node,
{
    let ghost w0 = *old(w);
    let ghost t0 = receipt_targets(*r0);
    proof {
        lemma_targets_seen(*r0, w0);
    }
    // 1. resolve the target entity
    let e: u64;
    let mut was_reused = false;
    match r0.target {
        Some(t) => {
            if is_live(w, t) {
                e = t;
                was_reused = true;
            } else {
                e = spawn_empty(w);
            }
        },
        None => {
            e = spawn_empty(w);
        },
    }
    let ghost te = t0.insert(e);
    let ghost wa = *w;
    proof {
        assert(was_reused == reused(*r0, w0));
        assert(world_live(wa).contains(e));
        if was_reused {
            assert(t0.contains(e));
            assert(world_seen(wa).contains(e));
        }
        assert(world_seen(wa).contains(e));
        assert(preserved_outside(w0, wa, te));
    }
    // 2. the component ids this payload contributes
    let ids = node.payload.type_ids(w);
    // 3. overwrite the payload's component values
    node.payload.apply(w, e);
    // 4. remove what the prior build applied but this one does not
    proof {
        assert forall|id: usize| r0.applied@.contains(id) implies !world_hier(*w).contains(
            id,
        ) by {
            assert(applied_ids(*r0).contains(id));
        }
    }
    remove_stale(w, e, &r0.applied, &ids);
    let ghost wb = *w;
    let ghost data = node.payload.data();
    let ghost base = if reused(*r0, w0) {
        comp_map(w0, e)
    } else {
        no_comps()
    };
    let ghost delta = base.remove_keys(applied_ids(*r0).difference(data.dom())).union_prefer_right(
        data,
    );
    proof {
        assert(comp_map(wa, e) == base);
        let stale = applied_ids(*r0).difference(data.dom());
        assert(ids@.to_set() == data.dom());
        assert(comp_map(wb, e) == base.union_prefer_right(data).remove_keys(stale));
        assert forall|k: usize|
            #[trigger] comp_map(wb, e).dom().contains(k) || delta.dom().contains(k) implies
            (comp_map(wb, e).dom().contains(k) <==> delta.dom().contains(k)) && (comp_map(
            wb,
            e,
        ).dom().contains(k) ==> comp_map(wb, e)[k] == delta[k]) by {
            if data.dom().contains(k) {
                assert(!stale.contains(k));
            }
        }
        assert(comp_map(wb, e) =~= delta);
        assert(preserved_outside(wa, wb, Set::empty().insert(e)));
        lemma_preserved_step(w0, wa, wb, Set::empty().insert(e), te);
        assert(world_live(wb) == world_live(wa));
        assert(forall|x: u64|
            #[trigger] world_live(wb).contains(x) ==> world_live(w0).contains(x) || !world_seen(
                w0,
            ).contains(x));
        // the children's receipts are sound in the current world
        assert(roots_ok(r0.children@, w0));
        lemma_roots_ok_preserved(r0.children@, w0, wb);
        assert(distinct_anchors(node.children@));
        assert(decreases_to!(*node => node.children@));
    }
    // 5. rebuild the children
    let (handles, newc) = apply_children(w, &node.children, &r0.children);
    let ghost wc = *w;
    let ghost tc = list_targets(r0.children@);
    proof {
        assert(children_effect(node.children@, r0.children@, wb, handles@, newc@, wc));
        assert forall|t: u64| #[trigger] tc.contains(t) implies t0.contains(t) by {}
        lemma_list_targets_seen(r0.children@, w0);
        // e is recorded in no child entry
        assert(!tc.contains(e)) by {
            if tc.contains(e) {
                lemma_list_targets_member(r0.children@, e);
                let i = choose|i: int|
                    0 <= i < r0.children@.len() && receipt_targets(
                        #[trigger] r0.children@[i].1,
                    ).contains(e);
                if was_reused {
                    assert(!receipt_targets(r0.children@[i].1).contains(target_of(*r0)));
                } else {
                    assert(world_seen(w0).contains(e));
                }
                assert(false);
            }
        }
        // e survives the children pass untouched
        assert(world_live(wc).contains(e));
        assert(world_seen(wb).contains(e));
        assert(comp_map(wc, e) == delta);
        lemma_preserved_step(w0, wb, wc, tc, te);
        // each new subtree avoids e
        assert forall|k: int| 0 <= k < newc@.len() implies !receipt_targets(
            (#[trigger] newc@[k]).1,
        ).contains(e) by {
            if receipt_targets(newc@[k].1).contains(e) {
                assert(key_targets(r0.children@, anchor_at(node.children@, k)).contains(e)
                    || !world_seen(wb).contains(e));
                lemma_key_targets_sub(r0.children@, anchor_at(node.children@, k));
                assert(false);
            }
        }
    }
    // 6. the child list, in authored order
    take_children(w, e);
    let ghost wd = *w;
    proof {
        assert(preserved_outside(wc, wd, Set::empty().insert(e)));
        lemma_preserved_step(w0, wc, wd, Set::empty().insert(e), te);
        assert forall|k: int| 0 <= k < newc@.len() implies built_node(
            node.children@[k],
            (#[trigger] newc@[k]).1,
            wd,
        ) && receipt_ok(newc@[k].1, wd) by {
            assert(built_node(node.children@[k], newc@[k].1, wc));
            assert(receipt_ok(newc@[k].1, wc));
            assert forall|x: u64| #[trigger] receipt_targets(newc@[k].1).contains(x) implies
                world_live(wd).contains(x) == world_live(wc).contains(x) && comp_map(wd, x)
                == comp_map(wc, x) && kid_list(wd, x) == kid_list(wc, x) by {
                assert(x != e);
            }
            lemma_built_pointwise(node.children@[k], newc@[k].1, wc, wd);
            lemma_receipt_ok_preserved(newc@[k].1, wc, wd);
        }
        // the handles are alive, distinct, and none is e
        assert forall|k: int| 0 <= k < handles@.len() implies world_live(wd).contains(
            #[trigger] handles@[k],
        ) && handles@[k] != e by {
            assert(handles@[k] == target_of(newc@[k].1));
            assert(built_node(node.children@[k], newc@[k].1, wd));
            assert(receipt_targets(newc@[k].1).contains(handles@[k]));
        }
        assert forall|k: int, l: int| 0 <= k < l < handles@.len() implies #[trigger] handles@[k]
            != #[trigger] handles@[l] by {
            assert(receipt_targets(newc@[k].1).contains(handles@[k]));
            assert(receipt_targets(newc@[l].1).contains(handles@[l]));
            assert(world_live(wd).contains(handles@[k]));
            assert(world_live(wc).contains(handles@[k]) && world_live(wc).contains(handles@[l]));
            assert(live_disjoint(
                receipt_targets(newc@[k].1),
                receipt_targets(newc@[l].1),
                wc,
            ));
        }
        assert(handles@.no_duplicates());
        assert(kid_list(wd, e) == Seq::<u64>::empty());
    }
    add_children(w, e, &handles);
    let ghost we = *w;
    proof {
        let hs = handles@.to_set();
        // a handle is an old recorded id or newer than the start
        assert forall|y: u64| #[trigger] hs.contains(y) implies te.contains(y) || !known(
            w0,
            y,
        ) by {
            let k = choose|k: int| 0 <= k < handles@.len() && handles@[k] == y;
            assert(receipt_targets(newc@[k].1).contains(y));
            if world_seen(w0).contains(y) || world_live(w0).contains(y) {
                assert(key_targets(r0.children@, anchor_at(node.children@, k)).contains(y));
                lemma_key_targets_sub(r0.children@, anchor_at(node.children@, k));
                assert(tc.contains(y));
            }
        }
        assert(preserved_outside(wd, we, hs.insert(e))) by {
            assert forall|x: u64|
                known(wd, x) && !hs.insert(e).contains(x) && (forall|y: u64|
                    #[trigger] kid_list(wd, x).to_set().contains(y) ==> known(wd, y)
                        && !hs.insert(e).contains(y)) implies kid_list(we, x) == kid_list(
                wd,
                x,
            ) by {
                assert forall|y: u64| kid_list(wd, x).to_set().contains(y) implies
                    !handles@.to_set().contains(y) by {
                    assert(!hs.insert(e).contains(y));
                }
                assert(kid_list(wd, x).to_set().disjoint(handles@.to_set()));
            }
        }
        lemma_preserved_step(w0, wd, we, hs.insert(e), te);
        assert(kid_list(we, e) == handles@);
        // the new subtrees are untouched: their child lists avoid the handles
        assert forall|k: int| 0 <= k < newc@.len() implies built_node(
            node.children@[k],
            (#[trigger] newc@[k]).1,
            we,
        ) && receipt_ok(newc@[k].1, we) by {
            assert(built_node(node.children@[k], newc@[k].1, wd));
            assert(receipt_ok(newc@[k].1, wd));
            lemma_built_kids(node.children@[k], newc@[k].1, wd);
            assert forall|x: u64| #[trigger] receipt_targets(newc@[k].1).contains(x) implies
                world_live(we).contains(x) == world_live(wd).contains(x) && comp_map(we, x)
                == comp_map(wd, x) && kid_list(we, x) == kid_list(wd, x) by {
                assert(x != e);
                assert(world_live(wd).contains(x));
                assert(kid_list(wd, x).to_set().subset_of(
                    receipt_targets(newc@[k].1).remove(target_of(newc@[k].1)),
                ));
                assert forall|y: u64| kid_list(wd, x).to_set().contains(y) implies !hs.contains(
                    y,
                ) by {
                    if hs.contains(y) {
                        let l = choose|l: int| 0 <= l < handles@.len() && handles@[l] == y;
                        assert(receipt_targets(newc@[l].1).contains(y));
                        assert(receipt_targets(newc@[k].1).contains(y));
                        assert(y != target_of(newc@[k].1));
                        assert(l != k);
                        assert(world_live(wd).contains(y));
                        assert(world_live(wc).contains(y));
                        if k < l {
                            assert(live_disjoint(
                                receipt_targets(newc@[k].1),
                                receipt_targets(newc@[l].1),
                                wc,
                            ));
                        } else {
                            assert(live_disjoint(
                                receipt_targets(newc@[l].1),
                                receipt_targets(newc@[k].1),
                                wc,
                            ));
                        }
                        assert(false);
                    }
                }
                assert(kid_list(wd, x).to_set().disjoint(handles@.to_set()));
            }
            lemma_built_pointwise(node.children@[k], newc@[k].1, wd, we);
            lemma_receipt_ok_preserved(newc@[k].1, wd, we);
        }
        assert(comp_map(we, e) == delta);
        assert(world_live(we).contains(e));
    }
    // 7. destroy orphaned subtrees
    destroy_orphans(w, &r0.children, &newc);
    let ghost wend = *w;
    let ghost ot = orphan_targets(r0.children@, newc@);
    proof {
        // an orphan id is recorded in the prior child entries
        assert forall|t: u64| #[trigger] ot.contains(t) implies tc.contains(t) by {
            let i = choose|i: int|
                0 <= i < r0.children@.len() && !has_key(newc@, (#[trigger] r0.children@[i]).0@)
                    && receipt_targets(r0.children@[i].1).contains(t);
            lemma_list_targets_member(r0.children@, t);
        }
        assert(!ot.contains(e));
        assert(preserved_outside(we, wend, ot));
        lemma_preserved_step(w0, we, wend, ot, te);
        // the kept subtrees share nothing with the orphans
        assert forall|k: int| 0 <= k < newc@.len() implies built_node(
            node.children@[k],
            (#[trigger] newc@[k]).1,
            wend,
        ) && receipt_ok(newc@[k].1, wend) by {
            assert(built_node(node.children@[k], newc@[k].1, we));
            assert(receipt_ok(newc@[k].1, we));
            lemma_built_kids(node.children@[k], newc@[k].1, we);
            assert forall|x: u64| #[trigger] receipt_targets(newc@[k].1).contains(x) implies
                !ot.contains(x) by {
                if ot.contains(x) {
                    let i = choose|i: int|
                        0 <= i < r0.children@.len() && !has_key(
                            newc@,
                            (#[trigger] r0.children@[i]).0@,
                        ) && receipt_targets(r0.children@[i].1).contains(x);
                    assert(world_live(we).contains(x));
                    assert(world_live(wc).contains(x));
                    assert(world_live(wb).contains(x) || !world_seen(wb).contains(x));
                    lemma_targets_seen(r0.children@[i].1, w0);
                    assert(world_seen(w0).contains(x));
                    assert(world_live(wb).contains(x));
                    assert(world_live(w0).contains(x));
                    assert(key_targets(r0.children@, anchor_at(node.children@, k)).contains(x)
                        || !world_seen(wb).contains(x));
                    let i2 = choose|i2: int|
                        0 <= i2 < r0.children@.len() && (#[trigger] r0.children@[i2]).0@
                            == anchor_at(node.children@, k) && receipt_targets(
                            r0.children@[i2].1,
                        ).contains(x);
                    assert(newc@[k].0@ == anchor_at(node.children@, k));
                    assert(has_key(newc@, anchor_at(node.children@, k)));
                    assert(i != i2);
                    if i < i2 {
                        assert(live_disjoint(
                            receipt_targets(r0.children@[i].1),
                            receipt_targets(r0.children@[i2].1),
                            w0,
                        ));
                    } else {
                        assert(live_disjoint(
                            receipt_targets(r0.children@[i2].1),
                            receipt_targets(r0.children@[i].1),
                            w0,
                        ));
                    }
                    assert(false);
                }
            }
            assert forall|x: u64| #[trigger] receipt_targets(newc@[k].1).contains(x) implies
                world_live(wend).contains(x) == world_live(we).contains(x) && comp_map(wend, x)
                == comp_map(we, x) && kid_list(wend, x) == kid_list(we, x) by {
                assert(!ot.contains(x));
            }
            lemma_built_pointwise(node.children@[k], newc@[k].1, we, wend);
            lemma_receipt_ok_preserved(newc@[k].1, we, wend);
        }
        assert(world_live(wend).contains(e));
        assert(comp_map(wend, e) == delta);
        assert(kid_list(wend, e) == handles@);
    }
    // 8. the updated receipt
    let r1 = Receipt { target: Some(e), applied: ids, children: newc };
    proof {
        assert(r1.children@.len() == node.children@.len());
        assert(child_targets(r1) =~= handles@);
        assert(applied_ids(r1) == data.dom());
        assert forall|k: usize| data.dom().contains(k) implies #[trigger] delta.dom().contains(k)
            && delta[k] == data[k] by {}
        assert(data.submap_of(comp_map(wend, e)));
        assert(built_node(*node, r1, wend));
        // soundness of the new receipt
        assert(world_seen(wend).contains(e));
        assert forall|id: usize| applied_ids(r1).contains(id) implies !world_hier(
            wend,
        ).contains(id) by {
            assert(data.dom().contains(id));
        }
        lemma_roots_ok_preserved(newc@, wc, wend);
        assert(roots_ok(r1.children@, wend));
        assert(receipt_ok(r1, wend));
        // orphan entries are destroyed, stated over the node's anchors
        assert forall|i: int|
            0 <= i < r0.children@.len() && !anchor_hit(
                node.children@,
                (#[trigger] r0.children@[i]).0@,
            ) implies none_live(receipt_targets(r0.children@[i].1), wend) by {
            assert(!has_key(newc@, r0.children@[i].0@)) by {
                if has_key(newc@, r0.children@[i].0@) {
                    let k = choose|k: int|
                        0 <= k < newc@.len() && (#[trigger] newc@[k]).0@ == r0.children@[i].0@;
                    assert(newc@[k].0@ == anchor_at(node.children@, k));
                    assert(anchor_hit(node.children@, r0.children@[i].0@));
                    assert(false);
                }
            }
        }
        // the scope of the new receipt
        assert(subset_or_new(receipt_targets(r1), te, w0)) by {
            assert forall|t: u64| #[trigger] receipt_targets(r1).contains(t) implies te.contains(
                t,
            ) || (!world_seen(w0).contains(t) && !world_live(w0).contains(t)) by {
                if t != e {
                    assert(list_targets(newc@).contains(t));
                    lemma_list_targets_member(newc@, t);
                    let k = choose|k: int|
                        0 <= k < newc@.len() && receipt_targets(
                            #[trigger] newc@[k].1,
                        ).contains(t);
                    if world_seen(w0).contains(t) || world_live(w0).contains(t) {
                        assert(key_targets(r0.children@, anchor_at(node.children@, k)).contains(
                            t,
                        ));
                        lemma_key_targets_sub(r0.children@, anchor_at(node.children@, k));
                        assert(tc.contains(t));
                    }
                }
            }
        }
        // the live set evolved only at recorded or fresh ids
        assert forall|x: u64|
            world_live(w0).contains(x) && !t0.contains(x) implies #[trigger] world_live(
            wend,
        ).contains(x) by {
            assert(world_live(wb).contains(x));
            assert(!tc.contains(x));
            assert(world_live(wc).contains(x));
            assert(!ot.contains(x));
        }
        assert forall|x: u64| #[trigger] world_live(wend).contains(x) implies world_live(
            w0,
        ).contains(x) || !world_seen(w0).contains(x) by {
            assert(world_live(we).contains(x));
            assert(world_live(wc).contains(x));
            assert(world_live(wb).contains(x) || !world_seen(wb).contains(x));
        }
        // live bystanders keep their components
        assert forall|x: u64|
            world_live(w0).contains(x) && !t0.contains(x) && x != e implies #[trigger] comp_map(
            wend,
            x,
        ) == comp_map(w0, x) by {
            assert(comp_map(wb, x) == comp_map(w0, x));
            assert(world_live(wb).contains(x));
            assert(!tc.contains(x));
            assert(comp_map(wc, x) == comp_map(wb, x));
            assert(comp_map(wd, x) == comp_map(wc, x));
            assert(comp_map(we, x) == comp_map(wd, x));
            assert(!ot.contains(x));
        }
        // reconciling a faithful receipt mutates nothing
        if built_node(*node, *r0, w0) {
            assert(was_reused);
            assert(e == target_of(*r0));
            assert(world_live(wb) == world_live(w0) && world_seen(wb) == world_seen(w0));
            assert(applied_ids(*r0) == data.dom());
            assert(applied_ids(*r0).difference(data.dom()) =~= Set::<usize>::empty());
            assert(delta =~= comp_map(w0, e)) by {
                assert(data.submap_of(comp_map(w0, e)));
                assert(base == comp_map(w0, e));
                assert(base.remove_keys(Set::<usize>::empty()) =~= base);
            }
            assert forall|x: u64| #[trigger] comp_map(wb, x) == comp_map(w0, x) by {}
            assert(list_built(node.children@, r0.children@, w0));
            assert forall|k: int| 0 <= k < node.children@.len() implies built_node(
                #[trigger] node.children@[k],
                r0.children@[k].1,
                wb,
            ) by {
                assert(built_node(node.children@[k], r0.children@[k].1, w0));
                assert forall|x: u64| #[trigger] receipt_targets(
                    r0.children@[k].1,
                ).contains(x) implies world_live(wb).contains(x) == world_live(w0).contains(x)
                    && comp_map(wb, x) == comp_map(w0, x) && kid_list(wb, x) == kid_list(
                    w0,
                    x,
                ) by {
                    assert(!receipt_targets(r0.children@[k].1).contains(e));
                }
                lemma_built_pointwise(node.children@[k], r0.children@[k].1, w0, wb);
            }
            assert(list_built(node.children@, r0.children@, wb));
            assert(world_live(wc) == world_live(w0) && world_seen(wc) == world_seen(w0));
            assert(list_same(newc@, r0.children@));
            assert(orphan_targets(r0.children@, newc@) =~= Set::<u64>::empty()) by {
                assert forall|t: u64| !ot.contains(t) by {
                    if ot.contains(t) {
                        let i = choose|i: int|
                            0 <= i < r0.children@.len() && !has_key(
                                newc@,
                                (#[trigger] r0.children@[i]).0@,
                            ) && receipt_targets(r0.children@[i].1).contains(t);
                        assert(newc@[i].0@ == r0.children@[i].0@);
                        assert(has_key(newc@, r0.children@[i].0@));
                        assert(false);
                    }
                }
            }
            assert(world_live(wend) == world_live(w0)) by {
                assert(world_live(wend) =~= world_live(we).difference(ot));
                assert(world_live(wend) =~= world_live(w0));
            }
            assert(world_seen(wend) == world_seen(w0));
            assert forall|x: u64| #[trigger] comp_map(wend, x) == comp_map(w0, x) by {
                assert(!ot.contains(x));
                assert(comp_map(we, x) == comp_map(wd, x));
                assert(comp_map(wd, x) == comp_map(wc, x));
            }
            assert(same_identity(r1, *r0));
        }
        assert(apply_effect(*node, *r0, w0, e, r1, wend));
    }
    (e, r1)
}


/// The top-level receipt store: one receipt per top-level anchor, owned by
/// the caller alongside its store (explicit-root mode) or per registry
/// (registry mode).
pub struct Roots {
    /// The keyed receipts of the last build, in the order then visited.
    pub entries: Vec<(Anchor, Receipt)>,
}

impl Roots {
    /// A registry with no prior builds.
    pub fn new() -> (r: Roots)
        ensures
            r.entries@ == Seq::<(Anchor, Receipt)>::empty(),
    {
        Roots { entries: Vec::new() }
    }
}

/// Everything a root-level build promises; with `root` the supplied root
/// entity whose child list is set to the template's top-level entities.
pub open spec fn reconcile_effect<P: Payload>(
    nodes: Seq<Node<P>>,
    prior: Seq<(Anchor, Receipt)>,
    w0: bevy_ecs::world::World,
    root: u64,
    newc: Seq<(Anchor, Receipt)>,
    w1: bevy_ecs::world::World,
) -> bool {
    &&& list_built(nodes, newc, w1)
    &&& roots_ok(newc, w1)
    &&& world_live(w1).contains(root)
    &&& kid_list(w1, root) == list_child_targets(newc)
    &&& comp_map(w1, root) == comp_map(w0, root)
    &&& !list_targets(newc).contains(root)
    &&& forall|k: int, i: int|
        0 <= k < nodes.len() && 0 <= i < prior.len() && (#[trigger] prior[i]).0@ == anchor_at(
            nodes,
            k,
        ) && prior[i].1.target is Some && world_live(w0).contains(target_of(prior[i].1)) ==> (
        #[trigger] newc[k]).1.target == prior[i].1.target
    &&& forall|i: int|
        0 <= i < prior.len() && !anchor_hit(nodes, (#[trigger] prior[i]).0@) ==> none_live(
            receipt_targets(prior[i].1),
            w1,
        )
    &&& preserved_outside(w0, w1, list_targets(prior).insert(root))
    &&& forall|x: u64|
        world_live(w0).contains(x) && !list_targets(prior).contains(x)
            ==> #[trigger] world_live(w1).contains(x)
    &&& forall|x: u64|
        #[trigger] world_live(w1).contains(x) ==> world_live(w0).contains(x) || !world_seen(
            w0,
        ).contains(x)
    &&& forall|k: int|
        0 <= k < nodes.len() ==> subset_or_new(
            receipt_targets((#[trigger] newc[k]).1),
            key_targets(prior, anchor_at(nodes, k)),
            w0,
        )
    &&& (list_built(nodes, prior, w0) && kid_list(w0, root) == list_child_targets(prior)
        ==> world_live(w1) == world_live(w0) && world_seen(w1) == world_seen(w0) && (forall|
        x: u64,
    |
        #[trigger] comp_map(w1, x) == comp_map(w0, x)) && list_same(newc, prior) && kid_list(
        w1,
        root,
    ) == kid_list(w0, root))
}

/// Reconcile a template beneath an explicit root entity: build each
/// top-level node under its anchor, set the root's child list to the
/// top-level entities in authored order, and destroy orphaned subtrees.
/// `roots` is the receipt store the caller holds for this root; with one
/// store per root entity, independent calls never collide.
///
/// Duplicate explicit names within one sibling list are a caller-contract
/// violation, not a fault: the build still completes, with the colliding
/// siblings resolved against whichever entry a lookup finds first, and
/// nothing is promised of the result.
pub fn reconcile<P: Payload>(
    w: &mut bevy_ecs::world::World,
    root: u64,
    template: &Template<P>,
    roots: &mut Roots,
)
    requires
        wf_template(template@),
        roots_ok(old(roots).entries@, *old(w)),
        world_live(*old(w)).contains(root),
        !list_targets(old(roots).entries@).contains(root),
    ensures
        reconcile_effect(
            template@,
            old(roots).entries@,
            *old(w),
            root,
            final(roots).entries@,
            *final(w),
        ),
{
    let ghost w0 = *old(w);
    let ghost prior = roots.entries@;
    let ghost tp = list_targets(prior);
    let ghost te = tp.insert(root);
    proof {
        lemma_list_targets_seen(prior, w0);
        assert(preserved_outside(w0, w0, te));
    }
    let (handles, newc) = apply_children(w, template, &roots.entries);
    let ghost wc = *w;
    proof {
        assert(children_effect(template@, prior, w0, handles@, newc@, wc));
        assert(world_live(wc).contains(root));
        lemma_preserved_step(w0, w0, wc, tp, te);
        // the root is recorded in no subtree, old or new
        assert forall|k: int| 0 <= k < newc@.len() implies !receipt_targets(
            (#[trigger] newc@[k]).1,
        ).contains(root) by {
            if receipt_targets(newc@[k].1).contains(root) {
                assert(world_live(w0).contains(root));
                assert(key_targets(prior, anchor_at(template@, k)).contains(root));
                lemma_key_targets_sub(prior, anchor_at(template@, k));
                assert(false);
            }
        }
    }
    take_children(w, root);
    let ghost wd = *w;
    proof {
        assert(preserved_outside(wc, wd, Set::empty().insert(root)));
        lemma_preserved_step(w0, wc, wd, Set::empty().insert(root), te);
        assert forall|k: int| 0 <= k < newc@.len() implies built_node(
            template@[k],
            (#[trigger] newc@[k]).1,
            wd,
        ) && receipt_ok(newc@[k].1, wd) by {
            assert(built_node(template@[k], newc@[k].1, wc));
            assert(receipt_ok(newc@[k].1, wc));
            assert forall|x: u64| #[trigger] receipt_targets(newc@[k].1).contains(x) implies
                world_live(wd).contains(x) == world_live(wc).contains(x) && comp_map(wd, x)
                == comp_map(wc, x) && kid_list(wd, x) == kid_list(wc, x) by {
                assert(x != root);
            }
            lemma_built_pointwise(template@[k], newc@[k].1, wc, wd);
            lemma_receipt_ok_preserved(newc@[k].1, wc, wd);
        }
        assert forall|k: int| 0 <= k < handles@.len() implies world_live(wd).contains(
            #[trigger] handles@[k],
        ) && handles@[k] != root by {
            assert(handles@[k] == target_of(newc@[k].1));
            assert(built_node(template@[k], newc@[k].1, wd));
            assert(receipt_targets(newc@[k].1).contains(handles@[k]));
        }
        assert forall|k: int, l: int| 0 <= k < l < handles@.len() implies #[trigger] handles@[k]
            != #[trigger] handles@[l] by {
            assert(receipt_targets(newc@[k].1).contains(handles@[k]));
            assert(receipt_targets(newc@[l].1).contains(handles@[l]));
            assert(world_live(wd).contains(handles@[k]));
            assert(world_live(wc).contains(handles@[k]) && world_live(wc).contains(handles@[l]));
            assert(live_disjoint(
                receipt_targets(newc@[k].1),
                receipt_targets(newc@[l].1),
                wc,
            ));
        }
        assert(handles@.no_duplicates());
        assert(kid_list(wd, root) == Seq::<u64>::empty());
    }
    add_children(w, root, &handles);
    let ghost we = *w;
    proof {
        let hs = handles@.to_set();
        assert forall|y: u64| #[trigger] hs.contains(y) implies te.contains(y) || !known(
            w0,
            y,
        ) by {
            let k = choose|k: int| 0 <= k < handles@.len() && handles@[k] == y;
            assert(receipt_targets(newc@[k].1).contains(y));
            if world_seen(w0).contains(y) || world_live(w0).contains(y) {
                assert(key_targets(prior, anchor_at(template@, k)).contains(y));
                lemma_key_targets_sub(prior, anchor_at(template@, k));
            }
        }
        assert(preserved_outside(wd, we, hs.insert(root))) by {
            assert forall|x: u64|
                known(wd, x) && !hs.insert(root).contains(x) && (forall|y: u64|
                    #[trigger] kid_list(wd, x).to_set().contains(y) ==> known(wd, y)
                        && !hs.insert(root).contains(y)) implies kid_list(we, x) == kid_list(
                wd,
                x,
            ) by {
                assert forall|y: u64| kid_list(wd, x).to_set().contains(y) implies
                    !handles@.to_set().contains(y) by {
                    assert(!hs.insert(root).contains(y));
                }
                assert(kid_list(wd, x).to_set().disjoint(handles@.to_set()));
            }
        }
        lemma_preserved_step(w0, wd, we, hs.insert(root), te);
        assert(kid_list(we, root) == handles@);
        assert forall|k: int| 0 <= k < newc@.len() implies built_node(
            template@[k],
            (#[trigger] newc@[k]).1,
            we,
        ) && receipt_ok(newc@[k].1, we) by {
            assert(built_node(template@[k], newc@[k].1, wd));
            assert(receipt_ok(newc@[k].1, wd));
            lemma_built_kids(template@[k], newc@[k].1, wd);
            assert forall|x: u64| #[trigger] receipt_targets(newc@[k].1).contains(x) implies
                world_live(we).contains(x) == world_live(wd).contains(x) && comp_map(we, x)
                == comp_map(wd, x) && kid_list(we, x) == kid_list(wd, x) by {
                assert(x != root);
                assert(world_live(wd).contains(x));
                assert(kid_list(wd, x).to_set().subset_of(
                    receipt_targets(newc@[k].1).remove(target_of(newc@[k].1)),
                ));
                assert forall|y: u64| kid_list(wd, x).to_set().contains(y) implies !hs.contains(
                    y,
                ) by {
                    if hs.contains(y) {
                        let l = choose|l: int| 0 <= l < handles@.len() && handles@[l] == y;
                        assert(receipt_targets(newc@[l].1).contains(y));
                        assert(receipt_targets(newc@[k].1).contains(y));
                        assert(y != target_of(newc@[k].1));
                        assert(l != k);
                        assert(world_live(wd).contains(y));
                        assert(world_live(wc).contains(y));
                        if k < l {
                            assert(live_disjoint(
                                receipt_targets(newc@[k].1),
                                receipt_targets(newc@[l].1),
                                wc,
                            ));
                        } else {
                            assert(live_disjoint(
                                receipt_targets(newc@[l].1),
                                receipt_targets(newc@[k].1),
                                wc,
                            ));
                        }
                        assert(false);
                    }
                }
                assert(kid_list(wd, x).to_set().disjoint(handles@.to_set()));
            }
            lemma_built_pointwise(template@[k], newc@[k].1, wd, we);
            lemma_receipt_ok_preserved(newc@[k].1, wd, we);
        }
    }
    destroy_orphans(w, &roots.entries, &newc);
    let ghost wend = *w;
    let ghost ot = orphan_targets(prior, newc@);
    proof {
        assert forall|t: u64| #[trigger] ot.contains(t) implies tp.contains(t) by {
            let i = choose|i: int|
                0 <= i < prior.len() && !has_key(newc@, (#[trigger] prior[i]).0@)
                    && receipt_targets(prior[i].1).contains(t);
            lemma_list_targets_member(prior, t);
        }
        assert(!ot.contains(root));
        assert(preserved_outside(we, wend, ot));
        lemma_preserved_step(w0, we, wend, ot, te);
        assert forall|k: int| 0 <= k < newc@.len() implies built_node(
            template@[k],
            (#[trigger] newc@[k]).1,
            wend,
        ) by {
            assert(built_node(template@[k], newc@[k].1, we));
            assert(receipt_ok(newc@[k].1, we));
            lemma_built_kids(template@[k], newc@[k].1, we);
            assert forall|x: u64| #[trigger] receipt_targets(newc@[k].1).contains(x) implies
                !ot.contains(x) by {
                if ot.contains(x) {
                    let i = choose|i: int|
                        0 <= i < prior.len() && !has_key(newc@, (#[trigger] prior[i]).0@)
                            && receipt_targets(prior[i].1).contains(x);
                    assert(world_live(we).contains(x));
                    assert(world_live(wc).contains(x));
                    assert(world_live(w0).contains(x) || !world_seen(w0).contains(x));
                    lemma_targets_seen(prior[i].1, w0);
                    assert(world_seen(w0).contains(x));
                    assert(world_live(w0).contains(x));
                    assert(key_targets(prior, anchor_at(template@, k)).contains(x)
                        || !world_seen(w0).contains(x));
                    let i2 = choose|i2: int|
                        0 <= i2 < prior.len() && (#[trigger] prior[i2]).0@ == anchor_at(
                            template@,
                            k,
                        ) && receipt_targets(prior[i2].1).contains(x);
                    assert(newc@[k].0@ == anchor_at(template@, k));
                    assert(has_key(newc@, anchor_at(template@, k)));
                    assert(i != i2);
                    if i < i2 {
                        assert(live_disjoint(
                            receipt_targets(prior[i].1),
                            receipt_targets(prior[i2].1),
                            w0,
                        ));
                    } else {
                        assert(live_disjoint(
                            receipt_targets(prior[i2].1),
                            receipt_targets(prior[i].1),
                            w0,
                        ));
                    }
                    assert(false);
                }
            }
            assert forall|x: u64| #[trigger] receipt_targets(newc@[k].1).contains(x) implies
                world_live(wend).contains(x) == world_live(we).contains(x) && comp_map(wend, x)
                == comp_map(we, x) && kid_list(wend, x) == kid_list(we, x) by {
                assert(!ot.contains(x));
            }
            lemma_built_pointwise(template@[k], newc@[k].1, we, wend);
        }
        lemma_roots_ok_preserved(newc@, wc, wend);
        assert(world_live(wend).contains(root));
        assert(kid_list(wend, root) == handles@);
        assert(kid_list(wend, root) =~= list_child_targets(newc@));
        assert(!list_targets(newc@).contains(root)) by {
            if list_targets(newc@).contains(root) {
                lemma_list_targets_member(newc@, root);
            }
        }
        assert(comp_map(wend, root) == comp_map(w0, root)) by {
            assert(comp_map(wc, root) == comp_map(w0, root));
            assert(comp_map(wd, root) == comp_map(wc, root));
            assert(comp_map(we, root) == comp_map(wd, root));
            assert(!ot.contains(root));
        }
        assert forall|i: int|
            0 <= i < prior.len() && !anchor_hit(template@, (#[trigger] prior[i]).0@) implies
            none_live(receipt_targets(prior[i].1), wend) by {
            assert(!has_key(newc@, prior[i].0@)) by {
                if has_key(newc@, prior[i].0@) {
                    let k = choose|k: int|
                        0 <= k < newc@.len() && (#[trigger] newc@[k]).0@ == prior[i].0@;
                    assert(newc@[k].0@ == anchor_at(template@, k));
                    assert(anchor_hit(template@, prior[i].0@));
                    assert(false);
                }
            }
        }
        assert forall|x: u64|
            world_live(w0).contains(x) && !tp.contains(x) implies #[trigger] world_live(
            wend,
        ).contains(x) by {
            assert(world_live(wc).contains(x));
            assert(!ot.contains(x));
        }
        assert forall|x: u64| #[trigger] world_live(wend).contains(x) implies world_live(
            w0,
        ).contains(x) || !world_seen(w0).contains(x) by {
            assert(world_live(we).contains(x));
            assert(world_live(wc).contains(x));
        }
        // reconciling a faithful registry mutates nothing
        if list_built(template@, prior, w0) && kid_list(w0, root) == list_child_targets(prior) {
            assert(world_live(wc) == world_live(w0) && world_seen(wc) == world_seen(w0));
            assert(list_same(newc@, prior));
            assert(orphan_targets(prior, newc@) =~= Set::<u64>::empty()) by {
                assert forall|t: u64| !ot.contains(t) by {
                    if ot.contains(t) {
                        let i = choose|i: int|
                            0 <= i < prior.len() && !has_key(newc@, (#[trigger] prior[i]).0@)
                                && receipt_targets(prior[i].1).contains(t);
                        assert(newc@[i].0@ == prior[i].0@);
                        assert(has_key(newc@, prior[i].0@));
                        assert(false);
                    }
                }
            }
            assert(world_live(wend) == world_live(w0)) by {
                assert(world_live(wend) =~= world_live(we).difference(ot));
                assert(world_live(wend) =~= world_live(w0));
            }
            assert forall|x: u64| #[trigger] comp_map(wend, x) == comp_map(w0, x) by {
                assert(!ot.contains(x));
                assert(comp_map(we, x) == comp_map(wd, x));
                assert(comp_map(wd, x) == comp_map(wc, x));
            }
            assert(kid_list(wend, root) =~= kid_list(w0, root)) by {
                assert(kid_list(wend, root) =~= list_child_targets(newc@));
                assert(list_child_targets(newc@) =~= list_child_targets(prior)) by {
                    assert forall|i: int|
                        0 <= i < newc@.len() implies target_of(#[trigger] newc@[i].1)
                            == target_of(prior[i].1) by {
                        assert(same_identity(newc@[i].1, prior[i].1));
                    }
                }
            }
        }
    }
    roots.entries = newc;
}


/// Everything a registry-mode build promises: each top-level anchor owns
/// its own entity across calls, with no shared root entity.
pub open spec fn registry_effect<P: Payload>(
    nodes: Seq<Node<P>>,
    prior: Seq<(Anchor, Receipt)>,
    w0: bevy_ecs::world::World,
    handles: Seq<u64>,
    newc: Seq<(Anchor, Receipt)>,
    w1: bevy_ecs::world::World,
) -> bool {
    &&& handles.len() == nodes.len()
    &&& forall|k: int| 0 <= k < nodes.len() ==> #[trigger] handles[k] == target_of(newc[k].1)
    &&& list_built(nodes, newc, w1)
    &&& roots_ok(newc, w1)
    &&& forall|k: int, i: int|
        0 <= k < nodes.len() && 0 <= i < prior.len() && (#[trigger] prior[i]).0@ == anchor_at(
            nodes,
            k,
        ) && prior[i].1.target is Some && world_live(w0).contains(target_of(prior[i].1)) ==> (
        #[trigger] newc[k]).1.target == prior[i].1.target
    &&& forall|i: int|
        0 <= i < prior.len() && !anchor_hit(nodes, (#[trigger] prior[i]).0@) ==> none_live(
            receipt_targets(prior[i].1),
            w1,
        )
    &&& preserved_outside(w0, w1, list_targets(prior))
    &&& forall|x: u64|
        world_live(w0).contains(x) && !list_targets(prior).contains(x)
            ==> #[trigger] world_live(w1).contains(x)
    &&& forall|x: u64|
        #[trigger] world_live(w1).contains(x) ==> world_live(w0).contains(x) || !world_seen(
            w0,
        ).contains(x)
    &&& forall|k: int|
        0 <= k < nodes.len() ==> subset_or_new(
            receipt_targets((#[trigger] newc[k]).1),
            key_targets(prior, anchor_at(nodes, k)),
            w0,
        )
    &&& forall|x: u64|
        world_live(w0).contains(x) && !list_targets(prior).contains(x)
            ==> #[trigger] comp_map(w1, x) == comp_map(w0, x)
    &&& (list_built(nodes, prior, w0) ==> world_live(w1) == world_live(w0) && world_seen(w1)
        == world_seen(w0) && (forall|x: u64|
        #[trigger] comp_map(w1, x) == comp_map(w0, x)) && list_same(newc, prior))
}

/// Reconcile a template in registry mode: each top-level node is built on
/// the entity its anchor owns in the registry, no shared root entity is
/// touched, and subtrees of registry anchors absent from this template are
/// destroyed. Returns the top-level entities in authored order.
///
/// Independent callers sharing one registry collide whenever their
/// top-level anchors coincide; give each caller its own registry, or use
/// the explicit-root mode.
pub fn reconcile_registry<P: Payload>(
    w: &mut bevy_ecs::world::World,
    template: &Template<P>,
    reg: &mut Roots,
) -> (handles: Vec<u64>)
    requires
        wf_template(template@),
        roots_ok(old(reg).entries@, *old(w)),
    ensures
        registry_effect(
            template@,
            old(reg).entries@,
            *old(w),
            handles@,
            final(reg).entries@,
            *final(w),
        ),
{
    let ghost w0 = *old(w);
    let ghost prior = reg.entries@;
    let ghost tp = list_targets(prior);
    proof {
        lemma_list_targets_seen(prior, w0);
    }
    let (handles, newc) = apply_children(w, template, &reg.entries);
    let ghost wc = *w;
    proof {
        assert(children_effect(template@, prior, w0, handles@, newc@, wc));
    }
    destroy_orphans(w, &reg.entries, &newc);
    let ghost wend = *w;
    let ghost ot = orphan_targets(prior, newc@);
    proof {
        assert forall|t: u64| #[trigger] ot.contains(t) implies tp.contains(t) by {
            let i = choose|i: int|
                0 <= i < prior.len() && !has_key(newc@, (#[trigger] prior[i]).0@)
                    && receipt_targets(prior[i].1).contains(t);
            lemma_list_targets_member(prior, t);
        }
        assert(preserved_outside(wc, wend, ot));
        lemma_preserved_step(w0, wc, wend, ot, tp);
        assert forall|k: int| 0 <= k < newc@.len() implies built_node(
            template@[k],
            (#[trigger] newc@[k]).1,
            wend,
        ) by {
            assert(built_node(template@[k], newc@[k].1, wc));
            assert(receipt_ok(newc@[k].1, wc));
            lemma_built_kids(template@[k], newc@[k].1, wc);
            assert forall|x: u64| #[trigger] receipt_targets(newc@[k].1).contains(x) implies
                !ot.contains(x) by {
                if ot.contains(x) {
                    let i = choose|i: int|
                        0 <= i < prior.len() && !has_key(newc@, (#[trigger] prior[i]).0@)
                            && receipt_targets(prior[i].1).contains(x);
                    assert(world_live(wc).contains(x));
                    assert(world_live(w0).contains(x) || !world_seen(w0).contains(x));
                    lemma_targets_seen(prior[i].1, w0);
                    assert(world_seen(w0).contains(x));
                    assert(world_live(w0).contains(x));
                    assert(key_targets(prior, anchor_at(template@, k)).contains(x)
                        || !world_seen(w0).contains(x));
                    let i2 = choose|i2: int|
                        0 <= i2 < prior.len() && (#[trigger] prior[i2]).0@ == anchor_at(
                            template@,
                            k,
                        ) && receipt_targets(prior[i2].1).contains(x);
                    assert(newc@[k].0@ == anchor_at(template@, k));
                    assert(has_key(newc@, anchor_at(template@, k)));
                    assert(i != i2);
                    if i < i2 {
                        assert(live_disjoint(
                            receipt_targets(prior[i].1),
                            receipt_targets(prior[i2].1),
                            w0,
                        ));
                    } else {
                        assert(live_disjoint(
                            receipt_targets(prior[i2].1),
                            receipt_targets(prior[i].1),
                            w0,
                        ));
                    }
                    assert(false);
                }
            }
            assert forall|x: u64| #[trigger] receipt_targets(newc@[k].1).contains(x) implies
                world_live(wend).contains(x) == world_live(wc).contains(x) && comp_map(wend, x)
                == comp_map(wc, x) && kid_list(wend, x) == kid_list(wc, x) by {
                assert(!ot.contains(x));
            }
            lemma_built_pointwise(template@[k], newc@[k].1, wc, wend);
        }
        lemma_roots_ok_preserved(newc@, wc, wend);
        assert forall|i: int|
            0 <= i < prior.len() && !anchor_hit(template@, (#[trigger] prior[i]).0@) implies
            none_live(receipt_targets(prior[i].1), wend) by {
            assert(!has_key(newc@, prior[i].0@)) by {
                if has_key(newc@, prior[i].0@) {
                    let k = choose|k: int|
                        0 <= k < newc@.len() && (#[trigger] newc@[k]).0@ == prior[i].0@;
                    assert(newc@[k].0@ == anchor_at(template@, k));
                    assert(anchor_hit(template@, prior[i].0@));
                    assert(false);
                }
            }
        }
        assert forall|x: u64|
            world_live(w0).contains(x) && !tp.contains(x) implies #[trigger] world_live(
            wend,
        ).contains(x) by {
            assert(world_live(wc).contains(x));
            assert(!ot.contains(x));
        }
        assert forall|x: u64| #[trigger] world_live(wend).contains(x) implies world_live(
            w0,
        ).contains(x) || !world_seen(w0).contains(x) by {
            assert(world_live(wc).contains(x));
        }
        assert forall|x: u64|
            world_live(w0).contains(x) && !tp.contains(x) implies #[trigger] comp_map(
            wend,
            x,
        ) == comp_map(w0, x) by {
            assert(comp_map(wc, x) == comp_map(w0, x));
            assert(!ot.contains(x));
        }
        if list_built(template@, prior, w0) {
            assert(world_live(wc) == world_live(w0) && world_seen(wc) == world_seen(w0));
            assert(list_same(newc@, prior));
            assert(orphan_targets(prior, newc@) =~= Set::<u64>::empty()) by {
                assert forall|t: u64| !ot.contains(t) by {
                    if ot.contains(t) {
                        let i = choose|i: int|
                            0 <= i < prior.len() && !has_key(newc@, (#[trigger] prior[i]).0@)
                                && receipt_targets(prior[i].1).contains(t);
                        assert(newc@[i].0@ == prior[i].0@);
                        assert(has_key(newc@, prior[i].0@));
                        assert(false);
                    }
                }
            }
            assert(world_live(wend) == world_live(w0)) by {
                assert(world_live(wend) =~= world_live(wc).difference(ot));
                assert(world_live(wend) =~= world_live(w0));
            }
            assert forall|x: u64| #[trigger] comp_map(wend, x) == comp_map(w0, x) by {
                assert(!ot.contains(x));
            }
        }
    }
    reg.entries = newc;
    handles
}

} // verus!
