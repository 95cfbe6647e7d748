//! The laws of reconciliation, each proved from the build relations alone.

use vstd::prelude::*;
use crate::anchor::{Anchor, AnchorKey};
use crate::node::{Node, Payload, anchor_at, anchor_hit, unnamed_before};
use crate::receipt::{
    Receipt, applied_ids, receipt_ok, receipt_targets, list_targets, lemma_list_targets_member,
};
use crate::reconcile::{
    apply_effect, built_node, list_built, same_identity, list_same, target_of, child_targets,
    list_child_targets, key_targets, subset_or_new, reconcile_effect, reused,
    lemma_built_preserved, lemma_list_targets_seen,
};
use crate::world::{world_live, world_seen, comp_map, kid_list, known, preserved_outside};

verus! {

/// Receipts with the same identity record the same entities.
pub proof fn lemma_same_targets(a: Receipt, b: Receipt)
    requires
        same_identity(a, b),
    ensures
        receipt_targets(a) == receipt_targets(b),
    decreases a,
{
    lemma_same_list_targets(a.children@, b.children@);
    assert(receipt_targets(a) =~= receipt_targets(b));
}

/// Entry by entry, lists with the same identity record the same entities.
pub proof fn lemma_same_list_targets(sa: Seq<(Anchor, Receipt)>, sb: Seq<(Anchor, Receipt)>)
    requires
        list_same(sa, sb),
    ensures
        list_targets(sa) == list_targets(sb),
    decreases sa,
{
    if sa.len() > 0 {
        assert forall|i: int|
            0 <= i < sa.len() - 1 implies (#[trigger] sa.subrange(0, sa.len() - 1)[i]).0@
                == sb.subrange(0, sb.len() - 1)[i].0@ && same_identity(
                sa.subrange(0, sa.len() - 1)[i].1,
                sb.subrange(0, sb.len() - 1)[i].1,
            ) by {
            assert(sa[i].0@ == sb[i].0@ && same_identity(sa[i].1, sb[i].1));
        }
        lemma_same_list_targets(sa.subrange(0, sa.len() - 1), sb.subrange(0, sb.len() - 1));
        assert(same_identity(sa[sa.len() - 1].1, sb[sb.len() - 1].1));
        lemma_same_targets(sa[sa.len() - 1].1, sb[sb.len() - 1].1);
        assert(list_targets(sa) =~= list_targets(sb));
    } else {
        assert(list_targets(sa) =~= list_targets(sb));
    }
}

/// Two realizations of one node under receipts with the same identity give
/// every recorded entity the same child list.
pub proof fn lemma_same_built_kids<P: Payload>(
    n: Node<P>,
    a: Receipt,
    b: Receipt,
    wa: bevy_ecs::world::World,
    wb: bevy_ecs::world::World,
)
    requires
        built_node(n, a, wa),
        built_node(n, b, wb),
        same_identity(a, b),
    ensures
        forall|x: u64|
            #[trigger] receipt_targets(b).contains(x) ==> kid_list(wa, x) == kid_list(wb, x),
    decreases n,
{
    lemma_same_targets(a, b);
    assert forall|x: u64| #[trigger] receipt_targets(b).contains(x) implies kid_list(wa, x)
        == kid_list(wb, x) by {
        if x == target_of(b) {
            assert(target_of(a) == target_of(b));
            assert(kid_list(wa, x) == child_targets(a));
            assert(kid_list(wb, x) == child_targets(b));
            assert(child_targets(a) =~= child_targets(b)) by {
                assert forall|i: int| 0 <= i < a.children@.len() implies target_of(
                    #[trigger] a.children@[i].1,
                ) == target_of(b.children@[i].1) by {
                    assert(same_identity(a.children@[i].1, b.children@[i].1));
                }
            }
        } else {
            lemma_list_targets_member(b.children@, x);
            let i = choose|i: int|
                0 <= i < b.children@.len() && receipt_targets(
                    #[trigger] b.children@[i].1,
                ).contains(x);
            assert(built_node(n.children@[i], a.children@[i].1, wa));
            assert(built_node(n.children@[i], b.children@[i].1, wb));
            assert(same_identity(a.children@[i].1, b.children@[i].1));
            lemma_same_built_kids(n.children@[i], a.children@[i].1, b.children@[i].1, wa, wb);
        }
    }
}

/// Law: reconciling an unchanged template twice yields no further mutation
/// on the second call — the same entity handles, the same component sets
/// everywhere, and the same child order on the root and on every entity the
/// receipts record.
pub proof fn lemma_idempotent<P: Payload>(
    nodes: Seq<Node<P>>,
    prior: Seq<(Anchor, Receipt)>,
    w0: bevy_ecs::world::World,
    root: u64,
    newc: Seq<(Anchor, Receipt)>,
    w1: bevy_ecs::world::World,
)
    requires
        reconcile_effect(nodes, prior, w0, root, newc, w1),
        list_built(nodes, prior, w0),
        kid_list(w0, root) == list_child_targets(prior),
    ensures
        list_same(newc, prior),
        world_live(w1) == world_live(w0),
        world_seen(w1) == world_seen(w0),
        forall|x: u64| #[trigger] comp_map(w1, x) == comp_map(w0, x),
        kid_list(w1, root) == kid_list(w0, root),
        forall|x: u64|
            #[trigger] list_targets(prior).contains(x) ==> kid_list(w1, x) == kid_list(w0, x),
{
    assert forall|x: u64| #[trigger] list_targets(prior).contains(x) implies kid_list(w1, x)
        == kid_list(w0, x) by {
        lemma_list_targets_member(prior, x);
        let i = choose|i: int|
            0 <= i < prior.len() && receipt_targets(#[trigger] prior[i].1).contains(x);
        assert(built_node(nodes[i], newc[i].1, w1));
        assert(built_node(nodes[i], prior[i].1, w0));
        assert(same_identity(newc[i].1, prior[i].1));
        lemma_same_targets(newc[i].1, prior[i].1);
        lemma_same_built_kids(nodes[i], newc[i].1, prior[i].1, w1, w0);
    }
}

/// Law: a named node present in two successive templates keeps its entity
/// across both builds, wherever it stands among its siblings.
pub proof fn lemma_identity_preserved<P: Payload>(
    t1: Seq<Node<P>>,
    prior: Seq<(Anchor, Receipt)>,
    w0: bevy_ecs::world::World,
    root: u64,
    c1: Seq<(Anchor, Receipt)>,
    w1: bevy_ecs::world::World,
    t2: Seq<Node<P>>,
    c2: Seq<(Anchor, Receipt)>,
    w2: bevy_ecs::world::World,
    i: int,
    k: int,
    name: Seq<char>,
)
    requires
        reconcile_effect(t1, prior, w0, root, c1, w1),
        reconcile_effect(t2, c1, w1, root, c2, w2),
        0 <= i < t1.len(),
        0 <= k < t2.len(),
        anchor_at(t1, i) == AnchorKey::Named(name),
        anchor_at(t2, k) == AnchorKey::Named(name),
    ensures
        c1[i].1.target is Some,
        c2[k].1.target == c1[i].1.target,
{
    assert(built_node(t1[i], c1[i].1, w1));
    assert(c1[i].0@ == anchor_at(t1, i));
    assert(world_live(w1).contains(target_of(c1[i].1)));
}

/// Law: a build on a reused entity leaves it with exactly the prior
/// components minus the ids the previous build applied and this one no
/// longer does, overlaid with the new payload; in particular an id applied
/// before and dropped now is gone, and a component outside both applied
/// sets persists with its value.
pub proof fn lemma_component_delta<P: Payload>(
    n: Node<P>,
    r0: Receipt,
    w0: bevy_ecs::world::World,
    e: u64,
    r1: Receipt,
    w1: bevy_ecs::world::World,
    id: usize,
)
    requires
        apply_effect(n, r0, w0, e, r1, w1),
        reused(r0, w0),
    ensures
        n.payload.data().dom().contains(id) ==> comp_map(w1, e).dom().contains(id) && comp_map(
            w1,
            e,
        )[id] == n.payload.data()[id],
        applied_ids(r0).contains(id) && !n.payload.data().dom().contains(id)
            ==> !comp_map(w1, e).dom().contains(id),
        !applied_ids(r0).contains(id) && !n.payload.data().dom().contains(id)
            ==> comp_map(w1, e).dom().contains(id) == comp_map(w0, e).dom().contains(id) && (
        comp_map(w0, e).dom().contains(id) ==> comp_map(w1, e)[id] == comp_map(w0, e)[id]),
{
    assert(comp_map(w1, e) == comp_map(w0, e).remove_keys(
        applied_ids(r0).difference(n.payload.data().dom()),
    ).union_prefer_right(n.payload.data()));
}

/// Law: a subtree whose anchor is absent from the current template is
/// destroyed whole — no entity it recorded is alive after the build.
pub proof fn lemma_orphan_cleanup<P: Payload>(
    nodes: Seq<Node<P>>,
    prior: Seq<(Anchor, Receipt)>,
    w0: bevy_ecs::world::World,
    root: u64,
    newc: Seq<(Anchor, Receipt)>,
    w1: bevy_ecs::world::World,
    i: int,
)
    requires
        reconcile_effect(nodes, prior, w0, root, newc, w1),
        0 <= i < prior.len(),
        !anchor_hit(nodes, prior[i].0@),
    ensures
        forall|t: u64|
            #[trigger] receipt_targets(prior[i].1).contains(t) ==> !world_live(w1).contains(t),
{
}

/// Law: an unnamed node is identified by its ordinal position among the
/// unnamed siblings alone: a build reuses, position by position, the
/// entities of the prior build, and writes the payload now standing at
/// that position onto the reused entity.
pub proof fn lemma_positional_identity<P: Payload>(
    t1: Seq<Node<P>>,
    prior: Seq<(Anchor, Receipt)>,
    w0: bevy_ecs::world::World,
    root: u64,
    c1: Seq<(Anchor, Receipt)>,
    w1: bevy_ecs::world::World,
    t2: Seq<Node<P>>,
    c2: Seq<(Anchor, Receipt)>,
    w2: bevy_ecs::world::World,
    i: int,
    k: int,
)
    requires
        reconcile_effect(t1, prior, w0, root, c1, w1),
        reconcile_effect(t2, c1, w1, root, c2, w2),
        0 <= i < t1.len(),
        0 <= k < t2.len(),
        t1[i].anchor is None,
        t2[k].anchor is None,
        unnamed_before(t1, i) == unnamed_before(t2, k),
    ensures
        c1[i].1.target is Some,
        c2[k].1.target == c1[i].1.target,
        t2[k].payload.data().submap_of(comp_map(w2, target_of(c2[k].1))),
{
    assert(anchor_at(t1, i) == AnchorKey::Auto(unnamed_before(t1, i)));
    assert(anchor_at(t2, k) == AnchorKey::Auto(unnamed_before(t2, k)));
    assert(built_node(t1[i], c1[i].1, w1));
    assert(c1[i].0@ == anchor_at(t1, i));
    assert(world_live(w1).contains(target_of(c1[i].1)));
    assert(built_node(t2[k], c2[k].1, w2));
}

/// Law: after any build the store reports the reconciled children of the
/// root, and of every reconciled node, exactly in the authored order.
pub proof fn lemma_child_order<P: Payload>(
    nodes: Seq<Node<P>>,
    prior: Seq<(Anchor, Receipt)>,
    w0: bevy_ecs::world::World,
    root: u64,
    newc: Seq<(Anchor, Receipt)>,
    w1: bevy_ecs::world::World,
    k: int,
)
    requires
        reconcile_effect(nodes, prior, w0, root, newc, w1),
        0 <= k < nodes.len(),
    ensures
        kid_list(w1, root) == list_child_targets(newc),
        kid_list(w1, target_of(newc[k].1)) == child_targets(newc[k].1),
{
    assert(built_node(nodes[k], newc[k].1, w1));
}

/// Law (explicit-root mode): two builds over the same internal anchors but
/// distinct root entities share nothing: the second build creates only
/// fresh entities, and leaves the first build's root and every entity it
/// recorded alive and exactly as the first build left them.
pub proof fn lemma_root_isolation<P: Payload>(
    t1: Seq<Node<P>>,
    w0: bevy_ecs::world::World,
    root1: u64,
    c1: Seq<(Anchor, Receipt)>,
    w1: bevy_ecs::world::World,
    t2: Seq<Node<P>>,
    root2: u64,
    c2: Seq<(Anchor, Receipt)>,
    w2: bevy_ecs::world::World,
)
    requires
        reconcile_effect(t1, Seq::empty(), w0, root1, c1, w1),
        reconcile_effect(t2, Seq::empty(), w1, root2, c2, w2),
        root2 != root1,
        !list_targets(c1).contains(root2),
    ensures
        forall|t: u64|
            #[trigger] list_targets(c2).contains(t) ==> !list_targets(c1).contains(t) && t
                != root1,
        list_built(t1, c1, w2),
        world_live(w2).contains(root1),
        comp_map(w2, root1) == comp_map(w1, root1),
        kid_list(w2, root1) == kid_list(w1, root1),
{
    let none = Set::<u64>::empty().insert(root2);
    lemma_list_targets_seen(c1, w1);
    // everything the second build records is fresh
    assert forall|t: u64| #[trigger] list_targets(c2).contains(t) implies !list_targets(
        c1,
    ).contains(t) && t != root1 by {
        lemma_list_targets_member(c2, t);
        let k = choose|k: int|
            0 <= k < c2.len() && receipt_targets(#[trigger] c2[k].1).contains(t);
        assert(subset_or_new(
            receipt_targets(c2[k].1),
            key_targets(Seq::empty(), anchor_at(t2, k)),
            w1,
        ));
        assert(!key_targets(Seq::<(Anchor, Receipt)>::empty(), anchor_at(t2, k)).contains(t));
        assert(!world_seen(w1).contains(t) && !world_live(w1).contains(t));
    }
    // the first build's subtrees are untouched
    assert(list_targets(Seq::<(Anchor, Receipt)>::empty()) =~= Set::<u64>::empty());
    assert(preserved_outside(w1, w2, none));
    assert forall|k: int| 0 <= k < t1.len() implies built_node(
        #[trigger] t1[k],
        c1[k].1,
        w2,
    ) by {
        assert(built_node(t1[k], c1[k].1, w1));
        assert(receipt_ok(c1[k].1, w1));
        assert forall|t: u64| #[trigger] receipt_targets(c1[k].1).contains(t) implies
            !none.contains(t) by {
            lemma_child_targets_sub_list(c1, k, t);
        }
        lemma_built_preserved(t1[k], c1[k].1, w1, w2, none);
    }
    // the first root is untouched
    assert(world_live(w1).contains(root1));
    assert(world_live(w2).contains(root1));
    assert(comp_map(w2, root1) == comp_map(w1, root1));
    assert(kid_list(w2, root1) == kid_list(w1, root1)) by {
        assert(kid_list(w1, root1) == list_child_targets(c1));
        assert forall|y: u64| #[trigger] kid_list(w1, root1).to_set().contains(y) implies
            known(w1, y) && !none.contains(y) by {
            let k = choose|k: int|
                0 <= k < list_child_targets(c1).len() && list_child_targets(c1)[k] == y;
            assert(receipt_targets(c1[k].1).contains(y)) by {
                assert(built_node(t1[k], c1[k].1, w1));
                assert(c1[k].1.target == Some(y));
            }
            lemma_child_targets_sub_list(c1, k, y);
            assert(list_targets(c1).contains(y));
        }
    }
}

/// A subtree of a keyed list records only ids the list records.
pub proof fn lemma_child_targets_sub_list(
    s: Seq<(Anchor, Receipt)>,
    k: int,
    t: u64,
)
    requires
        0 <= k < s.len(),
        receipt_targets(s[k].1).contains(t),
    ensures
        list_targets(s).contains(t),
{
    lemma_list_targets_member(s, t);
}

} // verus!
