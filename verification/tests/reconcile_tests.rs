use bevy_ecs::component::{Component, StorageType};
use bevy_ecs::entity::Entity;
use bevy_ecs::world::World;
use bevy_hierarchy::prelude::Children;
use ecs_reconcile::Anchor;
use ecs_reconcile::{Node, Payload, Receipt, Roots, Template, reconcile, reconcile_registry};
use ecs_reconcile::apply_node;

struct CompA(u32);
impl Component for CompA {
    const STORAGE_TYPE: StorageType = StorageType::Table;
}

struct CompB(u32);
impl Component for CompB {
    const STORAGE_TYPE: StorageType = StorageType::Table;
}

struct CompC(u32);
impl Component for CompC {
    const STORAGE_TYPE: StorageType = StorageType::Table;
}

struct CompD(u32);
impl Component for CompD {
    const STORAGE_TYPE: StorageType = StorageType::Table;
}

/// A small closed family of payloads, one variant per component set.
#[derive(Clone)]
enum Pay {
    Empty,
    A(u32),
    B(u32),
    Ab(u32, u32),
    Bc(u32, u32),
}

impl Payload for Pay {
    fn type_ids(&self, w: &mut World) -> Vec<usize> {
        let a = w.register_component::<CompA>().index();
        let b = w.register_component::<CompB>().index();
        let c = w.register_component::<CompC>().index();
        match self {
            Pay::Empty => vec![],
            Pay::A(_) => vec![a],
            Pay::B(_) => vec![b],
            Pay::Ab(_, _) => vec![a, b],
            Pay::Bc(_, _) => vec![b, c],
        }
    }

    fn apply(&self, w: &mut World, e: u64) {
        let ent = Entity::from_bits(e);
        match self {
            Pay::Empty => {}
            Pay::A(x) => {
                w.entity_mut(ent).insert(CompA(*x));
            }
            Pay::B(x) => {
                w.entity_mut(ent).insert(CompB(*x));
            }
            Pay::Ab(x, y) => {
                w.entity_mut(ent).insert((CompA(*x), CompB(*y)));
            }
            Pay::Bc(x, y) => {
                w.entity_mut(ent).insert((CompB(*x), CompC(*y)));
            }
        }
    }
}

fn leaf(name: Option<&str>, payload: Pay) -> Node<Pay> {
    Node { anchor: name.map(|s| s.to_string()), payload, children: vec![] }
}

fn tree(name: Option<&str>, payload: Pay, children: Vec<Node<Pay>>) -> Node<Pay> {
    Node { anchor: name.map(|s| s.to_string()), payload, children }
}

fn spawn_root(w: &mut World) -> u64 {
    w.spawn_empty().id().to_bits()
}

fn kids_of(w: &World, e: u64) -> Vec<u64> {
    match w.get::<Children>(Entity::from_bits(e)) {
        Some(c) => c.iter().map(|k| k.to_bits()).collect(),
        None => vec![],
    }
}

fn top_handles(roots: &Roots) -> Vec<u64> {
    roots.entries.iter().map(|(_, r)| r.target.unwrap()).collect()
}

fn is_alive(w: &World, e: u64) -> bool {
    w.get_entity(Entity::from_bits(e)).is_ok()
}

#[test]
fn first_build_creates_entities_and_components() {
    let mut w = World::new();
    let root = spawn_root(&mut w);
    let mut roots = Roots::new();
    let t: Template<Pay> = vec![leaf(Some("x"), Pay::A(7)), leaf(None, Pay::B(9))];
    reconcile(&mut w, root, &t, &mut roots);
    let hs = top_handles(&roots);
    assert_eq!(hs.len(), 2);
    assert_eq!(kids_of(&w, root), hs);
    assert_eq!(w.get::<CompA>(Entity::from_bits(hs[0])).unwrap().0, 7);
    assert_eq!(w.get::<CompB>(Entity::from_bits(hs[1])).unwrap().0, 9);
    assert!(w.get::<CompB>(Entity::from_bits(hs[0])).is_none());
}

#[test]
fn idempotent_rebuild_keeps_everything() {
    let mut w = World::new();
    let root = spawn_root(&mut w);
    let mut roots = Roots::new();
    let make = || -> Template<Pay> {
        vec![
            tree(Some("p"), Pay::A(1), vec![leaf(None, Pay::B(2)), leaf(Some("q"), Pay::Empty)]),
            leaf(None, Pay::B(3)),
        ]
    };
    reconcile(&mut w, root, &make(), &mut roots);
    let hs1 = top_handles(&roots);
    let sub1 = kids_of(&w, hs1[0]);
    let count1 = w.entities().len();
    reconcile(&mut w, root, &make(), &mut roots);
    let hs2 = top_handles(&roots);
    let sub2 = kids_of(&w, hs2[0]);
    assert_eq!(hs1, hs2);
    assert_eq!(sub1, sub2);
    assert_eq!(kids_of(&w, root), hs2);
    assert_eq!(w.entities().len(), count1);
    assert_eq!(w.get::<CompA>(Entity::from_bits(hs2[0])).unwrap().0, 1);
    assert_eq!(w.get::<CompB>(Entity::from_bits(sub2[0])).unwrap().0, 2);
}

#[test]
fn named_node_keeps_entity_when_moved() {
    let mut w = World::new();
    let root = spawn_root(&mut w);
    let mut roots = Roots::new();
    let t1: Template<Pay> =
        vec![leaf(Some("keep"), Pay::A(1)), leaf(None, Pay::B(2)), leaf(None, Pay::B(3))];
    reconcile(&mut w, root, &t1, &mut roots);
    let moved = top_handles(&roots)[0];
    // the named node moves to the end of the sibling list
    let t2: Template<Pay> =
        vec![leaf(None, Pay::B(2)), leaf(None, Pay::B(3)), leaf(Some("keep"), Pay::A(1))];
    reconcile(&mut w, root, &t2, &mut roots);
    let hs = top_handles(&roots);
    assert_eq!(hs[2], moved);
    assert_eq!(kids_of(&w, root), hs);
}

#[test]
fn component_delta_removes_stale_and_keeps_external() {
    let mut w = World::new();
    let root = spawn_root(&mut w);
    let mut roots = Roots::new();
    let t1: Template<Pay> = vec![leaf(Some("x"), Pay::Ab(1, 2))];
    reconcile(&mut w, root, &t1, &mut roots);
    let x = top_handles(&roots)[0];
    assert_eq!(w.get::<CompA>(Entity::from_bits(x)).unwrap().0, 1);
    assert_eq!(w.get::<CompB>(Entity::from_bits(x)).unwrap().0, 2);
    // something else decorates the entity between the passes
    w.entity_mut(Entity::from_bits(x)).insert(CompD(4));
    let t2: Template<Pay> = vec![leaf(Some("x"), Pay::Bc(5, 6))];
    reconcile(&mut w, root, &t2, &mut roots);
    assert_eq!(top_handles(&roots)[0], x);
    let ent = Entity::from_bits(x);
    assert!(w.get::<CompA>(ent).is_none());
    assert_eq!(w.get::<CompB>(ent).unwrap().0, 5);
    assert_eq!(w.get::<CompC>(ent).unwrap().0, 6);
    assert_eq!(w.get::<CompD>(ent).unwrap().0, 4);
}

#[test]
fn orphan_subtree_is_destroyed_and_siblings_kept() {
    let mut w = World::new();
    let root = spawn_root(&mut w);
    let mut roots = Roots::new();
    let t1: Template<Pay> = vec![
        leaf(Some("a"), Pay::A(1)),
        tree(Some("b"), Pay::B(2), vec![leaf(None, Pay::B(3)), leaf(None, Pay::B(4))]),
        leaf(Some("c"), Pay::A(5)),
    ];
    reconcile(&mut w, root, &t1, &mut roots);
    let hs1 = top_handles(&roots);
    let b_kids = kids_of(&w, hs1[1]);
    assert_eq!(b_kids.len(), 2);
    let t2: Template<Pay> = vec![leaf(Some("a"), Pay::A(1)), leaf(Some("c"), Pay::A(5))];
    reconcile(&mut w, root, &t2, &mut roots);
    let hs2 = top_handles(&roots);
    assert_eq!(hs2, vec![hs1[0], hs1[2]]);
    assert!(!is_alive(&w, hs1[1]));
    assert!(!is_alive(&w, b_kids[0]));
    assert!(!is_alive(&w, b_kids[1]));
    assert!(is_alive(&w, hs1[0]));
    assert!(is_alive(&w, hs1[2]));
    assert_eq!(kids_of(&w, root), hs2);
}

#[test]
fn unnamed_nodes_are_reused_by_position() {
    let mut w = World::new();
    let root = spawn_root(&mut w);
    let mut roots = Roots::new();
    // pass 1: unnamed [P, Q] with distinguishable payloads
    let t1: Template<Pay> = vec![leaf(None, Pay::A(10)), leaf(None, Pay::B(20))];
    reconcile(&mut w, root, &t1, &mut roots);
    let hs1 = top_handles(&roots);
    let (e1, e2) = (hs1[0], hs1[1]);
    // pass 2: the payloads swap places
    let t2: Template<Pay> = vec![leaf(None, Pay::B(20)), leaf(None, Pay::A(10))];
    reconcile(&mut w, root, &t2, &mut roots);
    let hs2 = top_handles(&roots);
    // entities are reused by position, not swapped by content
    assert_eq!(hs2, vec![e1, e2]);
    assert_eq!(w.get::<CompB>(Entity::from_bits(e1)).unwrap().0, 20);
    assert!(w.get::<CompA>(Entity::from_bits(e1)).is_none());
    assert_eq!(w.get::<CompA>(Entity::from_bits(e2)).unwrap().0, 10);
    assert!(w.get::<CompB>(Entity::from_bits(e2)).is_none());
}

#[test]
fn child_order_follows_the_template() {
    let mut w = World::new();
    let root = spawn_root(&mut w);
    let mut roots = Roots::new();
    let t1: Template<Pay> =
        vec![leaf(Some("x"), Pay::Empty), leaf(Some("y"), Pay::Empty), leaf(Some("z"), Pay::Empty)];
    reconcile(&mut w, root, &t1, &mut roots);
    let hs1 = top_handles(&roots);
    let t2: Template<Pay> =
        vec![leaf(Some("z"), Pay::Empty), leaf(Some("x"), Pay::Empty), leaf(Some("y"), Pay::Empty)];
    reconcile(&mut w, root, &t2, &mut roots);
    // same entities, reported in the new authored order
    assert_eq!(kids_of(&w, root), vec![hs1[2], hs1[0], hs1[1]]);
}

#[test]
fn distinct_roots_never_collide() {
    let mut w = World::new();
    let root1 = spawn_root(&mut w);
    let root2 = spawn_root(&mut w);
    let mut roots1 = Roots::new();
    let mut roots2 = Roots::new();
    let make = || -> Template<Pay> { vec![leaf(Some("only"), Pay::A(1)), leaf(None, Pay::B(2))] };
    reconcile(&mut w, root1, &make(), &mut roots1);
    let h1 = top_handles(&roots1);
    let k1 = kids_of(&w, root1);
    reconcile(&mut w, root2, &make(), &mut roots2);
    let h2 = top_handles(&roots2);
    for e in &h2 {
        assert!(!h1.contains(e));
    }
    assert_eq!(kids_of(&w, root1), k1);
    assert_eq!(kids_of(&w, root2), h2);
    assert_eq!(w.get::<CompA>(Entity::from_bits(h1[0])).unwrap().0, 1);
}

#[test]
fn stale_target_is_reallocated_silently() {
    let mut w = World::new();
    let root = spawn_root(&mut w);
    let mut roots = Roots::new();
    let t: Template<Pay> = vec![leaf(Some("s"), Pay::A(3)), leaf(Some("t"), Pay::B(4))];
    reconcile(&mut w, root, &t, &mut roots);
    let hs1 = top_handles(&roots);
    // something outside the reconciler destroys one target
    w.despawn(Entity::from_bits(hs1[0]));
    reconcile(&mut w, root, &t, &mut roots);
    let hs2 = top_handles(&roots);
    assert_ne!(hs2[0], hs1[0]);
    assert_eq!(hs2[1], hs1[1]);
    assert!(is_alive(&w, hs2[0]));
    assert_eq!(w.get::<CompA>(Entity::from_bits(hs2[0])).unwrap().0, 3);
    assert_eq!(kids_of(&w, root), hs2);
}

#[test]
fn empty_template_orphans_all_children() {
    let mut w = World::new();
    let root = spawn_root(&mut w);
    let mut roots = Roots::new();
    let t1: Template<Pay> = vec![leaf(Some("a"), Pay::A(1)), leaf(None, Pay::B(2))];
    reconcile(&mut w, root, &t1, &mut roots);
    let hs = top_handles(&roots);
    let t2: Template<Pay> = vec![];
    reconcile(&mut w, root, &t2, &mut roots);
    assert!(!is_alive(&w, hs[0]));
    assert!(!is_alive(&w, hs[1]));
    assert!(is_alive(&w, root));
    assert_eq!(kids_of(&w, root), Vec::<u64>::new());
    assert!(roots.entries.is_empty());
}

#[test]
fn nested_template_builds_whole_subtree() {
    let mut w = World::new();
    let root = spawn_root(&mut w);
    let mut roots = Roots::new();
    let t: Template<Pay> = vec![tree(
        Some("top"),
        Pay::A(1),
        vec![
            tree(Some("mid"), Pay::B(2), vec![leaf(None, Pay::A(3))]),
            leaf(None, Pay::B(4)),
        ],
    )];
    reconcile(&mut w, root, &t, &mut roots);
    let top = top_handles(&roots)[0];
    let mid_level = kids_of(&w, top);
    assert_eq!(mid_level.len(), 2);
    let deepest = kids_of(&w, mid_level[0]);
    assert_eq!(deepest.len(), 1);
    assert_eq!(w.get::<CompA>(Entity::from_bits(deepest[0])).unwrap().0, 3);
    assert_eq!(kids_of(&w, root), vec![top]);
}

#[test]
fn overwriting_a_component_updates_in_place() {
    let mut w = World::new();
    let root = spawn_root(&mut w);
    let mut roots = Roots::new();
    let t1: Template<Pay> = vec![leaf(Some("v"), Pay::A(1))];
    reconcile(&mut w, root, &t1, &mut roots);
    let e = top_handles(&roots)[0];
    let t2: Template<Pay> = vec![leaf(Some("v"), Pay::A(2))];
    reconcile(&mut w, root, &t2, &mut roots);
    assert_eq!(top_handles(&roots)[0], e);
    assert_eq!(w.get::<CompA>(Entity::from_bits(e)).unwrap().0, 2);
}

#[test]
fn registry_mode_keeps_top_level_identity() {
    let mut w = World::new();
    let mut reg = Roots::new();
    let t1: Template<Pay> = vec![leaf(Some("one"), Pay::A(1)), leaf(Some("two"), Pay::B(2))];
    let h1 = reconcile_registry(&mut w, &t1, &mut reg);
    assert_eq!(h1.len(), 2);
    let t2: Template<Pay> = vec![leaf(Some("one"), Pay::A(9))];
    let h2 = reconcile_registry(&mut w, &t2, &mut reg);
    assert_eq!(h2[0], h1[0]);
    assert_eq!(w.get::<CompA>(Entity::from_bits(h2[0])).unwrap().0, 9);
    // the anchor absent from the second template is destroyed
    assert!(!is_alive(&w, h1[1]));
    assert!(is_alive(&w, h2[0]));
}

#[test]
fn mixed_names_count_only_unnamed_positions() {
    let mut w = World::new();
    let root = spawn_root(&mut w);
    let mut roots = Roots::new();
    // unnamed nodes take positions 0 and 1 among the unnamed only
    let t1: Template<Pay> =
        vec![leaf(None, Pay::A(1)), leaf(Some("n"), Pay::B(2)), leaf(None, Pay::A(3))];
    reconcile(&mut w, root, &t1, &mut roots);
    let hs1 = top_handles(&roots);
    // dropping the named sibling must not disturb the unnamed identities
    let t2: Template<Pay> = vec![leaf(None, Pay::A(1)), leaf(None, Pay::A(3))];
    reconcile(&mut w, root, &t2, &mut roots);
    let hs2 = top_handles(&roots);
    assert_eq!(hs2, vec![hs1[0], hs1[2]]);
    assert!(!is_alive(&w, hs1[1]));
}

#[test]
fn single_node_reconcile_reuses_and_rewrites() {
    let mut w = World::new();
    let node = tree(None, Pay::Ab(1, 2), vec![leaf(Some("kid"), Pay::B(3))]);
    let (e1, receipt1) = apply_node(&mut w, &node, &Receipt::new());
    assert!(is_alive(&w, e1));
    assert_eq!(w.get::<CompA>(Entity::from_bits(e1)).unwrap().0, 1);
    let kid = kids_of(&w, e1)[0];
    // rebuild the same node against its receipt: everything is kept
    let (e2, receipt2) = apply_node(&mut w, &node, &receipt1);
    assert_eq!(e2, e1);
    assert_eq!(kids_of(&w, e2), vec![kid]);
    // a changed payload updates the same entity
    let node2 = tree(None, Pay::Bc(8, 9), vec![leaf(Some("kid"), Pay::B(3))]);
    let (e3, _receipt3) = apply_node(&mut w, &node2, &receipt2);
    assert_eq!(e3, e1);
    let ent = Entity::from_bits(e3);
    assert!(w.get::<CompA>(ent).is_none());
    assert_eq!(w.get::<CompB>(ent).unwrap().0, 8);
    assert_eq!(w.get::<CompC>(ent).unwrap().0, 9);
}

#[test]
fn registry_rebuild_is_idempotent() {
    let mut w = World::new();
    let mut reg = Roots::new();
    let make = || -> Template<Pay> {
        vec![leaf(Some("one"), Pay::A(1)), leaf(None, Pay::B(2))]
    };
    let h1 = reconcile_registry(&mut w, &make(), &mut reg);
    let count = w.entities().len();
    let h2 = reconcile_registry(&mut w, &make(), &mut reg);
    assert_eq!(h1, h2);
    assert_eq!(w.entities().len(), count);
    assert_eq!(w.get::<CompA>(Entity::from_bits(h2[0])).unwrap().0, 1);
}

#[test]
fn anchors_compare_by_kind_and_value() {
    let a = Anchor::Named("left".to_string());
    let b = Anchor::Named("left".to_string());
    let c = Anchor::Named("right".to_string());
    let d = Anchor::Auto(0);
    let e = Anchor::Auto(0);
    let f = Anchor::Auto(1);
    assert!(a.matches(&b));
    assert!(!a.matches(&c));
    assert!(d.matches(&e));
    assert!(!d.matches(&f));
    assert!(!a.matches(&d));
}
