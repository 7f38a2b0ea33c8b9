use grif_scene::scene::{LightKind, SceneWorld};
use grif_scene::walker::all_children;

fn plain(world: &mut SceneWorld) -> usize {
    world.spawn(None, None, false, false, false)
}

fn plain_child(world: &mut SceneWorld, parent: usize) -> usize {
    world.spawn_child(parent, None, None, false, false, false)
}

#[test]
fn traversal_order_chain() {
    // A -> B -> C: the action must fire on C before B.
    let mut w = SceneWorld::new();
    let a = plain(&mut w);
    let b = plain_child(&mut w, a);
    let c = plain_child(&mut w, b);
    let kids = vec![b];
    let visits = all_children(&w, &kids, a);
    assert_eq!(visits, vec![c, b]);
}

#[test]
fn traversal_child_before_parent_every_edge() {
    // Root with two subtrees; every child is visited before its parent.
    let mut w = SceneWorld::new();
    let root = plain(&mut w);
    let b1 = plain_child(&mut w, root);
    let b2 = plain_child(&mut w, root);
    let c1 = plain_child(&mut w, b1);
    let c2 = plain_child(&mut w, b2);
    let d1 = plain_child(&mut w, c1);
    let kids = vec![b1, b2];
    let visits = all_children(&w, &kids, root);
    assert_eq!(visits, vec![d1, c1, b1, c2, b2]);
    for (parent, child) in [(b1, c1), (b2, c2), (c1, d1)] {
        let pi = visits.iter().position(|&e| e == parent).unwrap();
        let ci = visits.iter().position(|&e| e == child).unwrap();
        assert!(ci < pi, "child must be visited before its parent");
    }
}

#[test]
fn traversal_stops_at_leaves() {
    let mut w = SceneWorld::new();
    let a = plain(&mut w);
    let b = plain_child(&mut w, a);
    // b has no child list at all: recursion simply ends there.
    let kids = vec![b];
    let visits = all_children(&w, &kids, a);
    assert_eq!(visits, vec![b]);
}

#[test]
fn traversal_covers_lights_and_cameras() {
    let mut w = SceneWorld::new();
    let a = plain(&mut w);
    let l = w.spawn_child(a, None, Some(LightKind::Point), false, false, false);
    let cam = w.spawn_child(a, None, None, false, true, false);
    let kids = vec![l, cam];
    let visits = all_children(&w, &kids, a);
    assert_eq!(visits, vec![l, cam]);
}
