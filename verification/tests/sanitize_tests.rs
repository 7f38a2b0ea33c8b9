use grif_scene::sanitize::proc_scene;
use grif_scene::scene::{LightKind, MaterialStore, SceneWorld};

/// An imported subtree: a marked root with a mesh child (sharing a
/// material), a baked-in point light, a generated light and a camera.
fn demo_scene(mats: &mut MaterialStore) -> (SceneWorld, usize, usize, usize, usize, usize) {
    let m = mats.add_material(false);
    let mut w = SceneWorld::new();
    let root = w.spawn(None, None, false, false, true);
    let mesh = w.spawn_child(root, Some(m), None, false, false, false);
    let baked = w.spawn_child(root, None, Some(LightKind::Point), false, false, false);
    let generated = w.spawn_child(root, None, Some(LightKind::Spot), true, false, false);
    let camera = w.spawn_child(root, None, None, false, true, false);
    (w, root, mesh, baked, generated, camera)
}

#[test]
fn sanitizer_flips_material() {
    let mut mats = MaterialStore::new();
    let (mut w, _root, _mesh, _baked, _generated, _camera) = demo_scene(&mut mats);
    assert_eq!(mats.material_flipped(0), Some(false));
    proc_scene(&mut w, &mut mats);
    assert_eq!(mats.material_flipped(0), Some(true));
}

#[test]
fn sanitizer_removes_baked_lights_and_cameras() {
    let mut mats = MaterialStore::new();
    let (mut w, root, mesh, baked, generated, camera) = demo_scene(&mut mats);
    proc_scene(&mut w, &mut mats);
    assert!(w.alive[root]);
    assert!(w.alive[mesh]);
    assert!(!w.alive[baked], "baked-in light must be despawned");
    assert!(w.alive[generated], "generated light must survive");
    assert!(!w.alive[camera], "imported camera must be despawned");
}

#[test]
fn sanitizer_despawns_whole_subtree() {
    let mut mats = MaterialStore::new();
    let mut w = SceneWorld::new();
    let root = w.spawn(None, None, false, false, true);
    let light = w.spawn_child(root, None, Some(LightKind::Directional), false, false, false);
    let fixture = w.spawn_child(light, None, None, false, false, false);
    let bulb = w.spawn_child(fixture, None, None, false, false, false);
    proc_scene(&mut w, &mut mats);
    assert!(!w.alive[light]);
    assert!(!w.alive[fixture], "descendants of a removed light go with it");
    assert!(!w.alive[bulb]);
}

#[test]
fn sanitizer_clears_marker_and_is_idempotent() {
    let mut mats = MaterialStore::new();
    let (mut w, root, _mesh, _baked, _generated, _camera) = demo_scene(&mut mats);
    assert!(w.post_proc[root]);
    proc_scene(&mut w, &mut mats);
    assert!(!w.post_proc[root], "marker is removed exactly once");
    let alive_after = w.alive.clone();
    let marks_after = w.post_proc.clone();
    let flips_after = mats.flipped.clone();
    proc_scene(&mut w, &mut mats);
    assert_eq!(w.alive, alive_after, "second pass is a no-op");
    assert_eq!(w.post_proc, marks_after);
    assert_eq!(mats.flipped, flips_after);
}

#[test]
fn sanitizer_skips_unmarked_subtrees() {
    let mut mats = MaterialStore::new();
    let m = mats.add_material(false);
    let mut w = SceneWorld::new();
    let root = w.spawn(None, None, false, false, false);
    let _light = w.spawn_child(root, Some(m), Some(LightKind::Point), false, false, false);
    proc_scene(&mut w, &mut mats);
    assert!(w.alive[1], "a stable subtree is never revisited");
    assert_eq!(mats.material_flipped(m), Some(false));
}

#[test]
fn sanitizer_tolerates_missing_material() {
    let mut mats = MaterialStore::new();
    let m = mats.add_material(false);
    mats.remove_material(m);
    let mut w = SceneWorld::new();
    let root = w.spawn(None, None, false, false, true);
    let _mesh = w.spawn_child(root, Some(m), None, false, false, false);
    proc_scene(&mut w, &mut mats);
    assert_eq!(mats.material_flipped(m), None, "missing resource is skipped");
    assert!(!w.post_proc[root]);
}

#[test]
fn sanitizer_retries_root_without_children() {
    // The asset has not streamed in yet: no child list, marker stays.
    let mut mats = MaterialStore::new();
    let mut w = SceneWorld::new();
    let root = w.spawn(None, None, false, false, true);
    proc_scene(&mut w, &mut mats);
    assert!(w.post_proc[root], "marker stays set until a walk completes");
}

#[test]
fn shared_material_flip_is_convergent() {
    // Many entities share one resource: same end state as one flip.
    let mut mats = MaterialStore::new();
    let m = mats.add_material(false);
    let mut w = SceneWorld::new();
    let root = w.spawn(None, None, false, false, true);
    for _ in 0..4 {
        w.spawn_child(root, Some(m), None, false, false, false);
    }
    proc_scene(&mut w, &mut mats);
    assert_eq!(mats.material_flipped(m), Some(true));
    // Flipping again (another marked subtree, same resource) changes nothing.
    let extra = w.spawn(None, None, false, false, true);
    w.spawn_child(extra, Some(m), None, false, false, false);
    proc_scene(&mut w, &mut mats);
    assert_eq!(mats.material_flipped(m), Some(true));
}

#[test]
fn flip_is_never_reset() {
    let mut mats = MaterialStore::new();
    let m = mats.add_material(true);
    let mut w = SceneWorld::new();
    let root = w.spawn(None, None, false, false, true);
    w.spawn_child(root, None, None, false, false, false);
    proc_scene(&mut w, &mut mats);
    assert_eq!(mats.material_flipped(m), Some(true), "the flag is monotonic");
}
