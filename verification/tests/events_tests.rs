use grif_scene::events::{load_scene, save_scene, EventQueue};

#[test]
fn save_requests_coalesce_into_one_action() {
    // K presses within one tick: exactly one save, queue empty after.
    let mut q = EventQueue::new();
    q.send();
    q.send();
    q.send();
    let first = save_scene(&mut q);
    assert!(first.is_some(), "one save action fires");
    assert!(q.is_empty(), "the queue is empty at the next tick");
    let second = save_scene(&mut q);
    assert!(second.is_none(), "no second save without a new signal");
}

#[test]
fn save_without_signal_does_nothing() {
    let mut q = EventQueue::new();
    assert!(save_scene(&mut q).is_none());
    assert!(q.is_empty());
}

#[test]
fn load_requests_coalesce_into_one_action() {
    let mut q = EventQueue::new();
    q.send();
    q.send();
    assert!(load_scene(&mut q), "one load action fires");
    assert!(q.is_empty());
    assert!(!load_scene(&mut q), "nothing pending on the next tick");
}

#[test]
fn queues_are_independent() {
    let mut save_q = EventQueue::new();
    let mut load_q = EventQueue::new();
    save_q.send();
    assert!(save_scene(&mut save_q).is_some());
    assert!(!load_scene(&mut load_q), "a save signal never triggers a load");
}

#[test]
fn saves_produce_identical_bytes() {
    let mut q1 = EventQueue::new();
    q1.send();
    let b1 = save_scene(&mut q1).unwrap();
    let mut q2 = EventQueue::new();
    q2.send();
    let b2 = save_scene(&mut q2).unwrap();
    assert_eq!(b1, b2, "the save payload never depends on anything live");
}
