//! The persistence event gateway: two independent one-shot signal
//! queues, drained once per scheduling tick.
//!
//! Signals carry no payload; a queue only counts what is pending.
//! Draining is level-coalescing, not edge-counting: any number of
//! signals enqueued within one tick produces exactly one action, and
//! the queue is empty at the start of the next tick.

use vstd::prelude::*;
use crate::codec::{serialize_snapshot, snapshot_bytes};
use crate::snapshot::{payload_spec, save_payload};

verus! {

/// What draining a queue holding `c` pending signals does: whether an
/// action fires, and how many signals stay pending.
pub open spec fn drain_spec(c: int) -> (bool, int) {
    (c > 0, 0)
}

/// A one-shot signal queue.
pub struct EventQueue {
    pub pending: u64,
}

impl EventQueue {
    /// The number of pending signals.
    pub open spec fn count(&self) -> int {
        self.pending as int
    }

    /// An empty queue.
    pub fn new() -> (q: EventQueue)
        ensures
            q.count() == 0,
    {
        EventQueue { pending: 0 }
    }

    /// Enqueue one signal (one edge-triggered key press).
    pub fn send(&mut self)
        requires
            old(self).count() < u64::MAX,
        ensures
            final(self).count() == old(self).count() + 1,
    {
        self.pending = self.pending + 1;
    }

    /// Whether nothing is pending.
    pub fn is_empty(&self) -> (r: bool)
        ensures
            r == (self.count() == 0),
    {
        self.pending == 0
    }

    /// Drain the queue for this tick: report whether any signal was
    /// pending and clear the queue, so repeated signals within one
    /// tick coalesce into a single action.
    pub fn drain(&mut self) -> (fired: bool)
        ensures
            (fired, final(self).count()) == drain_spec(old(self).count()),
    {
        let fired = self.pending > 0;
        self.pending = 0;
        fired
    }
}

/// Coalescing: for any number k (k at least 1) of signals pending
/// within one tick, draining fires exactly one action and empties the
/// queue, and the drain of the next tick fires nothing.
pub proof fn lemma_event_coalescing(k: int)
    requires
        k >= 1,
    ensures
        drain_spec(k).0,
        drain_spec(k).1 == 0,
        !drain_spec(drain_spec(k).1).0,
{
}

/// The save path of one tick.  When at least one save signal is
/// pending, the queue is cleared and the serialized bytes of the fixed
/// snapshot payload are produced for the caller to hand to a detached
/// write task; with no signal pending, nothing is produced.  The
/// payload never depends on the live scene.
pub fn save_scene(save_events: &mut EventQueue) -> (r: Option<Vec<u8>>)
    ensures
        final(save_events).count() == 0,
        r is Some <==> old(save_events).count() > 0,
        r is Some ==> r.unwrap()@ == snapshot_bytes(payload_spec()),
{
    if save_events.drain() {
        let lights = save_payload();
        let bytes = serialize_snapshot(&lights);
        Some(bytes)
    } else {
        None
    }
}

/// The load path of one tick.  When at least one load signal is
/// pending, the queue is cleared and the caller is told to issue the
/// asynchronous read of the well-known snapshot file and attach its
/// contents once resolved; this function never blocks on that work.
pub fn load_scene(load_events: &mut EventQueue) -> (fired: bool)
    ensures
        final(load_events).count() == 0,
        fired == (old(load_events).count() > 0),
{
    load_events.drain()
}

} // verus!
