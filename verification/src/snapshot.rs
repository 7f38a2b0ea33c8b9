//! The persisted scene snapshot: a fixed, deterministic payload.
//!
//! Saving never captures the live scene.  It always produces the same
//! minimal scene: twenty-six point lights, evenly spaced one unit
//! apart along one axis starting at the origin offset, all sharing one
//! fixed color and default parameters.

use vstd::prelude::*;
use crate::scene::{fresh_ent, LightKind, SceneWorld};

verus! {

/// A color, in whole channel units (red, green, blue, alpha).
#[derive(Clone, Copy, PartialEq, Eq, Structural, Debug)]
pub struct ColorRgba {
    pub red: u32,
    pub green: u32,
    pub blue: u32,
    pub alpha: u32,
}

/// The fixed yellow every snapshot light shares.
pub open spec fn yellow_spec() -> ColorRgba {
    ColorRgba { red: 1, green: 1, blue: 0, alpha: 1 }
}

/// One light of a snapshot: kind, position in whole units, color.
#[derive(Clone, Copy, PartialEq, Eq, Structural, Debug)]
pub struct LightRec {
    pub kind: LightKind,
    pub x: u32,
    pub y: u32,
    pub z: u32,
    pub color: ColorRgba,
}

/// The number of lights in the snapshot payload.
pub open spec fn payload_len() -> int {
    26
}

/// The snapshot payload: point lights at (i, 5, 0) for i in 0..26,
/// one unit apart along the x axis, all yellow.
pub open spec fn payload_spec() -> Seq<LightRec> {
    Seq::new(
        payload_len() as nat,
        |i: int|
            LightRec {
                kind: LightKind::Point,
                x: i as u32,
                y: 5,
                z: 0,
                color: yellow_spec(),
            },
    )
}

/// Build the snapshot payload.  The result is the same fixed set of
/// point lights whatever the live scene holds at save time.
pub fn save_payload() -> (r: Vec<LightRec>)
    ensures
        r@ == payload_spec(),
{
    let mut out: Vec<LightRec> = Vec::new();
    let mut i: u32 = 0;
    while i < 26
        invariant
            i <= 26,
            out@.len() == i as int,
            forall|k: int| 0 <= k < i as int ==> out@[k] == payload_spec()[k],
        decreases 26 - i,
    {
        out.push(
            LightRec {
                kind: LightKind::Point,
                x: i,
                y: 5,
                z: 0,
                color: ColorRgba { red: 1, green: 1, blue: 0, alpha: 1 },
            },
        );
        i = i + 1;
    }
    proof {
        assert(out@ =~= payload_spec());
    }
    out
}

/// Attach a loaded snapshot to the live world: spawn one top-level
/// entity per light record, carrying the light tag of its kind.  The
/// spawn happens immediately; nothing existing is touched.
pub fn attach_snapshot(world: &mut SceneWorld, lights: &Vec<LightRec>) -> (first: usize)
    requires
        old(world).inv(),
    ensures
        final(world).inv(),
        first == old(world)@.len(),
        final(world)@.len() == old(world)@.len() + lights@.len(),
        forall|d: int| 0 <= d < old(world)@.len() ==> final(world)@[d] == old(world)@[d],
        forall|k: int|
            0 <= k < lights@.len() ==> final(world)@[old(world)@.len() + k] == fresh_ent(
                None,
                Some(lights@[k].kind),
                false,
                false,
                false,
            ),
{
    let first = world.num_entities();
    let mut k: usize = 0;
    while k < lights.len()
        invariant
            world.inv(),
            first == old(world)@.len(),
            k <= lights@.len(),
            world@.len() == old(world)@.len() + k,
            forall|d: int| 0 <= d < old(world)@.len() ==> world@[d] == old(world)@[d],
            forall|j: int|
                0 <= j < k as int ==> world@[old(world)@.len() + j] == fresh_ent(
                    None,
                    Some(lights@[j].kind),
                    false,
                    false,
                    false,
                ),
        decreases lights@.len() - k,
    {
        world.spawn(None, Some(lights[k].kind), false, false, false);
        k = k + 1;
    }
    first
}

} // verus!
