//! Scene-graph repair and event-driven persistence for an imported 3D scene.
//!
//! The crate models a scene as an arena of entities carrying component
//! tables (hierarchy edges, material references, light and camera tags,
//! lifecycle markers).  On top of that model it verifies:
//!
//! - a post-order tree walker over the parent-to-children relation,
//! - a sanitizer that repairs freshly imported subtrees in place
//!   (flips a material convention flag, removes baked-in lights and
//!   cameras, clears the pending marker exactly once),
//! - two one-shot event queues that coalesce repeated save/load
//!   requests into a single action per scheduling tick, and
//! - a deterministic snapshot payload together with a textual
//!   encoding whose round trip is proved exact.

pub mod scene;
pub mod walker;
pub mod sanitize;
pub mod snapshot;
pub mod codec;
pub mod events;
