//! The scene-graph model: an arena of entities with component tables.
//!
//! An entity is an index into parallel tables.  The hierarchy is a
//! parent-to-children relation in which every child id is strictly
//! greater than its parent's id (entities are spawned top-down), which
//! makes the relation acyclic by construction.

use vstd::prelude::*;
use crate::walker::{all_children, lemma_post_visits_bounds, post_visits};

verus! {

/// `d` occurs in `s` (as an id).
pub open spec fn seq_has(s: Seq<usize>, d: int) -> bool {
    exists|j: int| 0 <= j < s.len() && s[j] as int == d
}

/// `d` occurs among the first `n` elements of `s`.
pub open spec fn seq_has_upto(s: Seq<usize>, n: int, d: int) -> bool {
    exists|j: int| 0 <= j < n && j < s.len() && s[j] as int == d
}

/// The kind of light component a scene entity can carry.
#[derive(Clone, Copy, PartialEq, Eq, Structural, Debug)]
pub enum LightKind {
    Point,
    Directional,
    Spot,
}

/// Mathematical view of one entity: its components as plain values.
///
/// `children` is `None` when the entity carries no child list at all
/// (distinct from an empty list: an imported subtree root has no child
/// list until its asset has finished streaming in).
#[verifier::ext_equal]
pub struct EntView {
    pub alive: bool,
    pub children: Option<Seq<usize>>,
    pub material: Option<usize>,
    pub light: Option<LightKind>,
    pub generated: bool,
    pub camera: bool,
    pub post_proc: bool,
}

/// The children of entity `e`, or the empty sequence when `e` has no
/// child list.
pub open spec fn kids_of(w: Seq<EntView>, e: int) -> Seq<usize> {
    match w[e].children {
        Some(s) => s,
        None => Seq::empty(),
    }
}

/// Well-formedness of the hierarchy: every child id lies strictly
/// between its parent's id and the arena length.  This orders every
/// path by increasing id, so the relation is acyclic.
pub open spec fn wf_world(w: Seq<EntView>) -> bool {
    forall|e: int, i: int|
        0 <= e < w.len() && 0 <= i < kids_of(w, e).len() ==> e < #[trigger] kids_of(
            w,
            e,
        )[i] < w.len()
}

/// `d` is `e` itself, or is visited by the post-order walk of `e`'s
/// subtree.
pub open spec fn in_tree(w: Seq<EntView>, e: int, d: int) -> bool {
    d == e || seq_has(post_visits(w, kids_of(w, e), e), d)
}

/// `w2` has the same hierarchy as `w1`: well-formedness carries over.
pub proof fn lemma_wf_same_children(w1: Seq<EntView>, w2: Seq<EntView>)
    requires
        w1.len() == w2.len(),
        forall|d: int| 0 <= d < w1.len() ==> w1[d].children == #[trigger] w2[d].children,
        wf_world(w1),
    ensures
        wf_world(w2),
{
    assert forall|e: int, i: int|
        0 <= e < w2.len() && 0 <= i < kids_of(w2, e).len() implies e < #[trigger] kids_of(
        w2,
        e,
    )[i] < w2.len() by {
        assert(w1[e].children == w2[e].children);
        assert(kids_of(w2, e) == kids_of(w1, e));
    }
}

/// `v` with its child list replaced.
pub open spec fn ent_with_children(v: EntView, c: Option<Seq<usize>>) -> EntView {
    EntView {
        alive: v.alive,
        children: c,
        material: v.material,
        light: v.light,
        generated: v.generated,
        camera: v.camera,
        post_proc: v.post_proc,
    }
}

/// `v` with its liveness flag replaced.
pub open spec fn ent_with_alive(v: EntView, a: bool) -> EntView {
    EntView {
        alive: a,
        children: v.children,
        material: v.material,
        light: v.light,
        generated: v.generated,
        camera: v.camera,
        post_proc: v.post_proc,
    }
}

/// `v` with its pending-sanitization marker replaced.
pub open spec fn ent_with_post_proc(v: EntView, p: bool) -> EntView {
    EntView {
        alive: v.alive,
        children: v.children,
        material: v.material,
        light: v.light,
        generated: v.generated,
        camera: v.camera,
        post_proc: p,
    }
}

/// A freshly spawned entity: alive, no child list.
pub open spec fn fresh_ent(
    material: Option<usize>,
    light: Option<LightKind>,
    generated: bool,
    camera: bool,
    post_proc: bool,
) -> EntView {
    EntView { alive: true, children: None, material, light, generated, camera, post_proc }
}

/// The scene graph: parallel component tables addressed by entity id.
pub struct SceneWorld {
    pub alive: Vec<bool>,
    pub children: Vec<Option<Vec<usize>>>,
    pub material: Vec<Option<usize>>,
    pub light: Vec<Option<LightKind>>,
    pub generated: Vec<bool>,
    pub camera: Vec<bool>,
    pub post_proc: Vec<bool>,
}

impl View for SceneWorld {
    type V = Seq<EntView>;

    open spec fn view(&self) -> Seq<EntView> {
        Seq::new(
            self.alive@.len(),
            |i: int|
                EntView {
                    alive: self.alive@[i],
                    children: match self.children@[i] {
                        Some(v) => Some(v@),
                        None => None,
                    },
                    material: self.material@[i],
                    light: self.light@[i],
                    generated: self.generated@[i],
                    camera: self.camera@[i],
                    post_proc: self.post_proc@[i],
                },
        )
    }
}

impl SceneWorld {
    /// All component tables have one row per entity and the hierarchy
    /// is well formed.
    pub open spec fn inv(&self) -> bool {
        &&& self.children@.len() == self.alive@.len()
        &&& self.material@.len() == self.alive@.len()
        &&& self.light@.len() == self.alive@.len()
        &&& self.generated@.len() == self.alive@.len()
        &&& self.camera@.len() == self.alive@.len()
        &&& self.post_proc@.len() == self.alive@.len()
        &&& wf_world(self@)
    }

    /// An empty scene.
    pub fn new() -> (w: SceneWorld)
        ensures
            w.inv(),
            w@.len() == 0,
    {
        SceneWorld {
            alive: Vec::new(),
            children: Vec::new(),
            material: Vec::new(),
            light: Vec::new(),
            generated: Vec::new(),
            camera: Vec::new(),
            post_proc: Vec::new(),
        }
    }

    /// Number of arena rows (despawned entities keep their row).
    pub fn num_entities(&self) -> (n: usize)
        ensures
            n == self@.len(),
    {
        self.alive.len()
    }

    /// Spawn a top-level entity with the given components.
    pub fn spawn(
        &mut self,
        material: Option<usize>,
        light: Option<LightKind>,
        generated: bool,
        camera: bool,
        post_proc: bool,
    ) -> (id: usize)
        requires
            old(self).inv(),
        ensures
            final(self).inv(),
            id == old(self)@.len(),
            final(self)@ == old(self)@.push(fresh_ent(material, light, generated, camera, post_proc)),
    {
        let id = self.alive.len();
        self.alive.push(true);
        self.children.push(None);
        self.material.push(material);
        self.light.push(light);
        self.generated.push(generated);
        self.camera.push(camera);
        self.post_proc.push(post_proc);
        proof {
            let w0 = old(self)@;
            let w1 = self@;
            let f = fresh_ent(material, light, generated, camera, post_proc);
            assert(w1 =~~= w0.push(f));
            assert forall|e: int, i: int|
                0 <= e < w1.len() && 0 <= i < kids_of(w1, e).len() implies e < #[trigger] kids_of(
                w1,
                e,
            )[i] < w1.len() by {
                if e < w0.len() {
                    assert(kids_of(w1, e) == kids_of(w0, e));
                } else {
                    assert(kids_of(w1, e).len() == 0);
                }
            }
        }
        id
    }

    /// Spawn an entity as the last child of `parent`, creating the
    /// parent's child list if it had none.
    pub fn spawn_child(
        &mut self,
        parent: usize,
        material: Option<usize>,
        light: Option<LightKind>,
        generated: bool,
        camera: bool,
        post_proc: bool,
    ) -> (id: usize)
        requires
            old(self).inv(),
            parent < old(self)@.len(),
        ensures
            final(self).inv(),
            id == old(self)@.len(),
            final(self)@ == old(self)@.update(
                parent as int,
                ent_with_children(
                    old(self)@[parent as int],
                    Some(kids_of(old(self)@, parent as int).push(id)),
                ),
            ).push(fresh_ent(material, light, generated, camera, post_proc)),
    {
        let id = self.alive.len();
        let mut kids: Vec<usize>;
        match &self.children[parent] {
            Some(k) => {
                kids = k.clone();
            },
            None => {
                kids = Vec::new();
            },
        }
        proof {
            assert(kids@ =~= kids_of(old(self)@, parent as int));
        }
        kids.push(id);
        self.children.set(parent, Some(kids));
        self.alive.push(true);
        self.material.push(material);
        self.light.push(light);
        self.generated.push(generated);
        self.camera.push(camera);
        self.post_proc.push(post_proc);
        self.children.push(None);
        proof {
            let w0 = old(self)@;
            let w1 = self@;
            let p = parent as int;
            let f = fresh_ent(material, light, generated, camera, post_proc);
            let wexp = w0.update(p, ent_with_children(w0[p], Some(kids_of(w0, p).push(id)))).push(f);
            assert(w1 =~~= wexp);
            assert forall|e: int, i: int|
                0 <= e < w1.len() && 0 <= i < kids_of(w1, e).len() implies e < #[trigger] kids_of(
                w1,
                e,
            )[i] < w1.len() by {
                if e == p {
                    let ks = kids_of(w1, p);
                    assert(ks == kids_of(w0, p).push(id));
                    if i < kids_of(w0, p).len() {
                        assert(ks[i] == kids_of(w0, p)[i]);
                    } else {
                        assert(ks[i] == id);
                    }
                } else if e < w0.len() {
                    assert(kids_of(w1, e) == kids_of(w0, e));
                } else {
                    assert(kids_of(w1, e).len() == 0);
                }
            }
        }
        id
    }
    /// Despawn `e` together with its entire subtree: every entity of
    /// the subtree is marked not alive; no other component changes.
    /// Entities already despawned stay despawned (a repeated despawn
    /// is tolerated, not an error).
    pub fn despawn_recursive(&mut self, e: usize)
        requires
            old(self).inv(),
            e < old(self)@.len(),
        ensures
            final(self).inv(),
            final(self)@.len() == old(self)@.len(),
            forall|d: int|
                0 <= d < old(self)@.len() ==> final(self)@[d] == ent_with_alive(
                    old(self)@[d],
                    old(self)@[d].alive && !in_tree(old(self)@, e as int, d),
                ),
    {
        let ghost w0 = old(self)@;
        let mut kids: Vec<usize>;
        match &self.children[e] {
            Some(k) => {
                kids = k.clone();
            },
            None => {
                kids = Vec::new();
            },
        }
        proof {
            assert(kids@ =~= kids_of(w0, e as int));
        }
        let vs = all_children(self, &kids, e);
        proof {
            lemma_post_visits_bounds(w0, kids@, e as int);
        }
        let mut i: usize = 0;
        while i < vs.len()
            invariant
                e < w0.len(),
                wf_world(w0),
                vs@ == post_visits(w0, kids_of(w0, e as int), e as int),
                forall|j: int| 0 <= j < vs@.len() ==> e < #[trigger] vs@[j] < w0.len(),
                i <= vs@.len(),
                self.inv(),
                self@.len() == w0.len(),
                forall|d: int|
                    0 <= d < w0.len() ==> self@[d] == ent_with_alive(
                        w0[d],
                        w0[d].alive && !seq_has_upto(vs@, i as int, d),
                    ),
            decreases vs@.len() - i,
        {
            let ghost wp = self@;
            let v = vs[i];
            self.alive.set(v, false);
            proof {
                assert(self@ =~~= wp.update(v as int, ent_with_alive(wp[v as int], false)));
                assert forall|d: int|
                    0 <= d < w0.len() implies self@[d] == ent_with_alive(
                    w0[d],
                    w0[d].alive && !seq_has_upto(vs@, i as int + 1, d),
                ) by {
                    if d == v as int {
                        assert(seq_has_upto(vs@, i as int + 1, d));
                        assert(self@[d] == ent_with_alive(wp[d], false));
                        assert(ent_with_alive(wp[d], false) =~= ent_with_alive(w0[d], false));
                    } else {
                        assert(self@[d] == wp[d]);
                        assert(seq_has_upto(vs@, i as int + 1, d) == seq_has_upto(
                            vs@,
                            i as int,
                            d,
                        )) by {
                            if seq_has_upto(vs@, i as int + 1, d) {
                                let j = choose|j: int|
                                    0 <= j < i as int + 1 && j < vs@.len() && vs@[j] as int == d;
                                assert(j != i as int);
                                assert(seq_has_upto(vs@, i as int, d));
                            }
                        }
                    }
                }
                lemma_wf_same_children(w0, self@);
            }
            i = i + 1;
        }
        let ghost wp = self@;
        self.alive.set(e, false);
        proof {
            assert(self@ =~~= wp.update(e as int, ent_with_alive(wp[e as int], false)));
            assert forall|d: int|
                0 <= d < w0.len() implies self@[d] == ent_with_alive(
                w0[d],
                w0[d].alive && !in_tree(w0, e as int, d),
            ) by {
                assert(seq_has_upto(vs@, vs@.len() as int, d) == seq_has(vs@, d));
                if d == e as int {
                    assert(in_tree(w0, e as int, d));
                    assert(self@[d] == ent_with_alive(wp[d], false));
                    assert(ent_with_alive(wp[d], false) =~= ent_with_alive(w0[d], false));
                } else {
                    assert(self@[d] == wp[d]);
                    assert(in_tree(w0, e as int, d) == seq_has(vs@, d));
                }
            }
            lemma_wf_same_children(w0, self@);
        }
    }
}

/// The store after setting the flipped flag of resource `id` to true:
/// a missing or out-of-range resource leaves the store unchanged.
/// Setting the flag is idempotent, so sharing one resource between
/// many entities is safe and convergent.
pub open spec fn flip_spec(m: Seq<Option<bool>>, id: int) -> Seq<Option<bool>> {
    if 0 <= id < m.len() && m[id] is Some {
        m.update(id, Some(true))
    } else {
        m
    }
}

/// The shared material store: one row per material resource.  A row
/// holds the resource's normal-map-Y-flipped flag, or `None` where the
/// resource is missing (freed, or not yet streamed in).
pub struct MaterialStore {
    pub flipped: Vec<Option<bool>>,
}

impl View for MaterialStore {
    type V = Seq<Option<bool>>;

    open spec fn view(&self) -> Seq<Option<bool>> {
        self.flipped@
    }
}

impl MaterialStore {
    /// An empty store.
    pub fn new() -> (m: MaterialStore)
        ensures
            m@.len() == 0,
    {
        MaterialStore { flipped: Vec::new() }
    }

    /// Add a material resource; its id is the row index.
    pub fn add_material(&mut self, flip_normal_map_y: bool) -> (id: usize)
        ensures
            id == old(self)@.len(),
            final(self)@ == old(self)@.push(Some(flip_normal_map_y)),
    {
        let id = self.flipped.len();
        self.flipped.push(Some(flip_normal_map_y));
        id
    }

    /// Free a material resource, keeping its row as missing.
    pub fn remove_material(&mut self, id: usize)
        requires
            id < old(self)@.len(),
        ensures
            final(self)@ == old(self)@.update(id as int, None),
    {
        self.flipped.set(id, None);
    }

    /// The flipped flag of resource `id`, or `None` where it is missing.
    pub fn material_flipped(&self, id: usize) -> (r: Option<bool>)
        ensures
            r == (if id < self@.len() {
                self@[id as int]
            } else {
                None::<bool>
            }),
    {
        if id < self.flipped.len() {
            self.flipped[id]
        } else {
            None
        }
    }

    /// Set the normal-map-Y-flipped flag of resource `id` to true.
    /// A missing or out-of-range resource is skipped, not an error.
    pub fn flip_normal_map_y(&mut self, id: usize)
        ensures
            final(self)@ == flip_spec(old(self)@, id as int),
    {
        if id < self.flipped.len() {
            if self.flipped[id].is_some() {
                self.flipped.set(id, Some(true));
            }
        }
        proof {
            if !(id < old(self)@.len() && old(self)@[id as int] is Some) {
                assert(self@ =~= old(self)@);
            }
        }
    }
}

} // verus!
