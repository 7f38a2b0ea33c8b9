//! The scene sanitizer: repairs freshly imported subtrees in place.
//!
//! Once per scheduling tick, every entity still carrying the pending
//! marker whose child list has streamed in is walked post-order; every
//! visited descendant with a material reference has the shared
//! material's normal-map-Y convention flag set, every visited light
//! not created by this application and every visited camera is
//! despawned with its subtree, and the marker is then removed from the
//! root, so a subtree is repaired at most once.

use vstd::prelude::*;
use crate::scene::{
    ent_with_alive, ent_with_post_proc, flip_spec, in_tree, kids_of, lemma_wf_same_children,
    wf_world, EntView, MaterialStore, SceneWorld,
};
use crate::walker::{
    all_children, lemma_post_visits_bounds, lemma_post_visits_same_children, post_visits,
};

verus! {

/// A baked-in node the sanitizer removes: a light that does not carry
/// the generated marker, or a camera.
pub open spec fn bad_node(w: Seq<EntView>, v: int) -> bool {
    (w[v].light is Some && !w[v].generated) || w[v].camera
}

/// Root `r` is due for sanitization: alive, still marked pending, and
/// its child list has streamed in.  A root without a child list keeps
/// its marker and is retried on a later tick.
pub open spec fn root_pending(w: Seq<EntView>, r: int) -> bool {
    w[r].alive && w[r].post_proc && w[r].children is Some
}

/// The post-order visit sequence of root `r`'s subtree.
pub open spec fn visits_of(w: Seq<EntView>, r: int) -> Seq<usize> {
    post_visits(w, kids_of(w, r), r)
}

/// `d` is despawned by one of the first `n` visits of root `r`: that
/// visit is a baked-in node and `d` lies in its subtree.
pub open spec fn dead_by_upto(w: Seq<EntView>, r: int, n: int, d: int) -> bool {
    exists|i: int|
        0 <= i < n && i < visits_of(w, r).len() && bad_node(w, visits_of(w, r)[i] as int)
            && in_tree(w, visits_of(w, r)[i] as int, d)
}

/// `d` is despawned by sanitizing root `r`.
pub open spec fn dead_by(w: Seq<EntView>, r: int, d: int) -> bool {
    dead_by_upto(w, r, visits_of(w, r).len() as int, d)
}

/// Entity `v` carries a reference to material `j`.
pub open spec fn refs_mat(w: Seq<EntView>, v: int, j: int) -> bool {
    match w[v].material {
        Some(x) => x as int == j,
        None => false,
    }
}

/// Material `j` is flipped by one of the first `n` visits of root `r`:
/// that visit references `j` and the resource is present in `m`.
pub open spec fn flip_by_upto(
    w: Seq<EntView>,
    m: Seq<Option<bool>>,
    r: int,
    n: int,
    j: int,
) -> bool {
    exists|i: int|
        0 <= i < n && i < visits_of(w, r).len() && refs_mat(w, visits_of(w, r)[i] as int, j) && 0
            <= j < m.len() && m[j] is Some
}

/// Material `j` is flipped by sanitizing root `r`.
pub open spec fn flip_by(w: Seq<EntView>, m: Seq<Option<bool>>, r: int, j: int) -> bool {
    flip_by_upto(w, m, r, visits_of(w, r).len() as int, j)
}

/// The world after sanitizing root `r`: its despawned subtrees are no
/// longer alive, its marker is cleared, everything else is unchanged.
pub open spec fn proc_root_w(w: Seq<EntView>, r: int) -> Seq<EntView> {
    if root_pending(w, r) {
        Seq::new(
            w.len(),
            |d: int|
                ent_with_post_proc(
                    ent_with_alive(w[d], w[d].alive && !dead_by(w, r, d)),
                    w[d].post_proc && d != r,
                ),
        )
    } else {
        w
    }
}

/// The material store after sanitizing root `r` in world `w`.
pub open spec fn proc_root_m(w: Seq<EntView>, m: Seq<Option<bool>>, r: int) -> Seq<Option<bool>> {
    if root_pending(w, r) {
        Seq::new(
            m.len(),
            |j: int|
                if flip_by(w, m, r, j) {
                    Some(true)
                } else {
                    m[j]
                },
        )
    } else {
        m
    }
}

/// The world after sanitizing roots `0..n` in id order.
pub open spec fn sanitize_w_upto(w: Seq<EntView>, n: int) -> Seq<EntView>
    decreases n,
{
    if n <= 0 {
        w
    } else {
        proc_root_w(sanitize_w_upto(w, n - 1), n - 1)
    }
}

/// The material store after sanitizing roots `0..n` in id order.
pub open spec fn sanitize_m_upto(w: Seq<EntView>, m: Seq<Option<bool>>, n: int) -> Seq<
    Option<bool>,
>
    decreases n,
{
    if n <= 0 {
        m
    } else {
        proc_root_m(sanitize_w_upto(w, n - 1), sanitize_m_upto(w, m, n - 1), n - 1)
    }
}

/// The world after one sanitizer pass.
pub open spec fn sanitize_w(w: Seq<EntView>) -> Seq<EntView> {
    sanitize_w_upto(w, w.len() as int)
}

/// The material store after one sanitizer pass.
pub open spec fn sanitize_m(w: Seq<EntView>, m: Seq<Option<bool>>) -> Seq<Option<bool>> {
    sanitize_m_upto(w, m, w.len() as int)
}

/// Extending the processed prefix of visits by one more visit.
proof fn lemma_dead_upto_step(w: Seq<EntView>, r: int, n: int, d: int)
    requires
        0 <= n < visits_of(w, r).len(),
    ensures
        dead_by_upto(w, r, n + 1, d) == (dead_by_upto(w, r, n, d) || (bad_node(
            w,
            visits_of(w, r)[n] as int,
        ) && in_tree(w, visits_of(w, r)[n] as int, d))),
{
    let vs = visits_of(w, r);
    if dead_by_upto(w, r, n + 1, d) {
        let i = choose|i: int|
            0 <= i < n + 1 && i < vs.len() && bad_node(w, vs[i] as int) && in_tree(
                w,
                vs[i] as int,
                d,
            );
        if i < n {
            assert(dead_by_upto(w, r, n, d));
        }
    }
    if dead_by_upto(w, r, n, d) {
        let i = choose|i: int|
            0 <= i < n && i < vs.len() && bad_node(w, vs[i] as int) && in_tree(w, vs[i] as int, d);
        assert(0 <= i < n + 1 && i < vs.len() && bad_node(w, vs[i] as int) && in_tree(
            w,
            vs[i] as int,
            d,
        ));
        assert(dead_by_upto(w, r, n + 1, d));
    }
    if bad_node(w, vs[n] as int) && in_tree(w, vs[n] as int, d) {
        assert(0 <= n < n + 1 && n < vs.len() && bad_node(w, vs[n] as int) && in_tree(
            w,
            vs[n] as int,
            d,
        ));
        assert(dead_by_upto(w, r, n + 1, d));
    }
}

/// Extending the processed prefix of visits by one more visit.
proof fn lemma_flip_upto_step(w: Seq<EntView>, m: Seq<Option<bool>>, r: int, n: int, j: int)
    requires
        0 <= n < visits_of(w, r).len(),
    ensures
        flip_by_upto(w, m, r, n + 1, j) == (flip_by_upto(w, m, r, n, j) || (refs_mat(
            w,
            visits_of(w, r)[n] as int,
            j,
        ) && 0 <= j < m.len() && m[j] is Some)),
{
    let vs = visits_of(w, r);
    if flip_by_upto(w, m, r, n + 1, j) {
        let i = choose|i: int|
            0 <= i < n + 1 && i < vs.len() && refs_mat(w, vs[i] as int, j) && 0 <= j
                < m.len() && m[j] is Some;
        if i < n {
            assert(flip_by_upto(w, m, r, n, j));
        }
    }
    if flip_by_upto(w, m, r, n, j) {
        let i = choose|i: int|
            0 <= i < n && i < vs.len() && refs_mat(w, vs[i] as int, j) && 0 <= j
                < m.len() && m[j] is Some;
        assert(0 <= i < n + 1 && i < vs.len() && refs_mat(w, vs[i] as int, j) && 0
            <= j < m.len() && m[j] is Some);
        assert(flip_by_upto(w, m, r, n + 1, j));
    }
    if refs_mat(w, vs[n] as int, j) && 0 <= j < m.len() && m[j] is Some {
        assert(0 <= n < n + 1 && n < vs.len() && refs_mat(w, vs[n] as int, j) && 0
            <= j < m.len() && m[j] is Some);
        assert(flip_by_upto(w, m, r, n + 1, j));
    }
}

/// One sanitizer pass over the whole scene, in root id order: exactly
/// the transition described by `sanitize_w` and `sanitize_m`.
pub fn proc_scene(world: &mut SceneWorld, materials: &mut MaterialStore)
    requires
        old(world).inv(),
    ensures
        final(world).inv(),
        final(world)@ == sanitize_w(old(world)@),
        final(materials)@ == sanitize_m(old(world)@, old(materials)@),
{
    let ghost w0 = old(world)@;
    let ghost m0 = old(materials)@;
    let n = world.num_entities();
    let mut r: usize = 0;
    while r < n
        invariant
            world.inv(),
            n == w0.len(),
            r <= n,
            world@.len() == w0.len(),
            world@ == sanitize_w_upto(w0, r as int),
            materials@ == sanitize_m_upto(w0, m0, r as int),
        decreases n - r,
    {
        let ghost wr = world@;
        let ghost mr = materials@;
        let pending = world.alive[r] && world.post_proc[r];
        let mut kids_opt: Option<Vec<usize>> = None;
        if pending {
            match &world.children[r] {
                Some(k) => {
                    kids_opt = Some(k.clone());
                },
                None => {},
            }
        }
        match kids_opt {
            Some(kids) => {
                proof {
                    assert(root_pending(wr, r as int));
                    assert(kids@ =~= kids_of(wr, r as int));
                }
                let vs = all_children(world, &kids, r);
                proof {
                    lemma_post_visits_bounds(wr, kids@, r as int);
                    assert(vs@ == visits_of(wr, r as int));
                }
                let mut i: usize = 0;
                while i < vs.len()
                    invariant
                        wf_world(wr),
                        r < wr.len(),
                        root_pending(wr, r as int),
                        vs@ == visits_of(wr, r as int),
                        forall|j: int| 0 <= j < vs@.len() ==> r < #[trigger] vs@[j] < wr.len(),
                        i <= vs@.len(),
                        world.inv(),
                        world@.len() == wr.len(),
                        materials@.len() == mr.len(),
                        forall|d: int|
                            0 <= d < wr.len() ==> world@[d] == ent_with_alive(
                                wr[d],
                                wr[d].alive && !dead_by_upto(wr, r as int, i as int, d),
                            ),
                        forall|j: int|
                            0 <= j < mr.len() ==> materials@[j] == (if flip_by_upto(
                                wr,
                                mr,
                                r as int,
                                i as int,
                                j,
                            ) {
                                Some(true)
                            } else {
                                mr[j]
                            }),
                    decreases vs@.len() - i,
                {
                    let v = vs[i];
                    let ghost wp = world@;
                    let ghost mp = materials@;
                    proof {
                        assert(wp[v as int] == ent_with_alive(
                            wr[v as int],
                            wr[v as int].alive && !dead_by_upto(wr, r as int, i as int, v as int),
                        ));
                    }
                    match world.material[v] {
                        Some(mid) => {
                            materials.flip_normal_map_y(mid);
                            proof {
                                assert(wr[v as int].material == Some(mid));
                                assert(materials@ == flip_spec(mp, mid as int));
                                assert forall|j: int|
                                    0 <= j < mr.len() implies materials@[j] == (if flip_by_upto(
                                    wr,
                                    mr,
                                    r as int,
                                    i as int + 1,
                                    j,
                                ) {
                                    Some(true)
                                } else {
                                    mr[j]
                                }) by {
                                    lemma_flip_upto_step(wr, mr, r as int, i as int, j);
                                    if j == mid as int {
                                        if mr[j] is Some {
                                            assert(mp[j] is Some);
                                            assert(materials@[j] == Some(true));
                                            assert(flip_by_upto(wr, mr, r as int, i as int + 1, j));
                                        } else {
                                            assert(mp[j] == mr[j]);
                                            assert(materials@[j] == mp[j]);
                                        }
                                    } else {
                                        assert(materials@[j] == mp[j]);
                                        assert(!refs_mat(wr, v as int, j));
                                    }
                                }
                            }
                        },
                        None => {
                            proof {
                                assert(wr[v as int].material is None);
                                assert forall|j: int|
                                    0 <= j < mr.len() implies materials@[j] == (if flip_by_upto(
                                    wr,
                                    mr,
                                    r as int,
                                    i as int + 1,
                                    j,
                                ) {
                                    Some(true)
                                } else {
                                    mr[j]
                                }) by {
                                    lemma_flip_upto_step(wr, mr, r as int, i as int, j);
                                }
                            }
                        },
                    }
                    let is_light = world.light[v].is_some();
                    let bad = (is_light && !world.generated[v]) || world.camera[v];
                    proof {
                        assert(bad == bad_node(wr, v as int));
                    }
                    if bad {
                        let ghost wq = world@;
                        world.despawn_recursive(v);
                        proof {
                            assert(kids_of(wq, v as int) == kids_of(wr, v as int));
                            lemma_post_visits_same_children(
                                wr,
                                wq,
                                kids_of(wr, v as int),
                                v as int,
                            );
                            assert forall|d: int|
                                0 <= d < wr.len() implies world@[d] == ent_with_alive(
                                wr[d],
                                wr[d].alive && !dead_by_upto(wr, r as int, i as int + 1, d),
                            ) by {
                                lemma_dead_upto_step(wr, r as int, i as int, d);
                                assert(world@[d] == ent_with_alive(
                                    wq[d],
                                    wq[d].alive && !in_tree(wq, v as int, d),
                                ));
                                assert(in_tree(wq, v as int, d) == in_tree(wr, v as int, d));
                                assert(ent_with_alive(
                                    ent_with_alive(
                                        wr[d],
                                        wr[d].alive && !dead_by_upto(wr, r as int, i as int, d),
                                    ),
                                    wr[d].alive && !dead_by_upto(wr, r as int, i as int + 1, d),
                                ) =~= ent_with_alive(
                                    wr[d],
                                    wr[d].alive && !dead_by_upto(wr, r as int, i as int + 1, d),
                                ));
                            }
                        }
                    } else {
                        proof {
                            assert forall|d: int|
                                0 <= d < wr.len() implies world@[d] == ent_with_alive(
                                wr[d],
                                wr[d].alive && !dead_by_upto(wr, r as int, i as int + 1, d),
                            ) by {
                                lemma_dead_upto_step(wr, r as int, i as int, d);
                            }
                        }
                    }
                    i = i + 1;
                }
                let ghost wq = world@;
                world.post_proc.set(r, false);
                proof {
                    assert(world@ =~~= wq.update(
                        r as int,
                        ent_with_post_proc(wq[r as int], false),
                    ));
                    assert forall|d: int|
                        0 <= d < wr.len() implies world@[d] == proc_root_w(wr, r as int)[d] by {
                        assert(wq[d] == ent_with_alive(
                            wr[d],
                            wr[d].alive && !dead_by_upto(wr, r as int, vs@.len() as int, d),
                        ));
                        if d == r as int {
                            assert(world@[d] == ent_with_post_proc(wq[d], false));
                            assert(world@[d] =~= proc_root_w(wr, r as int)[d]);
                        } else {
                            assert(world@[d] == wq[d]);
                            assert(ent_with_post_proc(wq[d], wq[d].post_proc) =~= wq[d]);
                            assert(world@[d] =~= proc_root_w(wr, r as int)[d]);
                        }
                    }
                    assert(world@ =~= proc_root_w(wr, r as int));
                    assert forall|j: int|
                        0 <= j < mr.len() implies materials@[j] == proc_root_m(
                        wr,
                        mr,
                        r as int,
                    )[j] by {}
                    assert(materials@ =~= proc_root_m(wr, mr, r as int));
                    lemma_wf_same_children(wr, world@);
                }
            },
            None => {
                proof {
                    assert(!root_pending(wr, r as int));
                    assert(world@ == proc_root_w(wr, r as int));
                    assert(materials@ == proc_root_m(wr, mr, r as int));
                }
            },
        }
        proof {
            assert(sanitize_w_upto(w0, r as int + 1) == proc_root_w(
                sanitize_w_upto(w0, r as int),
                r as int,
            ));
            assert(sanitize_m_upto(w0, m0, r as int + 1) == proc_root_m(
                sanitize_w_upto(w0, r as int),
                sanitize_m_upto(w0, m0, r as int),
                r as int,
            ));
        }
        r = r + 1;
    }
}

/// Root `r` is actually processed by the pass: still due when the
/// pass, working in increasing id order, reaches it.
pub open spec fn processed_at(w: Seq<EntView>, r: int) -> bool {
    root_pending(sanitize_w_upto(w, r), r)
}

/// Sanitization never touches hierarchy, material references, light
/// tags, generated markers or camera tags.
pub proof fn lemma_sanitize_static(w: Seq<EntView>, n: int)
    requires
        0 <= n,
    ensures
        sanitize_w_upto(w, n).len() == w.len(),
        forall|d: int|
            0 <= d < w.len() ==> {
                let v = #[trigger] sanitize_w_upto(w, n)[d];
                v.children == w[d].children && v.material == w[d].material && v.light == w[d].light
                    && v.generated == w[d].generated && v.camera == w[d].camera
            },
    decreases n,
{
    if n > 0 {
        lemma_sanitize_static(w, n - 1);
    }
}

/// Liveness and the pending marker only ever go from set to cleared
/// as the pass advances; no later stage revives or re-marks.
pub proof fn lemma_sanitize_monotone(w: Seq<EntView>, m: int, n: int, d: int)
    requires
        0 <= m <= n,
        0 <= d < w.len(),
    ensures
        sanitize_w_upto(w, n)[d].alive ==> sanitize_w_upto(w, m)[d].alive,
        sanitize_w_upto(w, n)[d].post_proc ==> sanitize_w_upto(w, m)[d].post_proc,
    decreases n,
{
    lemma_sanitize_static(w, n);
    if m < n {
        lemma_sanitize_static(w, n - 1);
        lemma_sanitize_monotone(w, m, n - 1, d);
    }
}

/// After `n` stages, root `d`'s marker stands exactly when it stood at
/// the start and no earlier stage processed `d`.
pub proof fn lemma_marker_after(w: Seq<EntView>, n: int, d: int)
    requires
        0 <= n,
        0 <= d < w.len(),
    ensures
        sanitize_w_upto(w, n)[d].post_proc == (w[d].post_proc && !(d < n && processed_at(w, d))),
    decreases n,
{
    if n > 0 {
        lemma_marker_after(w, n - 1, d);
        lemma_sanitize_static(w, n - 1);
    }
}

/// Completeness of despawn: every baked-in light or camera visited in
/// a subtree the pass actually processed is no longer alive once the
/// pass is done.
pub proof fn lemma_despawn_complete(w: Seq<EntView>, r: int, i: int)
    requires
        wf_world(w),
        0 <= r < w.len(),
        processed_at(w, r),
        0 <= i < visits_of(w, r).len(),
        bad_node(w, visits_of(w, r)[i] as int),
    ensures
        !sanitize_w(w)[visits_of(w, r)[i] as int].alive,
{
    let wr = sanitize_w_upto(w, r);
    lemma_sanitize_static(w, r);
    lemma_wf_same_children(w, wr);
    assert(kids_of(wr, r) == kids_of(w, r));
    lemma_post_visits_same_children(w, wr, kids_of(w, r), r);
    assert(visits_of(wr, r) == visits_of(w, r));
    let vs = visits_of(w, r);
    let v = vs[i] as int;
    lemma_post_visits_bounds(w, kids_of(w, r), r);
    assert(0 <= v < w.len());
    assert(bad_node(wr, v));
    assert(in_tree(wr, v, v));
    assert(dead_by(wr, r, v)) by {
        assert(0 <= i < visits_of(wr, r).len() && bad_node(wr, visits_of(wr, r)[i] as int)
            && in_tree(wr, visits_of(wr, r)[i] as int, v));
    }
    assert(sanitize_w_upto(w, r + 1) == proc_root_w(wr, r));
    assert(!sanitize_w_upto(w, r + 1)[v].alive);
    lemma_sanitize_monotone(w, r + 1, w.len() as int, v);
}

/// A pass over a scene with nothing due is a no-op.
pub proof fn lemma_sanitize_noop(w: Seq<EntView>, m: Seq<Option<bool>>)
    requires
        forall|r: int| 0 <= r < w.len() ==> !root_pending(w, r),
    ensures
        sanitize_w(w) == w,
        sanitize_m(w, m) == m,
{
    lemma_sanitize_noop_upto(w, m, w.len() as int);
}

proof fn lemma_sanitize_noop_upto(w: Seq<EntView>, m: Seq<Option<bool>>, n: int)
    requires
        0 <= n <= w.len(),
        forall|r: int| 0 <= r < w.len() ==> !root_pending(w, r),
    ensures
        sanitize_w_upto(w, n) == w,
        sanitize_m_upto(w, m, n) == m,
    decreases n,
{
    if n > 0 {
        lemma_sanitize_noop_upto(w, m, n - 1);
    }
}

/// A scene whose markers are all gone is stable: running the
/// sanitizer over it changes neither the scene nor the materials.
pub proof fn lemma_sanitize_stable_noop(w: Seq<EntView>, m: Seq<Option<bool>>)
    requires
        forall|e: int| 0 <= e < w.len() ==> !(#[trigger] w[e]).post_proc,
    ensures
        sanitize_w(w) == w,
        sanitize_m(w, m) == m,
{
    lemma_sanitize_noop(w, m);
}

/// Idempotence of sanitization: a subtree already repaired (its
/// marker absent) is left alone, so a second pass changes nothing at
/// all, neither the scene nor the material store.
pub proof fn lemma_sanitize_idempotent(w: Seq<EntView>, m: Seq<Option<bool>>)
    requires
        wf_world(w),
    ensures
        sanitize_w(sanitize_w(w)) == sanitize_w(w),
        sanitize_m(sanitize_w(w), sanitize_m(w, m)) == sanitize_m(w, m),
{
    let w1 = sanitize_w(w);
    lemma_sanitize_static(w, w.len() as int);
    assert(w1.len() == w.len());
    assert forall|r: int| 0 <= r < w1.len() implies !root_pending(w1, r) by {
        if root_pending(w1, r) {
            lemma_marker_after(w, w.len() as int, r);
            assert(w[r].post_proc && !processed_at(w, r));
            lemma_sanitize_monotone(w, r, w.len() as int, r);
            assert(sanitize_w_upto(w, r)[r].alive);
            lemma_marker_after(w, r, r);
            assert(sanitize_w_upto(w, r)[r].post_proc);
            lemma_sanitize_static(w, r);
            assert(sanitize_w_upto(w, r)[r].children == w[r].children);
            assert(w1[r].children == w[r].children);
            assert(root_pending(sanitize_w_upto(w, r), r));
            assert(false);
        }
    }
    lemma_sanitize_noop(w1, sanitize_m(w, m));
    assert(sanitize_w_upto(w1, w1.len() as int) == sanitize_w_upto(w1, w.len() as int));
}

/// Over one pass, a material row either keeps its value or is set to
/// flipped; a row already flipped stays flipped (the flip is monotonic
/// and, shared between any number of entities, convergent).
pub proof fn lemma_flip_monotonic(w: Seq<EntView>, m: Seq<Option<bool>>)
    ensures
        sanitize_m(w, m).len() == m.len(),
        forall|j: int|
            0 <= j < m.len() ==> (#[trigger] sanitize_m(w, m)[j] == m[j] || sanitize_m(w, m)[j]
                == Some(true)),
        forall|j: int|
            0 <= j < m.len() && m[j] == Some(true) ==> #[trigger] sanitize_m(w, m)[j] == Some(
                true,
            ),
{
    lemma_flip_monotonic_upto(w, m, w.len() as int);
}

proof fn lemma_flip_monotonic_upto(w: Seq<EntView>, m: Seq<Option<bool>>, n: int)
    requires
        0 <= n,
    ensures
        sanitize_m_upto(w, m, n).len() == m.len(),
        forall|j: int|
            0 <= j < m.len() ==> (#[trigger] sanitize_m_upto(w, m, n)[j] == m[j]
                || sanitize_m_upto(w, m, n)[j] == Some(true)),
        forall|j: int|
            0 <= j < m.len() && m[j] == Some(true) ==> #[trigger] sanitize_m_upto(w, m, n)[j]
                == Some(true),
    decreases n,
{
    if n > 0 {
        lemma_flip_monotonic_upto(w, m, n - 1);
    }
}

/// Setting the flipped flag twice is the same as setting it once.
pub proof fn lemma_flip_spec_idempotent(m: Seq<Option<bool>>, id: int)
    ensures
        flip_spec(flip_spec(m, id), id) == flip_spec(m, id),
{
    if 0 <= id < m.len() && m[id] is Some {
        assert(flip_spec(flip_spec(m, id), id) =~= flip_spec(m, id));
    }
}

} // verus!
