//! Post-order traversal of a subtree of the scene graph.
//!
//! For a child list, the walker first visits each child's own subtree,
//! then the child itself, left to right.  When an action runs on a
//! node, every descendant of that node has already been visited.

use vstd::prelude::*;
use crate::scene::{kids_of, lemma_wf_same_children, wf_world, EntView, SceneWorld};

verus! {

/// The post-order visit sequence of the forest rooted at the entities
/// of `kids`, all of which lie strictly between `base` and `w.len()`.
///
/// For each child in order: the visits of its own subtree, then the
/// child itself.
pub open spec fn post_visits(w: Seq<EntView>, kids: Seq<usize>, base: int) -> Seq<usize>
    decreases w.len() - base, kids.len(),
        when wf_world(w) && 0 <= base < w.len() && (forall|i: int|
            0 <= i < kids.len() ==> base < #[trigger] kids[i] < w.len())
{
    if kids.len() == 0 {
        Seq::empty()
    } else {
        let c = kids[0];
        post_visits(w, kids_of(w, c as int), c as int) + seq![c] + post_visits(
            w,
            kids.drop_first(),
            base,
        )
    }
}

/// Every visited entity id lies strictly between `base` and `w.len()`.
pub proof fn lemma_post_visits_bounds(w: Seq<EntView>, kids: Seq<usize>, base: int)
    requires
        wf_world(w),
        0 <= base < w.len(),
        forall|i: int| 0 <= i < kids.len() ==> base < #[trigger] kids[i] < w.len(),
    ensures
        forall|j: int|
            0 <= j < post_visits(w, kids, base).len() ==> base < #[trigger] post_visits(
                w,
                kids,
                base,
            )[j] < w.len(),
    decreases w.len() - base, kids.len(),
{
    if kids.len() == 0 {
    } else {
        let c = kids[0];
        lemma_post_visits_bounds(w, kids_of(w, c as int), c as int);
        lemma_post_visits_bounds(w, kids.drop_first(), base);
        let sub = post_visits(w, kids_of(w, c as int), c as int);
        let rest = post_visits(w, kids.drop_first(), base);
        assert forall|j: int|
            0 <= j < post_visits(w, kids, base).len() implies base < #[trigger] post_visits(
            w,
            kids,
            base,
        )[j] < w.len() by {
            let vs = post_visits(w, kids, base);
            if j < sub.len() {
                assert(vs[j] == sub[j]);
            } else if j == sub.len() {
                assert(vs[j] == c);
            } else {
                assert(vs[j] == rest[j - sub.len() - 1]);
            }
        }
    }
}

/// Traversal distributes over concatenation of child lists.
pub proof fn lemma_post_visits_concat(w: Seq<EntView>, a: Seq<usize>, b: Seq<usize>, base: int)
    requires
        wf_world(w),
        0 <= base < w.len(),
        forall|i: int| 0 <= i < a.len() ==> base < #[trigger] a[i] < w.len(),
        forall|i: int| 0 <= i < b.len() ==> base < #[trigger] b[i] < w.len(),
    ensures
        post_visits(w, a + b, base) == post_visits(w, a, base) + post_visits(w, b, base),
    decreases a.len(),
{
    assert(forall|i: int| 0 <= i < (a + b).len() ==> base < #[trigger] (a + b)[i] < w.len());
    if a.len() == 0 {
        assert(a + b =~= b);
        assert(post_visits(w, a, base) =~= Seq::empty());
        assert(post_visits(w, a, base) + post_visits(w, b, base) =~= post_visits(w, b, base));
    } else {
        let c = a[0];
        assert((a + b)[0] == c);
        assert((a + b).drop_first() =~= a.drop_first() + b);
        lemma_post_visits_concat(w, a.drop_first(), b, base);
        assert(post_visits(w, a + b, base) =~= post_visits(w, a, base) + post_visits(w, b, base));
    }
}

/// One step of traversal: extending the child list by one entity
/// appends that entity's subtree visits and then the entity.
pub proof fn lemma_post_visits_step(w: Seq<EntView>, kids: Seq<usize>, base: int, i: int)
    requires
        wf_world(w),
        0 <= base < w.len(),
        forall|j: int| 0 <= j < kids.len() ==> base < #[trigger] kids[j] < w.len(),
        0 <= i < kids.len(),
    ensures
        post_visits(w, kids.take(i + 1), base) == post_visits(w, kids.take(i), base) + post_visits(
            w,
            kids_of(w, kids[i] as int),
            kids[i] as int,
        ) + seq![kids[i]],
{
    let c = kids[i];
    let one = seq![c];
    assert(kids.take(i + 1) =~= kids.take(i) + one);
    lemma_post_visits_concat(w, kids.take(i), one, base);
    assert(one.drop_first() =~= Seq::<usize>::empty());
    assert(post_visits(w, Seq::<usize>::empty(), base) =~= Seq::<usize>::empty());
    assert(one[0] == c);
    assert(post_visits(w, one, base) == post_visits(w, kids_of(w, c as int), c as int) + seq![c]
        + post_visits(w, one.drop_first(), base));
    assert(post_visits(w, one, base) =~= post_visits(w, kids_of(w, c as int), c as int) + seq![c]);
    assert(post_visits(w, kids.take(i + 1), base) =~= post_visits(w, kids.take(i), base)
        + post_visits(w, kids_of(w, c as int), c as int) + seq![c]);
}

/// Entity `ci` of the child list occurs in the visit sequence.
pub proof fn lemma_post_visits_contain_at(w: Seq<EntView>, kids: Seq<usize>, base: int, ci: int)
    requires
        wf_world(w),
        0 <= base < w.len(),
        forall|i: int| 0 <= i < kids.len() ==> base < #[trigger] kids[i] < w.len(),
        0 <= ci < kids.len(),
    ensures
        exists|i: int|
            0 <= i < post_visits(w, kids, base).len() && post_visits(w, kids, base)[i] == kids[ci],
    decreases kids.len(),
{
    let vs = post_visits(w, kids, base);
    let c = kids[0];
    let sub = post_visits(w, kids_of(w, c as int), c as int);
    let rest = post_visits(w, kids.drop_first(), base);
    assert(vs == sub + seq![c] + rest);
    if ci == 0 {
        assert(0 <= (sub.len() as int) < vs.len() && vs[sub.len() as int] == kids[0]);
    } else {
        lemma_post_visits_contain_at(w, kids.drop_first(), base, ci - 1);
        let ip = choose|i: int| 0 <= i < rest.len() && rest[i] == kids.drop_first()[ci - 1];
        assert(kids.drop_first()[ci - 1] == kids[ci]);
        assert(0 <= sub.len() + 1 + ip < vs.len() && vs[sub.len() + 1 + ip] == kids[ci]);
    }
}

/// Post-order traversal law: when the walk reaches an entity, every
/// child of that entity has already been visited.  For the entity at
/// position `j` of the visit sequence and each index `ci` into its
/// child list, that child occurs at a strictly earlier position.
pub proof fn lemma_traversal_order(w: Seq<EntView>, kids: Seq<usize>, base: int, j: int, ci: int)
    requires
        wf_world(w),
        0 <= base < w.len(),
        forall|i: int| 0 <= i < kids.len() ==> base < #[trigger] kids[i] < w.len(),
        0 <= j < post_visits(w, kids, base).len(),
        0 <= ci < kids_of(w, post_visits(w, kids, base)[j] as int).len(),
    ensures
        exists|i: int|
            0 <= i < j && post_visits(w, kids, base)[i] == kids_of(
                w,
                post_visits(w, kids, base)[j] as int,
            )[ci],
    decreases w.len() - base, kids.len(),
{
    let vs = post_visits(w, kids, base);
    let c = kids[0];
    let sub = post_visits(w, kids_of(w, c as int), c as int);
    let rest = post_visits(w, kids.drop_first(), base);
    assert(vs == sub + seq![c] + rest);
    if j < sub.len() {
        assert(vs[j] == sub[j]);
        lemma_traversal_order(w, kids_of(w, c as int), c as int, j, ci);
        let is = choose|i: int| 0 <= i < j && sub[i] == kids_of(w, sub[j] as int)[ci];
        assert(vs[is] == sub[is]);
        assert(0 <= is < j && vs[is] == kids_of(w, vs[j] as int)[ci]);
    } else if j == sub.len() {
        assert(vs[j] == c);
        lemma_post_visits_contain_at(w, kids_of(w, c as int), c as int, ci);
        let is = choose|i: int|
            0 <= i < sub.len() && sub[i] == kids_of(w, c as int)[ci];
        assert(vs[is] == sub[is]);
        assert(0 <= is < j && vs[is] == kids_of(w, vs[j] as int)[ci]);
    } else {
        let jp = j - sub.len() - 1;
        assert(vs[j] == rest[jp]);
        lemma_traversal_order(w, kids.drop_first(), base, jp, ci);
        let ip = choose|i: int| 0 <= i < jp && rest[i] == kids_of(w, rest[jp] as int)[ci];
        assert(vs[sub.len() + 1 + ip] == rest[ip]);
        assert(0 <= sub.len() + 1 + ip < j && vs[sub.len() + 1 + ip] == kids_of(
            w,
            vs[j] as int,
        )[ci]);
    }
}

/// Traversal reads only the hierarchy: two worlds with the same child
/// lists are walked identically, whatever their other components.
pub proof fn lemma_post_visits_same_children(
    w1: Seq<EntView>,
    w2: Seq<EntView>,
    kids: Seq<usize>,
    base: int,
)
    requires
        w1.len() == w2.len(),
        forall|d: int| 0 <= d < w1.len() ==> w1[d].children == #[trigger] w2[d].children,
        wf_world(w1),
        0 <= base < w1.len(),
        forall|i: int| 0 <= i < kids.len() ==> base < #[trigger] kids[i] < w1.len(),
    ensures
        post_visits(w2, kids, base) == post_visits(w1, kids, base),
    decreases w1.len() - base, kids.len(),
{
    lemma_wf_same_children(w1, w2);
    if kids.len() == 0 {
    } else {
        let c = kids[0];
        assert(w1[c as int].children == w2[c as int].children);
        assert(kids_of(w2, c as int) == kids_of(w1, c as int));
        lemma_post_visits_same_children(w1, w2, kids_of(w1, c as int), c as int);
        lemma_post_visits_same_children(w1, w2, kids.drop_first(), base);
    }
}

/// Walk the forest rooted at `kids` and return every descendant in
/// post-order: for each child, first its own subtree, then the child.
/// A missing child list simply terminates recursion at that leaf.
pub fn all_children(w: &SceneWorld, kids: &Vec<usize>, base: usize) -> (r: Vec<usize>)
    requires
        w.inv(),
        base < w@.len(),
        forall|i: int| 0 <= i < kids@.len() ==> base < #[trigger] kids@[i] < w@.len(),
    ensures
        r@ == post_visits(w@, kids@, base as int),
    decreases w@.len() - base,
{
    let mut out: Vec<usize> = Vec::new();
    let mut i: usize = 0;
    proof {
        assert(kids@.take(0) =~= Seq::<usize>::empty());
    }
    while i < kids.len()
        invariant
            w.inv(),
            base < w@.len(),
            forall|j: int| 0 <= j < kids@.len() ==> base < #[trigger] kids@[j] < w@.len(),
            i <= kids@.len(),
            out@ == post_visits(w@, kids@.take(i as int), base as int),
        decreases kids@.len() - i,
    {
        let c = kids[i];
        match &w.children[c] {
            Some(ck) => {
                proof {
                    assert(kids_of(w@, c as int) == ck@);
                }
                let mut sub = all_children(w, ck, c);
                out.append(&mut sub);
            },
            None => {
                proof {
                    assert(kids_of(w@, c as int) =~= Seq::<usize>::empty());
                    assert(post_visits(w@, kids_of(w@, c as int), c as int) =~= Seq::<
                        usize,
                    >::empty());
                }
            },
        }
        out.push(c);
        proof {
            lemma_post_visits_step(w@, kids@, base as int, i as int);
        }
        i = i + 1;
    }
    proof {
        assert(kids@.take(kids@.len() as int) =~= kids@);
    }
    out
}

} // verus!
