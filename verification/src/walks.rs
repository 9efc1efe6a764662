//! Walks in an adjacency structure, and what it means for one vertex to be
//! reachable from another, in a given number of steps or at all.

use vstd::prelude::*;
use crate::graph::adjacent;

verus! {

/// `p` is a non-empty sequence of vertices in which each is followed by one
/// of its neighbours.
pub open spec fn is_walk(adj: Seq<Seq<usize>>, p: Seq<usize>) -> bool {
    &&& p.len() >= 1
    &&& forall|i: int| 0 <= i < p.len() ==> (#[trigger] p[i]) < adj.len()
    &&& forall|i: int| 0 <= i < p.len() - 1 ==> #[trigger] adjacent(adj, p[i], p[i + 1])
}

/// `p` is a walk that starts at `s` and ends at `t`.
pub open spec fn walk_between(adj: Seq<Seq<usize>>, p: Seq<usize>, s: usize, t: usize) -> bool {
    is_walk(adj, p) && p[0] == s && p.last() == t
}

/// Some walk of exactly `k` steps leads from `s` to `t`.
pub open spec fn reachable_in(adj: Seq<Seq<usize>>, s: usize, t: usize, k: nat) -> bool {
    exists|p: Seq<usize>| #[trigger] walk_between(adj, p, s, t) && p.len() == k + 1
}

/// Some walk leads from `s` to `t`.
pub open spec fn reachable(adj: Seq<Seq<usize>>, s: usize, t: usize) -> bool {
    exists|p: Seq<usize>| #[trigger] walk_between(adj, p, s, t)
}

/// `d` is the number of steps of a shortest walk from `s` to `t`.
pub open spec fn is_distance(adj: Seq<Seq<usize>>, s: usize, t: usize, d: nat) -> bool {
    &&& reachable_in(adj, s, t, d)
    &&& forall|k: nat| #[trigger] reachable_in(adj, s, t, k) ==> d <= k
}

/// A walk stays a walk when a neighbour of its last vertex is appended.
pub proof fn lemma_walk_extend(adj: Seq<Seq<usize>>, p: Seq<usize>, w: usize)
    requires
        is_walk(adj, p),
        adjacent(adj, p.last(), w),
        w < adj.len(),
    ensures
        is_walk(adj, p.push(w)),
        p.push(w)[0] == p[0],
        p.push(w).last() == w,
{
    let q = p.push(w);
    assert forall|i: int| 0 <= i < q.len() - 1 implies #[trigger] adjacent(adj, q[i], q[i + 1]) by {
        if i < p.len() - 1 {
            assert(adjacent(adj, p[i], p[i + 1]));
        }
    }
}

/// A walk of more than one vertex without its last vertex is a walk, and its
/// last vertex is a neighbour of the one before.
pub proof fn lemma_walk_shorten(adj: Seq<Seq<usize>>, p: Seq<usize>)
    requires
        is_walk(adj, p),
        p.len() >= 2,
    ensures
        is_walk(adj, p.drop_last()),
        p.drop_last()[0] == p[0],
        adjacent(adj, p.drop_last().last(), p.last()),
{
    let q = p.drop_last();
    assert forall|i: int| 0 <= i < q.len() implies (#[trigger] q[i]) < adj.len() by {
        assert(p[i] < adj.len());
    }
    assert forall|i: int| 0 <= i < q.len() - 1 implies #[trigger] adjacent(adj, q[i], q[i + 1]) by {
        assert(adjacent(adj, p[i], p[i + 1]));
    }
    assert(adjacent(adj, p[p.len() - 2], p[p.len() - 2 + 1]));
}

/// What is left of a walk from its `i`-th vertex on is a walk.
pub proof fn lemma_walk_tail(adj: Seq<Seq<usize>>, p: Seq<usize>, i: int)
    requires
        is_walk(adj, p),
        0 <= i < p.len(),
    ensures
        is_walk(adj, p.subrange(i, p.len() as int)),
{
    let q = p.subrange(i, p.len() as int);
    assert forall|j: int| 0 <= j < q.len() implies (#[trigger] q[j]) < adj.len() by {
        assert(p[i + j] < adj.len());
    }
    assert forall|j: int| 0 <= j < q.len() - 1 implies #[trigger] adjacent(adj, q[j], q[j + 1]) by {
        assert(adjacent(adj, p[i + j], p[i + j + 1]));
    }
}

/// Two walks, the second starting where the first ends, join into one.
pub proof fn lemma_walk_join(adj: Seq<Seq<usize>>, p: Seq<usize>, q: Seq<usize>)
    requires
        is_walk(adj, p),
        is_walk(adj, q),
        p.last() == q[0],
    ensures
        is_walk(adj, p + q.drop_first()),
        (p + q.drop_first())[0] == p[0],
        (p + q.drop_first()).last() == q.last(),
{
    let r = p + q.drop_first();
    assert forall|i: int| 0 <= i < r.len() implies (#[trigger] r[i]) < adj.len() by {
        if i < p.len() {
            assert(p[i] < adj.len());
        } else {
            assert(q[i - p.len() + 1] < adj.len());
        }
    }
    assert forall|i: int| 0 <= i < r.len() - 1 implies #[trigger] adjacent(adj, r[i], r[i + 1]) by {
        if i < p.len() - 1 {
            assert(adjacent(adj, p[i], p[i + 1]));
        } else {
            let j = i - p.len() + 1;
            assert(adjacent(adj, q[j], q[j + 1]));
        }
    }
}

/// Every vertex is reachable from itself, in no step.
pub proof fn lemma_reachable_self(adj: Seq<Seq<usize>>, s: usize)
    requires
        s < adj.len(),
    ensures
        reachable_in(adj, s, s, 0),
        reachable(adj, s, s),
{
    let p = seq![s];
    assert(walk_between(adj, p, s, s));
}

/// What is reachable from a reachable vertex is reachable.
pub proof fn lemma_reachable_transitive(adj: Seq<Seq<usize>>, a: usize, b: usize, c: usize)
    requires
        reachable(adj, a, b),
        reachable(adj, b, c),
    ensures
        reachable(adj, a, c),
{
    let p = choose|p: Seq<usize>| walk_between(adj, p, a, b);
    let q = choose|q: Seq<usize>| walk_between(adj, q, b, c);
    lemma_walk_join(adj, p, q);
    assert(walk_between(adj, p + q.drop_first(), a, c));
}

/// A walk read backwards is a walk, where every vertex is a neighbour of each
/// of its neighbours.
pub proof fn lemma_walk_reverse(adj: Seq<Seq<usize>>, p: Seq<usize>)
    requires
        crate::graph::symmetric(adj),
        is_walk(adj, p),
    ensures
        is_walk(adj, p.reverse()),
        p.reverse()[0] == p.last(),
        p.reverse().last() == p[0],
{
    let r = p.reverse();
    assert forall|i: int| 0 <= i < r.len() implies (#[trigger] r[i]) < adj.len() by {
        assert(p[p.len() - 1 - i] < adj.len());
    }
    assert forall|i: int| 0 <= i < r.len() - 1 implies #[trigger] adjacent(adj, r[i], r[i + 1]) by {
        let j = p.len() - 2 - i;
        assert(adjacent(adj, p[j], p[j + 1]));
        assert(adjacent(adj, p[j], p[j + 1]) <==> adjacent(adj, p[j + 1], p[j]));
    }
}

/// The vertices without a label in `labels`, counted.
pub open spec fn unlabelled<T>(labels: Seq<Option<T>>) -> nat
    decreases labels.len(),
{
    if labels.len() == 0 {
        0
    } else if labels.last() is None {
        unlabelled(labels.drop_last()) + 1
    } else {
        unlabelled(labels.drop_last())
    }
}

/// There are no more unlabelled vertices than vertices.
pub proof fn lemma_unlabelled_bound<T>(labels: Seq<Option<T>>)
    ensures
        unlabelled(labels) <= labels.len(),
    decreases labels.len(),
{
    if labels.len() > 0 {
        lemma_unlabelled_bound(labels.drop_last());
    }
}

/// Labelling one unlabelled vertex leaves one unlabelled vertex fewer.
pub proof fn lemma_unlabelled_update<T>(labels: Seq<Option<T>>, i: int, x: T)
    requires
        0 <= i < labels.len(),
        labels[i] is None,
    ensures
        unlabelled(labels.update(i, Some(x))) + 1 == unlabelled(labels),
    decreases labels.len(),
{
    let after = labels.update(i, Some(x));
    if i == labels.len() - 1 {
        assert(after.drop_last() =~= labels.drop_last());
    } else {
        lemma_unlabelled_update(labels.drop_last(), i, x);
        assert(after.drop_last() =~= labels.drop_last().update(i, Some(x)));
    }
}

} // verus!
