//! Connected components: marking everything that one vertex reaches, in
//! breadth-first or depth-first order, and labelling every vertex of a graph
//! with the number of its component.

use vstd::prelude::*;
use std::collections::VecDeque;
use crate::graph::{adjacent, Graph};
use crate::bfs::is_distance_vector;
use crate::walks::{
    is_distance, is_walk, lemma_reachable_self, lemma_unlabelled_update, lemma_walk_extend,
    lemma_walk_shorten, reachable, unlabelled, walk_between,
};

verus! {

/// `p` is a walk on which every vertex after the first is unlabelled.
pub open spec fn is_free_walk(adj: Seq<Seq<usize>>, labels: Seq<Option<usize>>, p: Seq<usize>) -> bool {
    &&& is_walk(adj, p)
    &&& forall|i: int| 1 <= i < p.len() ==> labels[(#[trigger] p[i]) as int] is None
}

/// Some walk leads from `s` to `t` over unlabelled vertices only, `s` itself
/// not counted.
pub open spec fn free_reachable(adj: Seq<Seq<usize>>, labels: Seq<Option<usize>>, s: usize, t: usize) -> bool {
    exists|p: Seq<usize>| #[trigger] walk_between(adj, p, s, t) && is_free_walk(adj, labels, p)
}

/// `after` is `before` with the label `id` on `s` and on every unlabelled
/// vertex that `s` reaches over unlabelled vertices, and nothing else changed.
pub open spec fn is_marking(
    adj: Seq<Seq<usize>>,
    before: Seq<Option<usize>>,
    after: Seq<Option<usize>>,
    s: usize,
    id: usize,
) -> bool {
    &&& after.len() == before.len()
    &&& forall|v: usize|
        v < adj.len() ==> (#[trigger] after[v as int]) == (if v == s || (before[v as int] is None
            && free_reachable(adj, before, s, v)) {
            Some(id)
        } else {
            before[v as int]
        })
}

/// `u` has been given its label by the marking from `s`.
pub open spec fn marked(before: Seq<Option<usize>>, labels: Seq<Option<usize>>, s: usize, u: usize) -> bool {
    u < labels.len() && labels[u as int] is Some && (u == s || before[u as int] is None)
}

/// `w` is a vertex with a label.
pub open spec fn labelled(labels: Seq<Option<usize>>, w: usize) -> bool {
    w < labels.len() && labels[w as int] is Some
}

/// Every neighbour of `u` has a label.
pub open spec fn closed(adj: Seq<Seq<usize>>, labels: Seq<Option<usize>>, u: usize) -> bool {
    forall|j: int| 0 <= j < adj[u as int].len() ==> labelled(labels, #[trigger] adj[u as int][j])
}

/// The state of a marking from `s` that is under way: `work` holds the marked
/// vertices whose neighbours are still to be looked at, and `current` the one
/// that is being looked at.
pub open spec fn marking_under_way(
    adj: Seq<Seq<usize>>,
    before: Seq<Option<usize>>,
    labels: Seq<Option<usize>>,
    s: usize,
    id: usize,
    work: Seq<usize>,
    current: Option<usize>,
) -> bool {
    &&& before.len() == adj.len()
    &&& labels.len() == adj.len()
    &&& s < adj.len()
    &&& labels[s as int] == Some(id)
    &&& forall|v: usize|
        v < adj.len() ==> (#[trigger] labels[v as int]) == before[v as int] || (labels[v as int] == Some(id) && (v
            == s || before[v as int] is None))
    &&& forall|v: usize| #[trigger] marked(before, labels, s, v) ==> free_reachable(adj, before, s, v)
    &&& forall|i: int| 0 <= i < work.len() ==> marked(before, labels, s, #[trigger] work[i])
    &&& forall|u: usize| #[trigger]
        marked(before, labels, s, u) ==> current == Some(u) || work.contains(u) || closed(adj, labels, u)
}

/// Labelling the source starts a marking, with the source as the only work.
pub proof fn lemma_marking_starts(adj: Seq<Seq<usize>>, before: Seq<Option<usize>>, s: usize, id: usize)
    requires
        before.len() == adj.len(),
        s < adj.len(),
    ensures
        marking_under_way(adj, before, before.update(s as int, Some(id)), s, id, seq![s], None),
{
    let labels = before.update(s as int, Some(id));
    let work = seq![s];
    assert(work[0] == s);
    assert forall|v: usize| #[trigger] marked(before, labels, s, v) implies free_reachable(adj, before, s, v) by {
        assert(v == s);
        let p = seq![s];
        assert(walk_between(adj, p, s, s) && is_free_walk(adj, before, p));
    }
    assert forall|u: usize| #[trigger] marked(before, labels, s, u) implies work.contains(u) by {
        assert(u == s);
    }
}

/// Taking one vertex out of the work makes it the current one.
pub proof fn lemma_marking_takes(
    adj: Seq<Seq<usize>>,
    before: Seq<Option<usize>>,
    labels: Seq<Option<usize>>,
    s: usize,
    id: usize,
    work: Seq<usize>,
    rest: Seq<usize>,
    v: usize,
)
    requires
        marking_under_way(adj, before, labels, s, id, work, None),
        forall|i: int| 0 <= i < rest.len() ==> work.contains(#[trigger] rest[i]),
        forall|i: int| 0 <= i < work.len() ==> (#[trigger] work[i]) == v || rest.contains(work[i]),
    ensures
        marking_under_way(adj, before, labels, s, id, rest, Some(v)),
{
    assert forall|i: int| 0 <= i < rest.len() implies marked(before, labels, s, #[trigger] rest[i]) by {
        let k = choose|k: int| 0 <= k < work.len() && work[k] == rest[i];
        assert(marked(before, labels, s, work[k]));
    }
    assert forall|u: usize| #[trigger] marked(before, labels, s, u) implies Some(v) == Some(u) || rest.contains(u)
        || closed(adj, labels, u) by {
        if work.contains(u) {
            let k = choose|k: int| 0 <= k < work.len() && work[k] == u;
            assert(work[k] == v || rest.contains(work[k]));
        }
    }
}

/// Labelling an unlabelled neighbour of the current vertex and adding it to
/// the work keeps the marking under way.
pub proof fn lemma_marking_adds(
    adj: Seq<Seq<usize>>,
    before: Seq<Option<usize>>,
    labels: Seq<Option<usize>>,
    s: usize,
    id: usize,
    work: Seq<usize>,
    v: usize,
    w: usize,
)
    requires
        marking_under_way(adj, before, labels, s, id, work, Some(v)),
        marked(before, labels, s, v),
        adjacent(adj, v, w),
        w < adj.len(),
        labels[w as int] is None,
    ensures
        marking_under_way(adj, before, labels.update(w as int, Some(id)), s, id, work.push(w), Some(v)),
{
    let after = labels.update(w as int, Some(id));
    let more = work.push(w);
    assert(before[w as int] is None);
    assert forall|x: usize| #[trigger] marked(before, after, s, x) implies free_reachable(adj, before, s, x) by {
        if x == w {
            let p = choose|p: Seq<usize>| #[trigger] walk_between(adj, p, s, v) && is_free_walk(adj, before, p);
            lemma_walk_extend(adj, p, w);
            let q = p.push(w);
            assert forall|i: int| 1 <= i < q.len() implies before[(#[trigger] q[i]) as int] is None by {
                if i < p.len() {
                    assert(before[p[i] as int] is None);
                }
            }
            assert(walk_between(adj, q, s, w) && is_free_walk(adj, before, q));
        } else {
            assert(marked(before, labels, s, x));
        }
    }
    assert forall|i: int| 0 <= i < more.len() implies marked(before, after, s, #[trigger] more[i]) by {
        if i < work.len() {
            assert(marked(before, labels, s, work[i]));
        }
    }
    assert forall|u: usize| #[trigger] marked(before, after, s, u) implies Some(v) == Some(u) || more.contains(u)
        || closed(adj, after, u) by {
        if u == w {
            assert(more[work.len() as int] == w);
        } else {
            assert(marked(before, labels, s, u));
            if work.contains(u) {
                let k = choose|k: int| 0 <= k < work.len() && work[k] == u;
                assert(more[k] == u);
            } else if u != v {
                assert(closed(adj, labels, u));
                assert forall|j: int| 0 <= j < adj[u as int].len() implies labelled(
                    after,
                    #[trigger] adj[u as int][j],
                ) by {
                    assert(labelled(labels, adj[u as int][j]));
                }
            }
        }
    }
}

/// Once every neighbour of the current vertex has a label, the vertex is
/// done with.
pub proof fn lemma_marking_leaves(
    adj: Seq<Seq<usize>>,
    before: Seq<Option<usize>>,
    labels: Seq<Option<usize>>,
    s: usize,
    id: usize,
    work: Seq<usize>,
    v: usize,
)
    requires
        marking_under_way(adj, before, labels, s, id, work, Some(v)),
        closed(adj, labels, v),
    ensures
        marking_under_way(adj, before, labels, s, id, work, None),
{
}

/// With no work left, every free walk from the source ends in a marked vertex.
pub proof fn lemma_marking_covers(
    adj: Seq<Seq<usize>>,
    before: Seq<Option<usize>>,
    labels: Seq<Option<usize>>,
    s: usize,
    id: usize,
    p: Seq<usize>,
)
    requires
        marking_under_way(adj, before, labels, s, id, Seq::empty(), None),
        is_free_walk(adj, before, p),
        p[0] == s,
    ensures
        marked(before, labels, s, p.last()),
    decreases p.len(),
{
    if p.len() >= 2 {
        lemma_walk_shorten(adj, p);
        let q = p.drop_last();
        assert forall|i: int| 1 <= i < q.len() implies before[(#[trigger] q[i]) as int] is None by {
            assert(before[p[i] as int] is None);
        }
        lemma_marking_covers(adj, before, labels, s, id, q);
        let u = q.last();
        assert(marked(before, labels, s, u));
        assert(!Seq::<usize>::empty().contains(u));
        assert(closed(adj, labels, u));
        let j = choose|j: int| 0 <= j < adj[u as int].len() && adj[u as int][j] == p.last();
        assert(labelled(labels, adj[u as int][j]));
        assert(before[p[p.len() - 1] as int] is None);
    }
}

/// With no work left, the marking is complete.
pub proof fn lemma_marking_ends(
    adj: Seq<Seq<usize>>,
    before: Seq<Option<usize>>,
    labels: Seq<Option<usize>>,
    s: usize,
    id: usize,
)
    requires
        marking_under_way(adj, before, labels, s, id, Seq::empty(), None),
    ensures
        is_marking(adj, before, labels, s, id),
{
    assert forall|v: usize| v < adj.len() implies (#[trigger] labels[v as int]) == (if v == s || (before[v as int] is None
        && free_reachable(adj, before, s, v)) {
        Some(id)
    } else {
        before[v as int]
    }) by {
        if v != s && before[v as int] is None {
            if free_reachable(adj, before, s, v) {
                let p = choose|p: Seq<usize>| #[trigger] walk_between(adj, p, s, v) && is_free_walk(adj, before, p);
                lemma_marking_covers(adj, before, labels, s, id, p);
            } else if labels[v as int] is Some {
                assert(marked(before, labels, s, v));
            }
        }
    }
}

/// A marking is determined by the graph, the labels before, the source and
/// the label: breadth-first and depth-first marking, and any repetition of
/// either, give the same labels.
pub proof fn lemma_marking_unique(
    adj: Seq<Seq<usize>>,
    before: Seq<Option<usize>>,
    first: Seq<Option<usize>>,
    second: Seq<Option<usize>>,
    s: usize,
    id: usize,
)
    requires
        adj.len() <= usize::MAX,
        before.len() == adj.len(),
        is_marking(adj, before, first, s, id),
        is_marking(adj, before, second, s, id),
    ensures
        first == second,
{
    assert forall|i: int| 0 <= i < first.len() implies first[i] == second[i] by {
        let v = i as usize;
        assert(first[v as int] == second[v as int]);
    }
    assert(first =~= second);
}

/// Where no vertex has a label yet, the marking from `s` labels exactly the
/// vertices that `s` reaches.
pub proof fn lemma_marking_of_blank(
    adj: Seq<Seq<usize>>,
    blank: Seq<Option<usize>>,
    after: Seq<Option<usize>>,
    s: usize,
    id: usize,
    t: usize,
)
    requires
        s < adj.len(),
        t < adj.len(),
        blank.len() == adj.len(),
        forall|i: int| 0 <= i < blank.len() ==> (#[trigger] blank[i]) is None,
        is_marking(adj, blank, after, s, id),
    ensures
        after[t as int] is Some <==> reachable(adj, s, t),
        after[t as int] is Some ==> after[t as int] == Some(id),
{
    if reachable(adj, s, t) {
        let p = choose|p: Seq<usize>| walk_between(adj, p, s, t);
        assert(walk_between(adj, p, s, t) && is_free_walk(adj, blank, p));
    }
    if free_reachable(adj, blank, s, t) {
        let p = choose|p: Seq<usize>| #[trigger] walk_between(adj, p, s, t) && is_free_walk(adj, blank, p);
        assert(walk_between(adj, p, s, t));
    }
    if t == s {
        lemma_reachable_self(adj, s);
    }
    assert(blank[t as int] is None);
}

/// The vertices that a marking from `s` labels, starting from no labels, are
/// the vertices to which the breadth-first distances from `s` are defined.
pub proof fn lemma_marking_agrees_with_distances(
    adj: Seq<Seq<usize>>,
    dist: Seq<Option<u32>>,
    blank: Seq<Option<usize>>,
    after: Seq<Option<usize>>,
    s: usize,
    id: usize,
    t: usize,
)
    requires
        s < adj.len(),
        t < adj.len(),
        is_distance_vector(adj, s, dist),
        blank.len() == adj.len(),
        forall|i: int| 0 <= i < blank.len() ==> (#[trigger] blank[i]) is None,
        is_marking(adj, blank, after, s, id),
    ensures
        after[t as int] is Some <==> dist[t as int] is Some,
{
    lemma_marking_of_blank(adj, blank, after, s, id, t);
    match dist[t as int] {
        Some(d) => {
            assert(is_distance(adj, s, t, d as nat));
            let p = choose|p: Seq<usize>| #[trigger] walk_between(adj, p, s, t) && p.len() == d + 1;
            assert(walk_between(adj, p, s, t));
        },
        None => {},
    }
}

/// Labels `vertex`, and every unlabelled vertex that it reaches over
/// unlabelled vertices, with `component_no`, visiting them level by level.
pub fn mark_component_bfs(
    vertex: usize,
    graph: &Graph,
    component: &mut Vec<Option<usize>>,
    component_no: usize,
)
    requires
        graph.wf(),
        vertex < graph.n,
        old(component)@.len() == graph.n,
    ensures
        is_marking(graph@, old(component)@, final(component)@, vertex, component_no),
{
    let ghost adj = graph@;
    let ghost before = component@;
    component[vertex] = Some(component_no);
    let mut queue: VecDeque<usize> = VecDeque::new();
    queue.push_back(vertex);
    proof {
        assert(queue@ =~= seq![vertex]);
        lemma_marking_starts(adj, before, vertex, component_no);
    }
    while queue.len() > 0
        invariant
            graph.wf(),
            adj == graph@,
            component@.len() == graph.n,
            marking_under_way(adj, before, component@, vertex, component_no, queue@, None),
        decreases unlabelled(component@) + queue@.len(),
    {
        let ghost measure = unlabelled(component@) + queue@.len();
        let ghost work = queue@;
        let v = queue.pop_front().unwrap();
        proof {
            assert(marked(before, component@, vertex, work[0]));
            assert forall|i: int| 0 <= i < queue@.len() implies work.contains(#[trigger] queue@[i]) by {
                assert(work[i + 1] == queue@[i]);
            }
            assert forall|i: int| 0 <= i < work.len() implies (#[trigger] work[i]) == v || queue@.contains(
                work[i],
            ) by {
                if i > 0 {
                    assert(queue@[i - 1] == work[i]);
                }
            }
            lemma_marking_takes(adj, before, component@, vertex, component_no, work, queue@, v);
        }
        let list = &graph.outedges[v];
        let mut j: usize = 0;
        while j < list.len()
            invariant
                graph.wf(),
                adj == graph@,
                v < graph.n,
                list@ == adj[v as int],
                j <= list@.len(),
                component@.len() == graph.n,
                marking_under_way(adj, before, component@, vertex, component_no, queue@, Some(v)),
                marked(before, component@, vertex, v),
                forall|i: int| 0 <= i < j ==> labelled(component@, #[trigger] adj[v as int][i]),
                unlabelled(component@) + queue@.len() + 1 == measure,
            decreases list@.len() - j,
        {
            let w = list[j];
            assert(w == adj[v as int][j as int]);
            if component[w].is_none() {
                let ghost labels = component@;
                proof {
                    assert(adj[v as int].contains(w));
                    lemma_marking_adds(adj, before, labels, vertex, component_no, queue@, v, w);
                    lemma_unlabelled_update(labels, w as int, component_no);
                }
                component[w] = Some(component_no);
                queue.push_back(w);
                proof {
                    assert forall|i: int| 0 <= i < j + 1 implies labelled(component@, #[trigger] adj[v as int][i]) by {
                        if i < j {
                            assert(labelled(labels, adj[v as int][i]));
                        }
                    }
                }
            }
            j += 1;
        }
        proof {
            assert(closed(adj, component@, v));
            lemma_marking_leaves(adj, before, component@, vertex, component_no, queue@, v);
        }
    }
    proof {
        assert(queue@ =~= Seq::<usize>::empty());
        lemma_marking_ends(adj, before, component@, vertex, component_no);
    }
}

/// A frame of the depth-first visit: a vertex and the number of its
/// neighbours that have been looked at.
pub open spec fn scanned(adj: Seq<Seq<usize>>, labels: Seq<Option<usize>>, frame: (usize, usize)) -> bool {
    &&& frame.0 < adj.len()
    &&& frame.1 <= adj[frame.0 as int].len()
    &&& forall|j: int| 0 <= j < frame.1 ==> labelled(labels, #[trigger] adj[frame.0 as int][j])
}

/// In every frame the neighbours that have been looked at have a label.
pub open spec fn all_scanned(adj: Seq<Seq<usize>>, labels: Seq<Option<usize>>, frames: Seq<(usize, usize)>) -> bool {
    forall|k: int| 0 <= k < frames.len() ==> scanned(adj, labels, #[trigger] frames[k])
}

/// The vertices of the frames, from the bottom of the stack to its top.
pub open spec fn frame_vertices(frames: Seq<(usize, usize)>) -> Seq<usize> {
    Seq::new(frames.len(), |k: int| frames[k].0)
}

/// The steps that the frames still ask for: one for each neighbour not yet
/// looked at, and one for leaving each frame.
pub open spec fn pending(adj: Seq<Seq<usize>>, frames: Seq<(usize, usize)>) -> nat
    decreases frames.len(),
{
    if frames.len() == 0 {
        0
    } else {
        pending(adj, frames.drop_last()) + (adj[frames.last().0 as int].len() - frames.last().1 + 1) as nat
    }
}

/// What a new frame on top adds to the pending steps.
pub proof fn lemma_pending_push(adj: Seq<Seq<usize>>, frames: Seq<(usize, usize)>, frame: (usize, usize))
    ensures
        pending(adj, frames.push(frame)) == pending(adj, frames) + (adj[frame.0 as int].len() - frame.1 + 1) as nat,
{
    assert(frames.push(frame).drop_last() =~= frames);
}

/// A marking goes on without a current vertex while that vertex is still
/// part of the work.
pub proof fn lemma_marking_resumes(
    adj: Seq<Seq<usize>>,
    before: Seq<Option<usize>>,
    labels: Seq<Option<usize>>,
    s: usize,
    id: usize,
    work: Seq<usize>,
    v: usize,
)
    requires
        marking_under_way(adj, before, labels, s, id, work, Some(v)),
        work.contains(v),
    ensures
        marking_under_way(adj, before, labels, s, id, work, None),
{
}

/// Labels `vertex`, and every unlabelled vertex that it reaches over
/// unlabelled vertices, with `component_no`, going deep first: from each
/// vertex into its first unlabelled neighbour, in the order of the neighbour
/// list, and back when none is left. The way back is kept on a stack of
/// frames, so a long chain of vertices costs memory, not call depth.
pub fn mark_component_dfs(
    vertex: usize,
    graph: &Graph,
    component: &mut Vec<Option<usize>>,
    component_no: usize,
)
    requires
        graph.wf(),
        vertex < graph.n,
        old(component)@.len() == graph.n,
    ensures
        is_marking(graph@, old(component)@, final(component)@, vertex, component_no),
{
    let ghost adj = graph@;
    let ghost before = component@;
    component[vertex] = Some(component_no);
    let mut stack: Vec<(usize, usize)> = Vec::new();
    stack.push((vertex, 0));
    proof {
        assert(frame_vertices(stack@) =~= seq![vertex]);
        lemma_marking_starts(adj, before, vertex, component_no);
    }
    while stack.len() > 0
        invariant
            graph.wf(),
            adj == graph@,
            component@.len() == graph.n,
            marking_under_way(adj, before, component@, vertex, component_no, frame_vertices(stack@), None),
            all_scanned(adj, component@, stack@),
        decreases unlabelled(component@), pending(adj, stack@),
    {
        let ghost frames = stack@;
        let ghost labels = component@;
        let ghost work = frame_vertices(frames);
        let (v, i) = stack.pop().unwrap();
        let ghost rest = stack@;
        proof {
            assert(frames.last() == (v, i));
            assert(rest =~= frames.drop_last());
            assert(scanned(adj, labels, frames[frames.len() - 1]));
            assert(work[work.len() - 1] == v);
            assert(work.contains(v));
            assert(marked(before, labels, vertex, work[work.len() - 1]));
            assert forall|k: int| 0 <= k < rest.len() implies scanned(adj, labels, #[trigger] rest[k]) by {
                assert(scanned(adj, labels, frames[k]));
            }
        }
        let list = &graph.outedges[v];
        assert(list@ == adj[v as int]);
        if i < list.len() {
            let w = list[i];
            assert(w == adj[v as int][i as int]);
            stack.push((v, i + 1));
            proof {
                assert(frame_vertices(stack@) =~= work);
                lemma_pending_push(adj, rest, (v, (i + 1) as usize));
            }
            if component[w].is_none() {
                let ghost held = stack@;
                proof {
                    assert(adj[v as int].contains(w));
                    lemma_marking_adds(adj, before, labels, vertex, component_no, work, v, w);
                    lemma_unlabelled_update(labels, w as int, component_no);
                }
                component[w] = Some(component_no);
                stack.push((w, 0));
                proof {
                    let more = work.push(w);
                    assert(frame_vertices(stack@) =~= more);
                    assert(more[work.len() - 1] == v);
                    lemma_marking_resumes(adj, before, component@, vertex, component_no, more, v);
                    assert forall|k: int| 0 <= k < stack@.len() implies scanned(adj, component@, #[trigger] stack@[k]) by {
                        let f = stack@[k];
                        if k < rest.len() {
                            assert(scanned(adj, labels, rest[k]));
                            assert forall|j: int| 0 <= j < f.1 implies labelled(
                                component@,
                                #[trigger] adj[f.0 as int][j],
                            ) by {
                                assert(labelled(labels, adj[f.0 as int][j]));
                            }
                        } else if k == rest.len() {
                            assert forall|j: int| 0 <= j < f.1 implies labelled(
                                component@,
                                #[trigger] adj[f.0 as int][j],
                            ) by {
                                if j < i {
                                    assert(labelled(labels, adj[v as int][j]));
                                }
                            }
                        }
                    }
                }
            } else {
                proof {
                    assert forall|k: int| 0 <= k < stack@.len() implies scanned(adj, component@, #[trigger] stack@[k]) by {
                        if k < rest.len() {
                            assert(scanned(adj, labels, rest[k]));
                        } else {
                            assert(labelled(labels, adj[v as int][i as int]));
                        }
                    }
                }
            }
        } else {
            proof {
                assert(closed(adj, labels, v));
                let left = frame_vertices(rest);
                assert forall|k: int| 0 <= k < left.len() implies work.contains(#[trigger] left[k]) by {
                    assert(work[k] == left[k]);
                }
                assert forall|k: int| 0 <= k < work.len() implies (#[trigger] work[k]) == v || left.contains(
                    work[k],
                ) by {
                    if k < work.len() - 1 {
                        assert(left[k] == work[k]);
                    }
                }
                lemma_marking_takes(adj, before, labels, vertex, component_no, work, left, v);
                lemma_marking_leaves(adj, before, labels, vertex, component_no, left, v);
            }
        }
    }
    proof {
        assert(frame_vertices(stack@) =~= Seq::<usize>::empty());
        lemma_marking_ends(adj, before, component@, vertex, component_no);
    }
}

} // verus!
