//! Breadth-first distances: the number of steps of a shortest walk from one
//! source to every vertex.

use vstd::prelude::*;
use std::collections::VecDeque;
use crate::graph::{adjacent, Graph};
use crate::walks::{
    is_distance, is_walk, lemma_reachable_self, lemma_unlabelled_bound, lemma_unlabelled_update,
    lemma_walk_extend, lemma_walk_shorten, reachable, reachable_in, unlabelled, walk_between,
};

verus! {

/// `dist` holds, for each vertex, the length of a shortest walk from `s` to
/// it, and nothing for a vertex that no walk from `s` reaches.
pub open spec fn is_distance_vector(adj: Seq<Seq<usize>>, s: usize, dist: Seq<Option<u32>>) -> bool {
    &&& dist.len() == adj.len()
    &&& forall|v: usize|
        v < adj.len() ==> match #[trigger] dist[v as int] {
            Some(d) => is_distance(adj, s, v, d as nat),
            None => !reachable(adj, s, v),
        }
}

/// `w` has a distance, and it is at most `bound`.
pub open spec fn within(dist: Seq<Option<u32>>, w: usize, bound: int) -> bool {
    w < dist.len() && dist[w as int] is Some && dist[w as int]->0 <= bound
}

/// Every neighbour of `u` has a distance at most one above that of `u`.
pub open spec fn settled(adj: Seq<Seq<usize>>, dist: Seq<Option<u32>>, u: usize) -> bool {
    forall|j: int|
        0 <= j < adj[u as int].len() ==> within(dist, #[trigger] adj[u as int][j], dist[u as int]->0 + 1)
}

/// The recorded distances are lengths of walks from `s`.
pub open spec fn witnessed(adj: Seq<Seq<usize>>, s: usize, dist: Seq<Option<u32>>) -> bool {
    forall|v: usize|
        v < adj.len() && (#[trigger] dist[v as int]) is Some ==> reachable_in(adj, s, v, dist[v as int]->0 as nat)
}

/// Every vertex with a distance is settled.
pub open spec fn all_settled(adj: Seq<Seq<usize>>, dist: Seq<Option<u32>>) -> bool {
    forall|u: usize| u < adj.len() && (#[trigger] dist[u as int]) is Some ==> settled(adj, dist, u)
}

/// Where the source has distance 0 and every vertex with a distance is
/// settled, the end of a walk from the source has a distance, and it is at
/// most the number of steps of the walk.
pub proof fn lemma_settled_bounds_walk(adj: Seq<Seq<usize>>, s: usize, dist: Seq<Option<u32>>, p: Seq<usize>)
    requires
        dist.len() == adj.len(),
        is_walk(adj, p),
        p[0] == s,
        dist[s as int] == Some(0u32),
        all_settled(adj, dist),
    ensures
        within(dist, p.last(), p.len() - 1),
    decreases p.len(),
{
    if p.len() >= 2 {
        lemma_walk_shorten(adj, p);
        let q = p.drop_last();
        lemma_settled_bounds_walk(adj, s, dist, q);
        let u = q.last();
        assert(dist[u as int] is Some);
        assert(settled(adj, dist, u));
        assert(adjacent(adj, u, p.last()));
        let j = choose|j: int| 0 <= j < adj[u as int].len() && adj[u as int][j] == p.last();
        assert(within(dist, adj[u as int][j], dist[u as int]->0 + 1));
    }
}

/// Distances that are witnessed by walks and settled everywhere are the
/// shortest distances.
pub proof fn lemma_settled_is_shortest(adj: Seq<Seq<usize>>, s: usize, dist: Seq<Option<u32>>)
    requires
        dist.len() == adj.len(),
        s < adj.len(),
        dist[s as int] == Some(0u32),
        witnessed(adj, s, dist),
        all_settled(adj, dist),
    ensures
        is_distance_vector(adj, s, dist),
{
    assert forall|v: usize| v < adj.len() implies match #[trigger] dist[v as int] {
        Some(d) => is_distance(adj, s, v, d as nat),
        None => !reachable(adj, s, v),
    } by {
        match dist[v as int] {
            Some(d) => {
                assert(reachable_in(adj, s, v, d as nat));
                assert forall|k: nat| #[trigger] reachable_in(adj, s, v, k) implies d <= k by {
                    let p = choose|p: Seq<usize>| #[trigger] walk_between(adj, p, s, v) && p.len() == k + 1;
                    lemma_settled_bounds_walk(adj, s, dist, p);
                }
            },
            None => {
                if reachable(adj, s, v) {
                    let p = choose|p: Seq<usize>| walk_between(adj, p, s, v);
                    lemma_settled_bounds_walk(adj, s, dist, p);
                }
            },
        }
    }
}

/// Two distance vectors for the same graph and source are equal: the
/// distances depend on nothing but the graph and the source.
pub proof fn lemma_distance_vector_unique(
    adj: Seq<Seq<usize>>,
    s: usize,
    first: Seq<Option<u32>>,
    second: Seq<Option<u32>>,
)
    requires
        adj.len() <= usize::MAX,
        is_distance_vector(adj, s, first),
        is_distance_vector(adj, s, second),
    ensures
        first == second,
{
    assert forall|i: int| 0 <= i < first.len() implies first[i] == second[i] by {
        let v = i as usize;
        assert(v as int == i);
        let a = first[v as int];
        let b = second[v as int];
        match (a, b) {
            (Some(x), Some(y)) => {
                assert(reachable_in(adj, s, v, x as nat));
                assert(reachable_in(adj, s, v, y as nat));
            },
            (Some(x), None) => {
                let p = choose|p: Seq<usize>| #[trigger] walk_between(adj, p, s, v) && p.len() == x + 1;
                assert(walk_between(adj, p, s, v));
            },
            (None, Some(y)) => {
                let p = choose|p: Seq<usize>| #[trigger] walk_between(adj, p, s, v) && p.len() == y + 1;
                assert(walk_between(adj, p, s, v));
            },
            (None, None) => {},
        }
    }
    assert(first =~= second);
}

/// Along an edge the distance grows by at most one: a neighbour of a vertex
/// with a distance has a distance, at most one more.
pub proof fn lemma_distance_along_edge(adj: Seq<Seq<usize>>, s: usize, dist: Seq<Option<u32>>, u: usize, w: usize)
    requires
        is_distance_vector(adj, s, dist),
        u < adj.len(),
        w < adj.len(),
        adjacent(adj, u, w),
        dist[u as int] is Some,
    ensures
        dist[w as int] is Some,
        dist[w as int]->0 <= dist[u as int]->0 + 1,
{
    let du = dist[u as int]->0;
    assert(is_distance(adj, s, u, du as nat));
    let p = choose|p: Seq<usize>| #[trigger] walk_between(adj, p, s, u) && p.len() == du + 1;
    lemma_walk_extend(adj, p, w);
    assert(walk_between(adj, p.push(w), s, w));
    assert(reachable(adj, s, w));
    assert(reachable_in(adj, s, w, (du + 1) as nat));
}

/// A vertex other than the source that has a distance is a neighbour of a
/// vertex whose distance is one less: with the lemma before, its distance is
/// one more than the least distance among the vertices that lead to it.
pub proof fn lemma_distance_predecessor(adj: Seq<Seq<usize>>, s: usize, dist: Seq<Option<u32>>, v: usize) -> (w: usize)
    requires
        is_distance_vector(adj, s, dist),
        v < adj.len(),
        v != s,
        dist[v as int] is Some,
    ensures
        w < adj.len(),
        adjacent(adj, w, v),
        dist[w as int] is Some,
        dist[w as int]->0 + 1 == dist[v as int]->0,
{
    let d = dist[v as int]->0;
    assert(is_distance(adj, s, v, d as nat));
    let p = choose|p: Seq<usize>| #[trigger] walk_between(adj, p, s, v) && p.len() == d + 1;
    lemma_walk_shorten(adj, p);
    let q = p.drop_last();
    let w = q.last();
    assert(walk_between(adj, q, s, w));
    assert(reachable(adj, s, w));
    assert(reachable_in(adj, s, w, (d - 1) as nat));
    assert(dist[w as int] is Some);
    lemma_distance_along_edge(adj, s, dist, w, v);
    w
}

/// The distance, in steps of a shortest walk, from `source` to every vertex
/// of `graph`; nothing for a vertex that cannot be reached.
pub fn bfs_distances(source: usize, graph: &Graph) -> (dist: Vec<Option<u32>>)
    requires
        graph.wf(),
        source < graph.n,
        graph.n <= u32::MAX,
    ensures
        is_distance_vector(graph@, source, dist@),
        dist@[source as int] == Some(0u32),
{
    let n = graph.n;
    let ghost adj = graph@;
    let mut dist: Vec<Option<u32>> = Vec::new();
    let mut k: usize = 0;
    while k < n
        invariant
            k <= n,
            dist@.len() == k,
            unlabelled(dist@) == k,
            forall|i: int| 0 <= i < k ==> (#[trigger] dist@[i]) is None,
        decreases n - k,
    {
        let ghost before = dist@;
        dist.push(None);
        assert(dist@.drop_last() =~= before);
        k += 1;
    }
    proof {
        lemma_unlabelled_update(dist@, source as int, 0u32);
        lemma_reachable_self(adj, source);
    }
    dist[source] = Some(0);
    let mut queue: VecDeque<usize> = VecDeque::new();
    queue.push_back(source);
    assert(queue@[0] == source);
    assert(queue@.contains(source));
    while queue.len() > 0
        invariant
            graph.wf(),
            adj == graph@,
            n == graph.n,
            n <= u32::MAX,
            source < n,
            dist@.len() == n,
            dist@[source as int] == Some(0u32),
            witnessed(adj, source, dist@),
            forall|v: usize|
                v < n && (#[trigger] dist@[v as int]) is Some ==> dist@[v as int]->0 + unlabelled(dist@) < n,
            forall|i: int| 0 <= i < queue@.len() ==> within(dist@, #[trigger] queue@[i], u32::MAX as int),
            forall|i: int, j: int|
                0 <= i <= j < queue@.len() ==> dist@[(#[trigger] queue@[i]) as int]->0 <= dist@[(
                #[trigger] queue@[j]) as int]->0,
            forall|i: int|
                0 <= i < queue@.len() ==> dist@[(#[trigger] queue@[i]) as int]->0 <= dist@[queue@[0] as int]->0
                    + 1,
            queue@.len() > 0 ==> forall|v: usize|
                v < n && (#[trigger] dist@[v as int]) is Some ==> dist@[v as int]->0 <= dist@[queue@[0] as int]->0
                    + 1,
            forall|u: usize|
                u < n && (#[trigger] dist@[u as int]) is Some ==> queue@.contains(u) || settled(adj, dist@, u),
        decreases unlabelled(dist@) + queue@.len(),
    {
        let ghost measure = unlabelled(dist@) + queue@.len();
        let ghost waiting = queue@;
        let v = queue.pop_front().unwrap();
        assert(within(dist@, waiting[0], u32::MAX as int));
        let dv: u32 = dist[v].unwrap();
        proof {
            assert forall|i: int| 0 <= i < queue@.len() implies within(dist@, #[trigger] queue@[i], u32::MAX as int)
                && dv <= dist@[queue@[i] as int]->0 <= dv + 1 by {
                assert(queue@[i] == waiting[i + 1]);
                assert(within(dist@, waiting[i + 1], u32::MAX as int));
            }
            assert forall|i: int, j: int| 0 <= i <= j < queue@.len() implies dist@[(#[trigger] queue@[i]) as int]->0
                <= dist@[(#[trigger] queue@[j]) as int]->0 by {
                assert(queue@[i] == waiting[i + 1]);
                assert(queue@[j] == waiting[j + 1]);
            }
            assert forall|u: usize| u < n && (#[trigger] dist@[u as int]) is Some implies u == v || queue@.contains(u)
                || settled(adj, dist@, u) by {
                if waiting.contains(u) && u != v {
                    let i = choose|i: int| 0 <= i < waiting.len() && waiting[i] == u;
                    assert(queue@[i - 1] == u);
                }
            }
        }
        let list = &graph.outedges[v];
        assert(list@ == adj[v as int]);
        let mut j: usize = 0;
        while j < list.len()
            invariant
                graph.wf(),
                adj == graph@,
                n == graph.n,
                n <= u32::MAX,
                source < n,
                v < n,
                list@ == adj[v as int],
                j <= list@.len(),
                dist@.len() == n,
                dist@[source as int] == Some(0u32),
                dist@[v as int] == Some(dv),
                witnessed(adj, source, dist@),
                forall|x: usize|
                    x < n && (#[trigger] dist@[x as int]) is Some ==> dist@[x as int]->0 + unlabelled(dist@) < n,
                forall|i: int|
                    0 <= i < queue@.len() ==> within(dist@, #[trigger] queue@[i], u32::MAX as int) && dv
                        <= dist@[queue@[i] as int]->0 <= dv + 1,
                forall|i: int, j: int|
                    0 <= i <= j < queue@.len() ==> dist@[(#[trigger] queue@[i]) as int]->0 <= dist@[(
                    #[trigger] queue@[j]) as int]->0,
                forall|x: usize| x < n && (#[trigger] dist@[x as int]) is Some ==> dist@[x as int]->0 <= dv + 1,
                forall|u: usize|
                    u < n && (#[trigger] dist@[u as int]) is Some ==> u == v || queue@.contains(u) || settled(
                        adj,
                        dist@,
                        u,
                    ),
                forall|i: int| 0 <= i < j ==> within(dist@, #[trigger] adj[v as int][i], dv + 1),
                unlabelled(dist@) + queue@.len() + 1 == measure,
            decreases list@.len() - j,
        {
            let w = list[j];
            assert(w == adj[v as int][j as int]);
            assert(w < n);
            if dist[w].is_none() {
                let ghost before = dist@;
                let ghost held = queue@;
                proof {
                    lemma_unlabelled_update(before, w as int, (dv + 1) as u32);
                    lemma_unlabelled_bound(before.update(w as int, Some((dv + 1) as u32)));
                    assert(dist@[v as int] is Some);
                }
                dist[w] = Some(dv + 1);
                queue.push_back(w);
                proof {
                    assert(queue@[held.len() as int] == w);
                    assert(queue@.contains(w));
                    assert(adj[v as int].contains(w));
                    assert(adjacent(adj, v, w));
                    assert(witnessed(adj, source, dist@)) by {
                        assert forall|x: usize| x < adj.len() && (#[trigger] dist@[x as int]) is Some implies reachable_in(
                            adj,
                            source,
                            x,
                            dist@[x as int]->0 as nat,
                        ) by {
                            if x == w {
                                assert(before[v as int] is Some);
                                let p = choose|p: Seq<usize>| #[trigger]
                                    walk_between(adj, p, source, v) && p.len() == dv + 1;
                                lemma_walk_extend(adj, p, w);
                                assert(walk_between(adj, p.push(w), source, w));
                            } else {
                                assert(before[x as int] is Some);
                            }
                        }
                    }
                    assert forall|x: usize| x < n && (#[trigger] dist@[x as int]) is Some implies dist@[x as int]->0
                        + unlabelled(dist@) < n && dist@[x as int]->0 <= dv + 1 by {
                        if x != w {
                            assert(before[x as int] is Some);
                        }
                    }
                    assert forall|i: int| 0 <= i < queue@.len() implies within(
                        dist@,
                        #[trigger] queue@[i],
                        u32::MAX as int,
                    ) && dv <= dist@[queue@[i] as int]->0 <= dv + 1 by {
                        if i < held.len() {
                            assert(within(before, held[i], u32::MAX as int));
                        }
                    }
                    assert forall|a: int, b: int| 0 <= a <= b < queue@.len() implies dist@[(
                    #[trigger] queue@[a]) as int]->0 <= dist@[(#[trigger] queue@[b]) as int]->0 by {
                        if a < held.len() {
                            assert(within(before, held[a], u32::MAX as int));
                        }
                        if b < held.len() {
                            assert(within(before, held[b], u32::MAX as int));
                        }
                    }
                    assert forall|u: usize| u < n && (#[trigger] dist@[u as int]) is Some implies u == v
                        || queue@.contains(u) || settled(adj, dist@, u) by {
                        if u != w && u != v {
                            assert(before[u as int] is Some);
                            if held.contains(u) {
                                let i = choose|i: int| 0 <= i < held.len() && held[i] == u;
                                assert(queue@[i] == u);
                            } else {
                                assert(settled(adj, before, u));
                                assert forall|i: int| 0 <= i < adj[u as int].len() implies within(
                                    dist@,
                                    #[trigger] adj[u as int][i],
                                    dist@[u as int]->0 + 1,
                                ) by {
                                    assert(within(before, adj[u as int][i], before[u as int]->0 + 1));
                                }
                            }
                        }
                    }
                    assert forall|i: int| 0 <= i < j + 1 implies within(dist@, #[trigger] adj[v as int][i], dv + 1) by {
                        if i < j {
                            assert(within(before, adj[v as int][i], dv + 1));
                        }
                    }
                }
            } else {
                assert(dist@[w as int] is Some);
                assert(within(dist@, adj[v as int][j as int], dv + 1));
            }
            j += 1;
        }
        proof {
            assert(settled(adj, dist@, v));
            if queue@.len() > 0 {
                assert(within(dist@, queue@[0], u32::MAX as int));
            }
        }
    }
    proof {
        assert(all_settled(adj, dist@)) by {
            assert forall|u: usize| u < adj.len() && (#[trigger] dist@[u as int]) is Some implies settled(
                adj,
                dist@,
                u,
            ) by {
                assert(!queue@.contains(u));
            }
        }
        lemma_settled_is_shortest(adj, source, dist@);
    }
    dist
}

} // verus!
