//! The partition of a graph into components: every vertex gets the number of
//! the component that it lies in, the components numbered from 1 in the
//! order of their first vertices.

use vstd::prelude::*;
use crate::components::{free_reachable, is_free_walk, is_marking, mark_component_bfs, mark_component_dfs};
use crate::graph::{symmetric, Graph};
use crate::walks::{
    lemma_reachable_self, lemma_reachable_transitive, lemma_walk_reverse, lemma_walk_tail, reachable,
    walk_between,
};

verus! {

/// The order in which a component is walked through.
#[derive(Debug, Clone, Copy, PartialEq, Eq, Structural)]
pub enum Strategy {
    BreadthFirst,
    DepthFirst,
}

/// No vertex before `r` reaches `r`: the labelling starts a component at `r`.
pub open spec fn is_root(adj: Seq<Seq<usize>>, r: usize) -> bool {
    forall|q: usize| q < r ==> !#[trigger] reachable(adj, q, r)
}

/// `r` is the first vertex that reaches `v`.
pub open spec fn is_first_source(adj: Seq<Seq<usize>>, r: usize, v: usize) -> bool {
    &&& reachable(adj, r, v)
    &&& forall|q: usize| q < r ==> !#[trigger] reachable(adj, q, v)
}

/// Some vertex before `k` reaches `v`.
pub open spec fn reached_below(adj: Seq<Seq<usize>>, k: usize, v: usize) -> bool {
    exists|r: usize| r < k && #[trigger] reachable(adj, r, v)
}

/// The number of roots among the vertices before `k`.
pub open spec fn roots_below(adj: Seq<Seq<usize>>, k: nat) -> nat
    decreases k,
{
    if k == 0 {
        0
    } else if is_root(adj, (k - 1) as usize) {
        roots_below(adj, (k - 1) as nat) + 1
    } else {
        roots_below(adj, (k - 1) as nat)
    }
}

/// The label of `v` is the number of roots up to and including the first
/// vertex that reaches `v`.
pub open spec fn labelled_by_first_source(adj: Seq<Seq<usize>>, labels: Seq<Option<usize>>, v: usize) -> bool {
    exists|r: usize| #[trigger]
        is_first_source(adj, r, v) && labels[v as int] == Some(roots_below(adj, (r + 1) as nat) as usize)
}

/// `labels` numbers the components of `adj`, and `count` is their number:
/// each vertex carries the rank, among the roots, of the first vertex that
/// reaches it.
pub open spec fn is_partition(adj: Seq<Seq<usize>>, count: usize, labels: Seq<Option<usize>>) -> bool {
    &&& labels.len() == adj.len()
    &&& count == roots_below(adj, adj.len())
    &&& forall|v: usize| v < adj.len() ==> #[trigger] labelled_by_first_source(adj, labels, v)
}

/// There are no more roots before `k` than vertices.
pub proof fn lemma_roots_below_bound(adj: Seq<Seq<usize>>, k: nat)
    ensures
        roots_below(adj, k) <= k,
    decreases k,
{
    if k > 0 {
        lemma_roots_below_bound(adj, (k - 1) as nat);
    }
}

/// The number of roots before `k` does not fall as `k` grows.
pub proof fn lemma_roots_below_monotone(adj: Seq<Seq<usize>>, a: nat, b: nat)
    requires
        a <= b,
    ensures
        roots_below(adj, a) <= roots_below(adj, b),
    decreases b,
{
    if a < b {
        lemma_roots_below_monotone(adj, a, (b - 1) as nat);
    }
}

/// A vertex has at most one first source.
pub proof fn lemma_first_source_unique(adj: Seq<Seq<usize>>, a: usize, b: usize, v: usize)
    requires
        is_first_source(adj, a, v),
        is_first_source(adj, b, v),
    ensures
        a == b,
{
    if a < b {
        assert(!reachable(adj, a, v));
    }
    if b < a {
        assert(!reachable(adj, b, v));
    }
}

/// The first source of a vertex is a root.
pub proof fn lemma_first_source_is_root(adj: Seq<Seq<usize>>, r: usize, v: usize)
    requires
        is_first_source(adj, r, v),
    ensures
        is_root(adj, r),
        r < adj.len(),
        1 <= roots_below(adj, (r + 1) as nat) <= roots_below(adj, adj.len()),
{
    assert forall|q: usize| q < r implies !#[trigger] reachable(adj, q, r) by {
        if reachable(adj, q, r) {
            lemma_reachable_transitive(adj, q, r, v);
        }
    }
    let p = choose|p: Seq<usize>| walk_between(adj, p, r, v);
    assert(p[0] < adj.len());
    lemma_roots_below_monotone(adj, (r + 1) as nat, adj.len());
}

/// Roots in ascending order have ascending ranks.
pub proof fn lemma_root_ranks_ascend(adj: Seq<Seq<usize>>, a: usize, b: usize)
    requires
        a < b,
        is_root(adj, b),
    ensures
        roots_below(adj, (a + 1) as nat) < roots_below(adj, (b + 1) as nat),
{
    lemma_roots_below_monotone(adj, (a + 1) as nat, b as nat);
}

/// Every rank from 1 to the number of roots before `k` is the rank of a root
/// before `k`.
pub proof fn lemma_rank_has_root(adj: Seq<Seq<usize>>, k: nat, c: nat) -> (r: usize)
    requires
        k <= usize::MAX,
        1 <= c <= roots_below(adj, k),
    ensures
        r < k,
        is_root(adj, r),
        roots_below(adj, (r + 1) as nat) == c,
    decreases k,
{
    if c <= roots_below(adj, (k - 1) as nat) {
        lemma_rank_has_root(adj, (k - 1) as nat, c)
    } else {
        (k - 1) as usize
    }
}

/// Where exactly the vertices reached from before `k` are labelled, a walk
/// from `k` to an unlabelled vertex passes unlabelled vertices only.
pub proof fn lemma_walk_to_unlabelled_is_free(
    adj: Seq<Seq<usize>>,
    labels: Seq<Option<usize>>,
    k: usize,
    v: usize,
)
    requires
        labels.len() == adj.len(),
        forall|x: usize| x < adj.len() ==> ((#[trigger] labels[x as int]) is Some <==> reached_below(adj, k, x)),
        v < adj.len(),
        labels[v as int] is None,
        reachable(adj, k, v),
    ensures
        free_reachable(adj, labels, k, v),
{
    let p = choose|p: Seq<usize>| walk_between(adj, p, k, v);
    assert forall|i: int| 1 <= i < p.len() implies labels[(#[trigger] p[i]) as int] is None by {
        let x = p[i];
        if labels[x as int] is Some {
            assert(reached_below(adj, k, x));
            let r = choose|r: usize| r < k && #[trigger] reachable(adj, r, x);
            lemma_walk_tail(adj, p, i);
            assert(walk_between(adj, p.subrange(i, p.len() as int), x, v));
            lemma_reachable_transitive(adj, r, x, v);
            assert(reached_below(adj, k, v));
        }
    }
    assert(walk_between(adj, p, k, v) && is_free_walk(adj, labels, p));
}

/// Labels every vertex of `graph` with the number of its component and
/// returns the number of components with the labels. The vertices are taken
/// in ascending order; each one found without a label starts the next
/// component, which is marked whole in the order that `strategy` names. The
/// result does not depend on the strategy.
pub fn partition(graph: &Graph, strategy: Strategy) -> (r: (usize, Vec<Option<usize>>))
    requires
        graph.wf(),
    ensures
        is_partition(graph@, r.0, r.1@),
{
    let n = graph.n;
    let ghost adj = graph@;
    let mut component: Vec<Option<usize>> = Vec::new();
    let mut k: usize = 0;
    while k < n
        invariant
            k <= n,
            component@.len() == k,
            forall|i: int| 0 <= i < k ==> (#[trigger] component@[i]) is None,
        decreases n - k,
    {
        component.push(None);
        k += 1;
    }
    let mut count: usize = 0;
    let mut v: usize = 0;
    while v < n
        invariant
            graph.wf(),
            adj == graph@,
            n == graph.n,
            v <= n,
            component@.len() == n,
            count == roots_below(adj, v as nat),
            forall|x: usize| x < n ==> ((#[trigger] component@[x as int]) is Some <==> reached_below(adj, v, x)),
            forall|x: usize|
                x < n && (#[trigger] component@[x as int]) is Some ==> labelled_by_first_source(adj, component@, x),
        decreases n - v,
    {
        let ghost before = component@;
        if component[v].is_none() {
            proof {
                lemma_roots_below_bound(adj, v as nat);
                assert(is_root(adj, v)) by {
                    assert forall|q: usize| q < v implies !#[trigger] reachable(adj, q, v) by {
                        if reachable(adj, q, v) {
                            assert(reached_below(adj, v, v));
                        }
                    }
                }
                lemma_reachable_self(adj, v);
            }
            count += 1;
            match strategy {
                Strategy::BreadthFirst => mark_component_bfs(v, graph, &mut component, count),
                Strategy::DepthFirst => mark_component_dfs(v, graph, &mut component, count),
            }
            proof {
                let after = component@;
                assert(is_marking(adj, before, after, v, count));
                assert(count == roots_below(adj, (v + 1) as nat));
                assert forall|x: usize| x < n implies ((#[trigger] after[x as int]) is Some <==> reached_below(
                    adj,
                    (v + 1) as usize,
                    x,
                )) && (after[x as int] is Some ==> labelled_by_first_source(adj, after, x)) by {
                    if x == v {
                        assert(reachable(adj, v, v));
                        assert(is_first_source(adj, v, v));
                    } else if before[x as int] is Some {
                        assert(reached_below(adj, v, x));
                        let r = choose|r: usize| r < v && #[trigger] reachable(adj, r, x);
                        assert(r < v + 1 && reachable(adj, r, x));
                        assert(labelled_by_first_source(adj, before, x));
                        let f = choose|f: usize| #[trigger]
                            is_first_source(adj, f, x) && before[x as int] == Some(
                                roots_below(adj, (f + 1) as nat) as usize,
                            );
                        assert(is_first_source(adj, f, x));
                    } else {
                        assert(!reached_below(adj, v, x));
                        if reachable(adj, v, x) {
                            lemma_walk_to_unlabelled_is_free(adj, before, v, x);
                            assert(is_first_source(adj, v, x)) by {
                                assert forall|q: usize| q < v implies !#[trigger] reachable(adj, q, x) by {
                                    if reachable(adj, q, x) {
                                        assert(reached_below(adj, v, x));
                                    }
                                }
                            }
                        } else {
                            if free_reachable(adj, before, v, x) {
                                let p = choose|p: Seq<usize>| #[trigger]
                                    walk_between(adj, p, v, x) && is_free_walk(adj, before, p);
                                assert(walk_between(adj, p, v, x));
                            }
                            if reached_below(adj, (v + 1) as usize, x) {
                                let r = choose|r: usize| r < v + 1 && #[trigger] reachable(adj, r, x);
                                if r < v {
                                    assert(reached_below(adj, v, x));
                                }
                            }
                        }
                    }
                }
            }
        } else {
            proof {
                assert(reached_below(adj, v, v));
                let q = choose|q: usize| q < v && #[trigger] reachable(adj, q, v);
                assert(!is_root(adj, v));
                assert forall|x: usize| x < n implies ((#[trigger] component@[x as int]) is Some <==> reached_below(
                    adj,
                    (v + 1) as usize,
                    x,
                )) by {
                    if component@[x as int] is Some {
                        assert(reached_below(adj, v, x));
                        let r = choose|r: usize| r < v && #[trigger] reachable(adj, r, x);
                        assert(r < v + 1 && reachable(adj, r, x));
                    }
                    if reached_below(adj, (v + 1) as usize, x) {
                        let r = choose|r: usize| r < v + 1 && #[trigger] reachable(adj, r, x);
                        if r == v {
                            lemma_reachable_transitive(adj, q, v, x);
                        }
                        assert(reached_below(adj, v, x));
                    }
                }
            }
        }
        v += 1;
    }
    proof {
        assert forall|x: usize| x < adj.len() implies #[trigger] labelled_by_first_source(adj, component@, x) by {
            lemma_reachable_self(adj, x);
            assert(reached_below(adj, n, x));
            assert(component@[x as int] is Some);
        }
    }
    (count, component)
}

/// A graph has one partition only: whatever the strategy, and however often
/// it is computed, the number of components and every label are the same.
pub proof fn lemma_partition_unique(
    adj: Seq<Seq<usize>>,
    first_count: usize,
    first: Seq<Option<usize>>,
    second_count: usize,
    second: Seq<Option<usize>>,
)
    requires
        adj.len() <= usize::MAX,
        is_partition(adj, first_count, first),
        is_partition(adj, second_count, second),
    ensures
        first_count == second_count,
        first == second,
{
    assert forall|i: int| 0 <= i < first.len() implies first[i] == second[i] by {
        let v = i as usize;
        assert(labelled_by_first_source(adj, first, v));
        assert(labelled_by_first_source(adj, second, v));
        let a = choose|a: usize| #[trigger]
            is_first_source(adj, a, v) && first[v as int] == Some(roots_below(adj, (a + 1) as nat) as usize);
        let b = choose|b: usize| #[trigger]
            is_first_source(adj, b, v) && second[v as int] == Some(roots_below(adj, (b + 1) as nat) as usize);
        lemma_first_source_unique(adj, a, b, v);
    }
    assert(first =~= second);
}

/// In a partition every vertex has a label, from 1 to the number of
/// components.
pub proof fn lemma_partition_labels_in_range(
    adj: Seq<Seq<usize>>,
    count: usize,
    labels: Seq<Option<usize>>,
    v: usize,
)
    requires
        is_partition(adj, count, labels),
        v < adj.len(),
    ensures
        labels[v as int] is Some,
        1 <= labels[v as int]->0 <= count,
{
    assert(labelled_by_first_source(adj, labels, v));
    let r = choose|r: usize| #[trigger]
        is_first_source(adj, r, v) && labels[v as int] == Some(roots_below(adj, (r + 1) as nat) as usize);
    lemma_first_source_is_root(adj, r, v);
}

/// In a partition every number from 1 to the number of components is the
/// label of some vertex: no component is empty.
pub proof fn lemma_partition_label_used(
    adj: Seq<Seq<usize>>,
    count: usize,
    labels: Seq<Option<usize>>,
    c: usize,
) -> (v: usize)
    requires
        adj.len() <= usize::MAX,
        is_partition(adj, count, labels),
        1 <= c <= count,
    ensures
        v < adj.len(),
        labels[v as int] == Some(c),
{
    let r = lemma_rank_has_root(adj, adj.len(), c as nat);
    lemma_reachable_self(adj, r);
    assert(is_first_source(adj, r, r));
    assert(labelled_by_first_source(adj, labels, r));
    let f = choose|f: usize| #[trigger]
        is_first_source(adj, f, r) && labels[r as int] == Some(roots_below(adj, (f + 1) as nat) as usize);
    lemma_first_source_unique(adj, f, r, r);
    r
}

/// In a partition two vertices carry the same label exactly when the same
/// vertex is the first to reach each of them.
pub proof fn lemma_partition_same_source(
    adj: Seq<Seq<usize>>,
    count: usize,
    labels: Seq<Option<usize>>,
    u: usize,
    v: usize,
)
    requires
        is_partition(adj, count, labels),
        u < adj.len(),
        v < adj.len(),
    ensures
        labels[u as int] == labels[v as int] <==> exists|r: usize|
            is_first_source(adj, r, u) && #[trigger] is_first_source(adj, r, v),
{
    assert(labelled_by_first_source(adj, labels, u));
    assert(labelled_by_first_source(adj, labels, v));
    let a = choose|a: usize| #[trigger]
        is_first_source(adj, a, u) && labels[u as int] == Some(roots_below(adj, (a + 1) as nat) as usize);
    let b = choose|b: usize| #[trigger]
        is_first_source(adj, b, v) && labels[v as int] == Some(roots_below(adj, (b + 1) as nat) as usize);
    lemma_first_source_is_root(adj, a, u);
    lemma_first_source_is_root(adj, b, v);
    if a < b {
        lemma_root_ranks_ascend(adj, a, b);
    }
    if b < a {
        lemma_root_ranks_ascend(adj, b, a);
    }
    if exists|r: usize| is_first_source(adj, r, u) && #[trigger] is_first_source(adj, r, v) {
        let r = choose|r: usize| is_first_source(adj, r, u) && #[trigger] is_first_source(adj, r, v);
        lemma_first_source_unique(adj, r, a, u);
        lemma_first_source_unique(adj, r, b, v);
    }
    if a == b {
        assert(is_first_source(adj, a, u) && is_first_source(adj, a, v));
    }
}

/// Where every vertex is a neighbour of each of its neighbours, reaching is
/// mutual.
pub proof fn lemma_reachable_symmetric(adj: Seq<Seq<usize>>, u: usize, v: usize)
    requires
        symmetric(adj),
        reachable(adj, u, v),
    ensures
        reachable(adj, v, u),
{
    let p = choose|p: Seq<usize>| walk_between(adj, p, u, v);
    lemma_walk_reverse(adj, p);
    assert(walk_between(adj, p.reverse(), v, u));
}

/// In the partition of an undirected graph two vertices carry the same label
/// exactly when a walk joins them.
pub proof fn lemma_partition_groups_connected(
    adj: Seq<Seq<usize>>,
    count: usize,
    labels: Seq<Option<usize>>,
    u: usize,
    v: usize,
)
    requires
        symmetric(adj),
        is_partition(adj, count, labels),
        u < adj.len(),
        v < adj.len(),
    ensures
        labels[u as int] == labels[v as int] <==> reachable(adj, u, v),
{
    lemma_partition_same_source(adj, count, labels, u, v);
    assert(labelled_by_first_source(adj, labels, u));
    let a = choose|a: usize| #[trigger]
        is_first_source(adj, a, u) && labels[u as int] == Some(roots_below(adj, (a + 1) as nat) as usize);
    if labels[u as int] == labels[v as int] {
        let r = choose|r: usize| is_first_source(adj, r, u) && #[trigger] is_first_source(adj, r, v);
        lemma_reachable_symmetric(adj, r, u);
        lemma_reachable_transitive(adj, u, r, v);
    }
    if reachable(adj, u, v) {
        lemma_reachable_symmetric(adj, u, v);
        lemma_reachable_transitive(adj, a, u, v);
        assert forall|q: usize| q < a implies !#[trigger] reachable(adj, q, v) by {
            if reachable(adj, q, v) {
                lemma_reachable_transitive(adj, q, v, u);
            }
        }
        assert(is_first_source(adj, a, u) && is_first_source(adj, a, v));
    }
}

} // verus!
