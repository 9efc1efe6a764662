//! The graph store: a vertex count and one neighbour list per vertex, built
//! once from an edge list and read-only afterwards.

use vstd::prelude::*;

verus! {

/// A graph on the vertices `0..n`, held as one neighbour list per vertex.
#[derive(Debug)]
pub struct Graph {
    pub n: usize,
    pub outedges: Vec<Vec<usize>>,
}

/// Why an edge list was refused.
#[derive(Debug, Clone, Copy, PartialEq, Eq, Structural)]
pub enum BuildError {
    /// The edge at `position` has an endpoint that is not below the vertex count.
    VertexOutOfRange { position: usize },
}

impl View for Graph {
    type V = Seq<Seq<usize>>;

    /// The adjacency structure: for each vertex the sequence of its neighbours.
    open spec fn view(&self) -> Seq<Seq<usize>> {
        Seq::new(self.outedges@.len(), |u: int| self.outedges@[u]@)
    }
}

/// Every neighbour named in `adj` is itself a vertex of `adj`.
pub open spec fn closed_adjacency(adj: Seq<Seq<usize>>) -> bool {
    forall|u: int, i: int|
        0 <= u < adj.len() && 0 <= i < adj[u].len() ==> (#[trigger] adj[u][i]) < adj.len()
}

/// `v` is a neighbour of `u`.
pub open spec fn adjacent(adj: Seq<Seq<usize>>, u: usize, v: usize) -> bool {
    u < adj.len() && adj[u as int].contains(v)
}

/// Each vertex is a neighbour of each of its neighbours.
pub open spec fn symmetric(adj: Seq<Seq<usize>>) -> bool {
    forall|u: usize, v: usize| adjacent(adj, u, v) <==> adjacent(adj, v, u)
}

/// The sequence is in ascending order (equal entries may repeat).
pub open spec fn ascending(s: Seq<usize>) -> bool {
    forall|i: int, j: int| 0 <= i <= j < s.len() ==> s[i] <= s[j]
}

/// Both endpoints of every edge are below `n`.
pub open spec fn endpoints_below(edges: Seq<(usize, usize)>, n: usize) -> bool {
    forall|k: int| 0 <= k < edges.len() ==> (#[trigger] edges[k]).0 < n && edges[k].1 < n
}

/// The destinations of the edges that leave `u`, in the order of the list.
pub open spec fn targets(edges: Seq<(usize, usize)>, u: usize) -> Seq<usize>
    decreases edges.len(),
{
    if edges.len() == 0 {
        Seq::empty()
    } else if edges.last().0 == u {
        targets(edges.drop_last(), u).push(edges.last().1)
    } else {
        targets(edges.drop_last(), u)
    }
}

/// The edge list with every edge turned round.
pub open spec fn reversed(edges: Seq<(usize, usize)>) -> Seq<(usize, usize)> {
    Seq::new(edges.len(), |k: int| (edges[k].1, edges[k].0))
}

/// `v` is among the destinations of the edges leaving `u` exactly when the
/// list holds the edge `(u, v)`.
pub proof fn lemma_targets_contains(edges: Seq<(usize, usize)>, u: usize, v: usize)
    ensures
        targets(edges, u).contains(v) <==> edges.contains((u, v)),
    decreases edges.len(),
{
    if edges.len() == 0 {
    } else {
        let rest = edges.drop_last();
        lemma_targets_contains(rest, u, v);
        let t = targets(rest, u);
        if edges.contains((u, v)) {
            let k = choose|k: int| 0 <= k < edges.len() && edges[k] == (u, v);
            if k < edges.len() - 1 {
                assert(rest[k] == (u, v));
                let i = choose|i: int| 0 <= i < t.len() && t[i] == v;
                if edges.last().0 == u {
                    assert(t.push(edges.last().1)[i] == v);
                }
            } else {
                assert(t.push(v)[t.len() as int] == v);
            }
        }
        if targets(edges, u).contains(v) {
            let i = choose|i: int| 0 <= i < targets(edges, u).len() && targets(edges, u)[i] == v;
            if edges.last().0 == u && i == t.len() {
                assert(edges[edges.len() - 1] == (u, v));
            } else {
                assert(t[i] == v);
                let k = choose|k: int| 0 <= k < rest.len() && rest[k] == (u, v);
                assert(edges[k] == (u, v));
            }
        }
    }
}

/// The reversed list holds `(u, v)` exactly when the list holds `(v, u)`.
pub proof fn lemma_reversed_contains(edges: Seq<(usize, usize)>, u: usize, v: usize)
    ensures
        reversed(edges).contains((u, v)) <==> edges.contains((v, u)),
{
    let r = reversed(edges);
    if r.contains((u, v)) {
        let k = choose|k: int| 0 <= k < r.len() && r[k] == (u, v);
        assert(edges[k] == (v, u));
    }
    if edges.contains((v, u)) {
        let k = choose|k: int| 0 <= k < edges.len() && edges[k] == (v, u);
        assert(r[k] == (u, v));
    }
}

/// What a directed build of `edges` on `n` vertices yields: the neighbours of
/// `u` are the destinations of the edges leaving `u`, each as often as the
/// list names it, in ascending order.
pub open spec fn is_directed_build(adj: Seq<Seq<usize>>, n: usize, edges: Seq<(usize, usize)>) -> bool {
    &&& adj.len() == n
    &&& closed_adjacency(adj)
    &&& forall|u: usize|
        u < n ==> ascending(#[trigger] adj[u as int]) && adj[u as int].to_multiset() == targets(
            edges,
            u,
        ).to_multiset()
    &&& forall|u: usize, v: usize| #[trigger] adjacent(adj, u, v) <==> edges.contains((u, v))
}

/// What an undirected build yields: every edge counts in both directions.
pub open spec fn is_undirected_build(adj: Seq<Seq<usize>>, n: usize, edges: Seq<(usize, usize)>) -> bool {
    &&& adj.len() == n
    &&& closed_adjacency(adj)
    &&& forall|u: usize|
        u < n ==> ascending(#[trigger] adj[u as int]) && adj[u as int].to_multiset() == targets(
            edges,
            u,
        ).to_multiset().add(targets(reversed(edges), u).to_multiset())
    &&& forall|u: usize, v: usize| #[trigger]
        adjacent(adj, u, v) <==> edges.contains((u, v)) || edges.contains((v, u))
}

/// An undirected build is symmetric: `u` is a neighbour of `v` exactly when
/// `v` is a neighbour of `u`.
pub proof fn lemma_undirected_build_symmetric(adj: Seq<Seq<usize>>, n: usize, edges: Seq<(usize, usize)>)
    requires
        is_undirected_build(adj, n, edges),
    ensures
        symmetric(adj),
{
    assert forall|u: usize, v: usize| adjacent(adj, u, v) <==> adjacent(adj, v, u) by {
        assert(adjacent(adj, u, v) <==> edges.contains((u, v)) || edges.contains((v, u)));
        assert(adjacent(adj, v, u) <==> edges.contains((v, u)) || edges.contains((u, v)));
    }
}

/// Sorts a neighbour list with `sort` of std's slices: afterwards the list is
/// in ascending order and holds the same entries, each as often as before.
#[verifier::external_body]
fn sort_ascending(list: &mut Vec<usize>)
    ensures
        ascending(final(list)@),
        final(list)@.to_multiset() == old(list)@.to_multiset(),
{
    list.sort();
}

/// Returns the list of reverse edges.
pub fn reverse_edges(list: &Vec<(usize, usize)>) -> (out: Vec<(usize, usize)>)
    ensures
        out@ == reversed(list@),
{
    let mut new_list: Vec<(usize, usize)> = Vec::new();
    let mut k: usize = 0;
    while k < list.len()
        invariant
            k <= list@.len(),
            new_list@.len() == k,
            forall|i: int| 0 <= i < k ==> new_list@[i] == (list@[i].1, list@[i].0),
        decreases list@.len() - k,
    {
        let (u, v) = list[k];
        new_list.push((v, u));
        k += 1;
    }
    assert(new_list@ =~= reversed(list@));
    new_list
}

impl Graph {
    /// The neighbour lists are one per vertex and name vertices only.
    pub open spec fn wf(&self) -> bool {
        &&& self.outedges@.len() == self.n
        &&& closed_adjacency(self@)
    }

    /// Appends the destination of each edge to the neighbour list of its
    /// source, in the order of the edge list.
    pub fn add_directed_edges(&mut self, edges: &Vec<(usize, usize)>)
        requires
            old(self).wf(),
            endpoints_below(edges@, old(self).n),
        ensures
            final(self).wf(),
            final(self).n == old(self).n,
            forall|u: usize|
                u < old(self).n ==> (#[trigger] final(self)@[u as int]) == old(self)@[u as int]
                    + targets(edges@, u),
    {
        let mut k: usize = 0;
        while k < edges.len()
            invariant
                k <= edges@.len(),
                self.wf(),
                self.n == old(self).n,
                endpoints_below(edges@, self.n),
                forall|u: usize|
                    u < self.n ==> (#[trigger] self@[u as int]) == old(self)@[u as int] + targets(
                        edges@.subrange(0, k as int),
                        u,
                    ),
            decreases edges@.len() - k,
        {
            let (u, v) = edges[k];
            let ghost before = self@;
            self.outedges[u].push(v);
            proof {
                let done = edges@.subrange(0, k as int);
                let next = edges@.subrange(0, k + 1);
                assert(next.drop_last() =~= done);
                assert(next.last() == (u, v));
                assert forall|x: usize| x < self.n implies (#[trigger] self@[x as int])
                    == old(self)@[x as int] + targets(next, x) by {
                    if x == u {
                        assert(self@[x as int] =~= before[x as int].push(v));
                        assert(before[x as int].push(v) =~= old(self)@[x as int] + targets(
                            next,
                            x,
                        ));
                    } else {
                        assert(self@[x as int] =~= before[x as int]);
                    }
                }
                assert forall|a: int, i: int|
                    0 <= a < self@.len() && 0 <= i < self@[a].len() implies (#[trigger] self@[a][i])
                    < self@.len() by {
                    if a == u {
                        assert(self@[a] =~= before[a].push(v));
                        if i < before[a].len() {
                            assert(before[a][i] < before.len());
                        }
                    } else {
                        assert(self@[a] =~= before[a]);
                        assert(before[a][i] < before.len());
                    }
                }
            }
            k += 1;
        }
        proof {
            assert(edges@.subrange(0, k as int) =~= edges@);
        }
    }

    /// Puts every neighbour list in ascending order.
    pub fn sort_graph_lists(&mut self)
        requires
            old(self).wf(),
        ensures
            final(self).wf(),
            final(self).n == old(self).n,
            forall|u: int|
                0 <= u < old(self).n ==> ascending(#[trigger] final(self)@[u]) && final(self)@[u].to_multiset()
                    == old(self)@[u].to_multiset(),
    {
        let mut k: usize = 0;
        while k < self.outedges.len()
            invariant
                k <= self.n,
                self.wf(),
                self.n == old(self).n,
                old(self).wf(),
                forall|u: int|
                    0 <= u < k ==> ascending(#[trigger] self@[u]) && self@[u].to_multiset() == old(
                        self,
                    )@[u].to_multiset(),
                forall|u: int| k <= u < self.n ==> (#[trigger] self@[u]) == old(self)@[u],
            decreases self.n - k,
        {
            let ghost before = self@;
            sort_ascending(&mut self.outedges[k]);
            proof {
                broadcast use vstd::seq_lib::group_to_multiset_ensures;
                assert forall|a: int, i: int|
                    0 <= a < self@.len() && 0 <= i < self@[a].len() implies (#[trigger] self@[a][i])
                    < self@.len() by {
                    if a == k {
                        let x = self@[a][i];
                        assert(self@[a].contains(x));
                        assert(self@[a].to_multiset().count(x) > 0);
                        assert(before[a].to_multiset().count(x) > 0);
                        assert(before[a].contains(x));
                        let j = choose|j: int| 0 <= j < before[a].len() && before[a][j] == x;
                        assert(before[a][j] < before.len());
                    } else {
                        assert(self@[a] == before[a]);
                        assert(before[a][i] < before.len());
                    }
                }
                assert forall|u: int| 0 <= u < k + 1 implies ascending(#[trigger] self@[u])
                    && self@[u].to_multiset() == old(self)@[u].to_multiset() by {
                    if u < k {
                        assert(self@[u] == before[u]);
                    } else {
                        assert(before[u] == old(self)@[u]);
                        assert(self@[u] == self.outedges@[u]@);
                    }
                }
                assert forall|u: int| k + 1 <= u < self.n implies (#[trigger] self@[u]) == old(
                    self,
                )@[u] by {
                    assert(self@[u] == before[u]);
                }
            }
            k += 1;
        }
    }
}

impl Graph {
    /// The graph on `n` vertices in which each edge leads from its first to
    /// its second endpoint.
    pub fn create_directed(n: usize, edges: &Vec<(usize, usize)>) -> (g: Graph)
        requires
            endpoints_below(edges@, n),
        ensures
            g.wf(),
            g.n == n,
            is_directed_build(g@, n, edges@),
    {
        let mut lists: Vec<Vec<usize>> = Vec::new();
        let mut k: usize = 0;
        while k < n
            invariant
                k <= n,
                lists@.len() == k,
                forall|u: int| 0 <= u < k ==> (#[trigger] lists@[u])@ == Seq::<usize>::empty(),
            decreases n - k,
        {
            lists.push(Vec::new());
            k += 1;
        }
        let mut g = Graph { n, outedges: lists };
        let ghost blank = g@;
        g.add_directed_edges(edges);
        let ghost filled = g@;
        g.sort_graph_lists();
        proof {
            broadcast use vstd::seq_lib::group_to_multiset_ensures;
            assert forall|u: usize| u < n implies ascending(#[trigger] g@[u as int]) && g@[u as int].to_multiset()
                == targets(edges@, u).to_multiset() by {
                assert(filled[u as int] == blank[u as int] + targets(edges@, u));
                assert(blank[u as int] + targets(edges@, u) =~= targets(edges@, u));
            }
            assert forall|u: usize, v: usize| #[trigger]
                adjacent(g@, u, v) <==> edges@.contains((u, v)) by {
                lemma_targets_contains(edges@, u, v);
                if u < n {
                    assert(g@[u as int].contains(v) <==> g@[u as int].to_multiset().count(v) > 0);
                    assert(targets(edges@, u).contains(v) <==> targets(edges@, u).to_multiset().count(v) > 0);
                } else if edges@.contains((u, v)) {
                    let i = choose|i: int| 0 <= i < edges@.len() && edges@[i] == (u, v);
                    assert(edges@[i].0 < n);
                }
            }
        }
        g
    }

    /// The graph on `n` vertices in which each edge joins its endpoints in
    /// both directions.
    pub fn create_undirected(n: usize, edges: &Vec<(usize, usize)>) -> (g: Graph)
        requires
            endpoints_below(edges@, n),
        ensures
            g.wf(),
            g.n == n,
            is_undirected_build(g@, n, edges@),
            symmetric(g@),
    {
        let mut g = Self::create_directed(n, edges);
        let back = reverse_edges(edges);
        assert(endpoints_below(back@, n)) by {
            assert forall|k: int| 0 <= k < back@.len() implies (#[trigger] back@[k]).0 < n && back@[k].1 < n by {
                assert(edges@[k].0 < n && edges@[k].1 < n);
            }
        }
        let ghost forward = g@;
        g.add_directed_edges(&back);
        let ghost both = g@;
        g.sort_graph_lists();
        proof {
            broadcast use vstd::seq_lib::group_to_multiset_ensures;
            assert forall|u: usize| u < n implies ascending(#[trigger] g@[u as int]) && g@[u as int].to_multiset()
                == targets(edges@, u).to_multiset().add(targets(reversed(edges@), u).to_multiset()) by {
                assert(both[u as int] == forward[u as int] + targets(back@, u));
                vstd::seq_lib::lemma_multiset_commutative(forward[u as int], targets(back@, u));
            }
            assert forall|u: usize, v: usize| #[trigger]
                adjacent(g@, u, v) <==> edges@.contains((u, v)) || edges@.contains((v, u)) by {
                lemma_targets_contains(edges@, u, v);
                lemma_targets_contains(back@, u, v);
                lemma_reversed_contains(edges@, u, v);
                if u < n {
                    let a = targets(edges@, u);
                    let b = targets(back@, u);
                    assert(g@[u as int].contains(v) <==> g@[u as int].to_multiset().count(v) > 0);
                    assert(a.contains(v) <==> a.to_multiset().count(v) > 0);
                    assert(b.contains(v) <==> b.to_multiset().count(v) > 0);
                    assert(a.to_multiset().add(b.to_multiset()).count(v) == a.to_multiset().count(v)
                        + b.to_multiset().count(v));
                } else {
                    if edges@.contains((u, v)) {
                        let i = choose|i: int| 0 <= i < edges@.len() && edges@[i] == (u, v);
                        assert(edges@[i].0 < n);
                    }
                    if edges@.contains((v, u)) {
                        let i = choose|i: int| 0 <= i < edges@.len() && edges@[i] == (v, u);
                        assert(edges@[i].1 < n);
                    }
                }
            }
            lemma_undirected_build_symmetric(g@, n, edges@);
        }
        g
    }

    /// Builds the graph on `n` vertices from an edge list, directed or
    /// undirected, after checking that every endpoint is a vertex. The error
    /// names the first edge with an endpoint out of range.
    pub fn build(n: usize, edges: &Vec<(usize, usize)>, directed: bool) -> (r: Result<Graph, BuildError>)
        ensures
            match r {
                Ok(g) => {
                    &&& endpoints_below(edges@, n)
                    &&& g.wf()
                    &&& g.n == n
                    &&& directed ==> is_directed_build(g@, n, edges@)
                    &&& !directed ==> is_undirected_build(g@, n, edges@) && symmetric(g@)
                },
                Err(BuildError::VertexOutOfRange { position }) => {
                    &&& position < edges@.len()
                    &&& edges@[position as int].0 >= n || edges@[position as int].1 >= n
                    &&& endpoints_below(edges@.subrange(0, position as int), n)
                },
            },
    {
        let mut k: usize = 0;
        while k < edges.len()
            invariant
                k <= edges@.len(),
                endpoints_below(edges@.subrange(0, k as int), n),
            decreases edges@.len() - k,
        {
            let (u, v) = edges[k];
            if u >= n || v >= n {
                return Err(BuildError::VertexOutOfRange { position: k });
            }
            proof {
                let next = edges@.subrange(0, k + 1);
                assert forall|i: int| 0 <= i < next.len() implies (#[trigger] next[i]).0 < n && next[i].1 < n by {
                    if i < k {
                        assert(edges@.subrange(0, k as int)[i] == next[i]);
                    }
                }
            }
            k += 1;
        }
        assert(edges@.subrange(0, k as int) =~= edges@);
        if directed {
            Ok(Self::create_directed(n, edges))
        } else {
            Ok(Self::create_undirected(n, edges))
        }
    }
}

} // verus!
