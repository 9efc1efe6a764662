//! The integer aggregates of distance vectors: the total and the greatest
//! distance from one source, their reciprocals as exact fractions, and the
//! sums over all sources.

use vstd::prelude::*;
use crate::bfs::{bfs_distances, is_distance_vector, lemma_distance_vector_unique};
use crate::graph::Graph;

verus! {

/// The sum of the distances that `dist` holds; a vertex without a distance
/// adds nothing.
pub open spec fn sum_reached(dist: Seq<Option<u32>>) -> nat
    decreases dist.len(),
{
    if dist.len() == 0 {
        0
    } else {
        sum_reached(dist.drop_last()) + match dist.last() {
            Some(d) => d as nat,
            None => 0,
        }
    }
}

/// The greatest distance that `dist` holds, 0 where it holds none.
pub open spec fn max_reached(dist: Seq<Option<u32>>) -> nat
    decreases dist.len(),
{
    if dist.len() == 0 {
        0
    } else {
        let rest = max_reached(dist.drop_last());
        match dist.last() {
            Some(d) => if rest < d { d as nat } else { rest },
            None => rest,
        }
    }
}

/// The sum of the entries of `totals`.
pub open spec fn sum_all(totals: Seq<u64>) -> nat
    decreases totals.len(),
{
    if totals.len() == 0 {
        0
    } else {
        sum_all(totals.drop_last()) + totals.last() as nat
    }
}

/// The greatest distance is at least every distance held, and is itself held
/// unless it is 0.
pub proof fn lemma_max_reached_is_greatest(dist: Seq<Option<u32>>)
    ensures
        forall|i: int| 0 <= i < dist.len() && (#[trigger] dist[i]) is Some ==> dist[i]->0 <= max_reached(dist),
        max_reached(dist) == 0 || exists|i: int| 0 <= i < dist.len() && #[trigger] dist[i] == Some(max_reached(dist) as u32),
    decreases dist.len(),
{
    if dist.len() > 0 {
        let rest = dist.drop_last();
        lemma_max_reached_is_greatest(rest);
        assert forall|i: int| 0 <= i < dist.len() && (#[trigger] dist[i]) is Some implies dist[i]->0 <= max_reached(
            dist,
        ) by {
            if i < rest.len() {
                assert(rest[i] is Some);
            }
        }
        let m = max_reached(dist);
        if m != 0 {
            if m == max_reached(rest) {
                let i = choose|i: int| 0 <= i < rest.len() && #[trigger] rest[i] == Some(max_reached(rest) as u32);
                assert(dist[i] == Some(m as u32));
            } else {
                assert(dist[dist.len() - 1] == Some(m as u32));
            }
        }
    }
}

/// The reciprocal of a count, kept exact: `Of(d)` stands for `1/d`, and
/// `Undefined` for the reciprocal of 0, which a vertex that reaches nothing
/// but itself has for its eccentricity and its closeness.
#[derive(Debug, Clone, Copy, PartialEq, Eq, Structural)]
pub enum Inverse {
    Undefined,
    Of(u64),
}

/// The reciprocal of `x`.
pub open spec fn inverse_of(x: nat) -> Inverse {
    if x == 0 {
        Inverse::Undefined
    } else {
        Inverse::Of(x as u64)
    }
}

/// What one distance vector amounts to: the total of its distances and the
/// greatest of them.
#[derive(Debug, Clone, Copy, PartialEq, Eq, Structural)]
pub struct VertexMetrics {
    pub total_distance: u64,
    pub max_distance: u32,
}

impl VertexMetrics {
    /// The metrics are those of `dist`.
    pub open spec fn describes(&self, dist: Seq<Option<u32>>) -> bool {
        self.total_distance == sum_reached(dist) && self.max_distance == max_reached(dist)
    }

    /// The eccentricity: the reciprocal of the greatest distance.
    pub fn eccentricity(&self) -> (r: Inverse)
        ensures
            r == inverse_of(self.max_distance as nat),
    {
        if self.max_distance == 0 {
            Inverse::Undefined
        } else {
            Inverse::Of(self.max_distance as u64)
        }
    }

    /// The closeness: the reciprocal of the total distance.
    pub fn closeness(&self) -> (r: Inverse)
        ensures
            r == inverse_of(self.total_distance as nat),
    {
        if self.total_distance == 0 {
            Inverse::Undefined
        } else {
            Inverse::Of(self.total_distance)
        }
    }
}

/// The sum of the distances in `dist`, vertices without a distance left out.
/// A vector of at most `u32::MAX` distances has a total that fits.
pub fn total_distance(dist: &Vec<Option<u32>>) -> (total: u64)
    requires
        dist@.len() <= u32::MAX,
    ensures
        total == sum_reached(dist@),
{
    let mut total: u64 = 0;
    let mut i: usize = 0;
    while i < dist.len()
        invariant
            i <= dist@.len(),
            dist@.len() <= u32::MAX,
            total == sum_reached(dist@.subrange(0, i as int)),
            total <= i * 0xffff_ffff,
        decreases dist@.len() - i,
    {
        proof {
            assert(dist@.subrange(0, i + 1).drop_last() =~= dist@.subrange(0, i as int));
            assert(i * 0xffff_ffff + 0xffff_ffff == (i + 1) * 0xffff_ffff) by (nonlinear_arith);
            assert(i * 0xffff_ffff <= 0xffff_ffff * 0xffff_ffff) by (nonlinear_arith)
                requires
                    i <= 0xffff_ffff,
            ;
        }
        match dist[i] {
            Some(d) => {
                total = total + d as u64;
            },
            None => {},
        }
        i += 1;
    }
    assert(dist@.subrange(0, i as int) =~= dist@);
    total
}

/// The greatest distance in `dist`, 0 where no vertex has one.
pub fn max_distance(dist: &Vec<Option<u32>>) -> (greatest: u32)
    ensures
        greatest == max_reached(dist@),
{
    let mut greatest: u32 = 0;
    let mut i: usize = 0;
    while i < dist.len()
        invariant
            i <= dist@.len(),
            greatest == max_reached(dist@.subrange(0, i as int)),
        decreases dist@.len() - i,
    {
        proof {
            assert(dist@.subrange(0, i + 1).drop_last() =~= dist@.subrange(0, i as int));
        }
        match dist[i] {
            Some(d) => {
                if greatest < d {
                    greatest = d;
                }
            },
            None => {},
        }
        i += 1;
    }
    assert(dist@.subrange(0, i as int) =~= dist@);
    greatest
}

/// `m` holds the total and the greatest of the shortest distances from `s`.
pub open spec fn is_metrics_from(adj: Seq<Seq<usize>>, s: usize, m: VertexMetrics) -> bool {
    exists|dist: Seq<Option<u32>>| #[trigger] is_distance_vector(adj, s, dist) && m.describes(dist)
}

/// The metrics from a source are those of every distance vector from it.
pub proof fn lemma_metrics_describe(adj: Seq<Seq<usize>>, s: usize, m: VertexMetrics, dist: Seq<Option<u32>>)
    requires
        adj.len() <= usize::MAX,
        is_metrics_from(adj, s, m),
        is_distance_vector(adj, s, dist),
    ensures
        m.describes(dist),
{
    let other = choose|other: Seq<Option<u32>>| #[trigger] is_distance_vector(adj, s, other) && m.describes(other);
    lemma_distance_vector_unique(adj, s, other, dist);
}

/// The total and the greatest distance from `start` to the vertices that it
/// reaches.
pub fn compute_distance_bfs(start: usize, graph: &Graph) -> (m: VertexMetrics)
    requires
        graph.wf(),
        start < graph.n,
        graph.n <= u32::MAX,
    ensures
        is_metrics_from(graph@, start, m),
{
    let distance = bfs_distances(start, graph);
    VertexMetrics { total_distance: total_distance(&distance), max_distance: max_distance(&distance) }
}

/// The metrics of every vertex of `graph`, one breadth-first run for each.
pub fn all_vertex_metrics(graph: &Graph) -> (all: Vec<VertexMetrics>)
    requires
        graph.wf(),
        graph.n <= u32::MAX,
    ensures
        all@.len() == graph.n,
        forall|v: usize| v < graph.n ==> is_metrics_from(graph@, v, #[trigger] all@[v as int]),
{
    let mut all: Vec<VertexMetrics> = Vec::new();
    let mut v: usize = 0;
    while v < graph.n
        invariant
            graph.wf(),
            graph.n <= u32::MAX,
            v <= graph.n,
            all@.len() == v,
            forall|u: usize| u < v ==> is_metrics_from(graph@, u, #[trigger] all@[u as int]),
        decreases graph.n - v,
    {
        let m = compute_distance_bfs(v, graph);
        all.push(m);
        v += 1;
    }
    all
}

/// The sum of the total distances of all vertices: every ordered pair of
/// vertices of which the first reaches the second counted once.
pub fn sum_of_totals(all: &Vec<VertexMetrics>) -> (sum: u128)
    ensures
        sum == sum_all(all@.map_values(|m: VertexMetrics| m.total_distance)),
{
    let ghost totals = all@.map_values(|m: VertexMetrics| m.total_distance);
    let mut sum: u128 = 0;
    let mut i: usize = 0;
    while i < all.len()
        invariant
            i <= all@.len(),
            totals == all@.map_values(|m: VertexMetrics| m.total_distance),
            sum == sum_all(totals.subrange(0, i as int)),
            sum <= i * 0xffff_ffff_ffff_ffff,
        decreases all@.len() - i,
    {
        proof {
            assert(totals.subrange(0, i + 1).drop_last() =~= totals.subrange(0, i as int));
            assert(totals.subrange(0, i + 1).last() == all@[i as int].total_distance);
            assert(i * 0xffff_ffff_ffff_ffff + 0xffff_ffff_ffff_ffff == (i + 1) * 0xffff_ffff_ffff_ffff)
                by (nonlinear_arith);
            assert(i * 0xffff_ffff_ffff_ffff <= 0xffff_ffff_ffff_ffff * 0xffff_ffff_ffff_ffff)
                by (nonlinear_arith)
                requires
                    i <= 0xffff_ffff_ffff_ffff,
            ;
        }
        sum = sum + all[i].total_distance as u128;
        i += 1;
    }
    assert(totals.subrange(0, i as int) =~= totals);
    sum
}

/// The number of ordered pairs of distinct vertices among `n`: what the sum
/// of all totals is divided by for the average distance.
pub fn ordered_pairs(n: usize) -> (pairs: u128)
    ensures
        n == 0 ==> pairs == 0,
        n > 0 ==> pairs == n * (n - 1),
{
    if n == 0 {
        0
    } else {
        assert(n * (n - 1) <= 0xffff_ffff_ffff_ffff * 0xffff_ffff_ffff_ffff) by (nonlinear_arith)
            requires
                0 < n <= 0xffff_ffff_ffff_ffff,
        ;
        (n as u128) * ((n - 1) as u128)
    }
}

} // verus!
