use graph_metrics::bfs::bfs_distances;
use graph_metrics::components::{mark_component_bfs, mark_component_dfs};
use graph_metrics::graph::Graph;
use graph_metrics::partition::{partition, Strategy};

fn star() -> Graph {
    Graph::create_undirected(5, &vec![(0, 1), (0, 2), (0, 3), (0, 4)])
}

fn chain(n: usize) -> Graph {
    let mut edges = Vec::new();
    for i in 1..n {
        edges.push((i - 1, i));
    }
    Graph::create_undirected(n, &edges)
}

#[test]
fn star_distances_from_the_centre() {
    assert_eq!(bfs_distances(0, &star()), vec![Some(0), Some(1), Some(1), Some(1), Some(1)]);
}

#[test]
fn star_distances_from_a_leaf() {
    assert_eq!(bfs_distances(1, &star()), vec![Some(1), Some(0), Some(2), Some(2), Some(2)]);
}

#[test]
fn star_is_one_component() {
    let (count, labels) = partition(&star(), Strategy::BreadthFirst);
    assert_eq!(count, 1);
    assert_eq!(labels, vec![Some(1); 5]);
    let (count, labels) = partition(&star(), Strategy::DepthFirst);
    assert_eq!(count, 1);
    assert_eq!(labels, vec![Some(1); 5]);
}

#[test]
fn two_disjoint_edges_are_two_components() {
    let g = Graph::create_undirected(4, &vec![(0, 1), (2, 3)]);
    for strategy in [Strategy::BreadthFirst, Strategy::DepthFirst] {
        let (count, labels) = partition(&g, strategy);
        assert_eq!(count, 2);
        assert_eq!(labels[0], labels[1]);
        assert_eq!(labels[2], labels[3]);
        assert_ne!(labels[0], labels[2]);
        assert_eq!(labels, vec![Some(1), Some(1), Some(2), Some(2)]);
    }
}

#[test]
fn isolated_vertex_reaches_only_itself() {
    let g = Graph::create_undirected(3, &vec![(0, 1)]);
    assert_eq!(bfs_distances(2, &g), vec![None, None, Some(0)]);
    assert_eq!(bfs_distances(0, &g), vec![Some(0), Some(1), None]);
}

#[test]
fn distances_take_the_shorter_way_round_a_cycle() {
    let g = Graph::create_undirected(6, &vec![(0, 1), (1, 2), (2, 3), (3, 4), (4, 5), (5, 0)]);
    assert_eq!(bfs_distances(0, &g), vec![Some(0), Some(1), Some(2), Some(3), Some(2), Some(1)]);
}

#[test]
fn distances_follow_the_direction_of_edges() {
    let g = Graph::create_directed(4, &vec![(0, 1), (1, 2), (3, 0)]);
    assert_eq!(bfs_distances(0, &g), vec![Some(0), Some(1), Some(2), None]);
    assert_eq!(bfs_distances(3, &g), vec![Some(1), Some(2), Some(3), Some(0)]);
    assert_eq!(bfs_distances(2, &g), vec![None, None, Some(0), None]);
}

#[test]
fn distances_with_a_shortcut() {
    let g = Graph::create_undirected(5, &vec![(0, 1), (1, 2), (2, 3), (3, 4), (0, 3)]);
    assert_eq!(bfs_distances(0, &g), vec![Some(0), Some(1), Some(2), Some(1), Some(2)]);
}

#[test]
fn distances_on_a_single_vertex() {
    let g = Graph::create_undirected(1, &Vec::new());
    assert_eq!(bfs_distances(0, &g), vec![Some(0)]);
}

#[test]
fn distances_along_a_chain() {
    let g = chain(1000);
    let dist = bfs_distances(0, &g);
    for v in 0..1000 {
        assert_eq!(dist[v], Some(v as u32));
    }
    let mid = bfs_distances(500, &g);
    assert_eq!(mid[0], Some(500));
    assert_eq!(mid[999], Some(499));
}

#[test]
fn repeated_runs_give_the_same_result() {
    let g = Graph::create_undirected(7, &vec![(0, 1), (1, 2), (4, 5), (5, 6), (6, 4), (2, 0)]);
    for v in 0..7 {
        assert_eq!(bfs_distances(v, &g), bfs_distances(v, &g));
    }
    assert_eq!(partition(&g, Strategy::BreadthFirst), partition(&g, Strategy::BreadthFirst));
    assert_eq!(partition(&g, Strategy::DepthFirst), partition(&g, Strategy::DepthFirst));
}

#[test]
fn marking_reaches_what_distances_reach() {
    let g = Graph::create_directed(7, &vec![(0, 1), (1, 2), (2, 0), (3, 4), (4, 5), (6, 3), (2, 5)]);
    for v in 0..7 {
        let dist = bfs_distances(v, &g);
        let mut by_bfs = vec![None; 7];
        mark_component_bfs(v, &g, &mut by_bfs, 9);
        let mut by_dfs = vec![None; 7];
        mark_component_dfs(v, &g, &mut by_dfs, 9);
        assert_eq!(by_bfs, by_dfs);
        for t in 0..7 {
            assert_eq!(dist[t].is_some(), by_dfs[t] == Some(9));
            assert_eq!(dist[t].is_none(), by_dfs[t].is_none());
        }
    }
}

#[test]
fn marking_stops_at_labelled_vertices() {
    let g = chain(5);
    let mut labels = vec![None, None, Some(7), None, None];
    mark_component_bfs(0, &g, &mut labels, 1);
    assert_eq!(labels, vec![Some(1), Some(1), Some(7), None, None]);
    let mut labels = vec![None, None, Some(7), None, None];
    mark_component_dfs(4, &g, &mut labels, 2);
    assert_eq!(labels, vec![None, None, Some(7), Some(2), Some(2)]);
}

#[test]
fn marking_relabels_its_source() {
    let g = chain(3);
    let mut labels = vec![None, Some(5), None];
    mark_component_dfs(1, &g, &mut labels, 6);
    assert_eq!(labels, vec![Some(6), Some(6), Some(6)]);
    let mut labels = vec![Some(4), Some(5), None];
    mark_component_bfs(1, &g, &mut labels, 6);
    assert_eq!(labels, vec![Some(4), Some(6), Some(6)]);
}

#[test]
fn both_strategies_give_the_same_partition() {
    let g = Graph::create_undirected(
        10,
        &vec![(9, 1), (1, 5), (2, 3), (3, 7), (7, 2), (0, 8), (4, 4)],
    );
    let (a, by_bfs) = partition(&g, Strategy::BreadthFirst);
    let (b, by_dfs) = partition(&g, Strategy::DepthFirst);
    assert_eq!(a, 5);
    assert_eq!(a, b);
    assert_eq!(by_bfs, by_dfs);
    assert_eq!(
        by_bfs,
        vec![Some(1), Some(2), Some(3), Some(3), Some(4), Some(2), Some(5), Some(3), Some(1), Some(2)]
    );
}

#[test]
fn partition_of_a_directed_graph_goes_by_the_first_vertex_that_reaches() {
    let g = Graph::create_directed(2, &vec![(1, 0)]);
    assert_eq!(partition(&g, Strategy::BreadthFirst), (2, vec![Some(1), Some(2)]));
    assert_eq!(partition(&g, Strategy::DepthFirst), (2, vec![Some(1), Some(2)]));
    let h = Graph::create_directed(2, &vec![(0, 1)]);
    assert_eq!(partition(&h, Strategy::BreadthFirst), (1, vec![Some(1), Some(1)]));
    assert_eq!(partition(&h, Strategy::DepthFirst), (1, vec![Some(1), Some(1)]));
}

#[test]
fn partition_of_the_empty_graph() {
    let g = Graph::create_undirected(0, &Vec::new());
    assert_eq!(partition(&g, Strategy::BreadthFirst), (0, Vec::new()));
    assert_eq!(partition(&g, Strategy::DepthFirst), (0, Vec::new()));
}

#[test]
fn every_isolated_vertex_is_a_component() {
    let g = Graph::create_undirected(4, &Vec::new());
    assert_eq!(partition(&g, Strategy::DepthFirst), (4, vec![Some(1), Some(2), Some(3), Some(4)]));
}

#[test]
fn depth_first_marking_of_a_long_chain() {
    let n = 200_000;
    let g = chain(n);
    let mut labels = vec![None; n];
    mark_component_dfs(0, &g, &mut labels, 1);
    assert!(labels.iter().all(|l| *l == Some(1)));
    let (count, _) = partition(&g, Strategy::DepthFirst);
    assert_eq!(count, 1);
}
