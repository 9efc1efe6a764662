use graph_metrics::bfs::bfs_distances;
use graph_metrics::graph::Graph;
use graph_metrics::metrics::{
    all_vertex_metrics, compute_distance_bfs, max_distance, ordered_pairs, sum_of_totals, total_distance,
    Inverse, VertexMetrics,
};

fn star() -> Graph {
    Graph::create_undirected(5, &vec![(0, 1), (0, 2), (0, 3), (0, 4)])
}

#[test]
fn totals_leave_out_unreached_vertices() {
    assert_eq!(total_distance(&vec![Some(0), None, Some(3), Some(4), None]), 7);
    assert_eq!(total_distance(&vec![None, None]), 0);
    assert_eq!(total_distance(&Vec::new()), 0);
}

#[test]
fn totals_do_not_overflow_thirty_two_bits() {
    assert_eq!(total_distance(&vec![Some(u32::MAX), Some(u32::MAX), Some(2)]), 8_589_934_592);
}

#[test]
fn greatest_distance_of_a_vector() {
    assert_eq!(max_distance(&vec![Some(0), None, Some(3), Some(1)]), 3);
    assert_eq!(max_distance(&vec![Some(5), Some(2)]), 5);
    assert_eq!(max_distance(&vec![None, Some(0)]), 0);
    assert_eq!(max_distance(&Vec::new()), 0);
}

#[test]
fn star_metrics() {
    let g = star();
    assert_eq!(compute_distance_bfs(0, &g), VertexMetrics { total_distance: 4, max_distance: 1 });
    assert_eq!(compute_distance_bfs(1, &g), VertexMetrics { total_distance: 7, max_distance: 2 });
    assert_eq!(compute_distance_bfs(0, &g).eccentricity(), Inverse::Of(1));
    assert_eq!(compute_distance_bfs(3, &g).eccentricity(), Inverse::Of(2));
    assert_eq!(compute_distance_bfs(3, &g).closeness(), Inverse::Of(7));
}

#[test]
fn isolated_vertex_has_no_eccentricity() {
    let g = Graph::create_undirected(3, &vec![(0, 1)]);
    let m = compute_distance_bfs(2, &g);
    assert_eq!(m, VertexMetrics { total_distance: 0, max_distance: 0 });
    assert_eq!(m.eccentricity(), Inverse::Undefined);
    assert_eq!(m.closeness(), Inverse::Undefined);
    assert_eq!(compute_distance_bfs(0, &g).eccentricity(), Inverse::Of(1));
}

#[test]
fn metrics_agree_with_the_distance_vector() {
    let g = Graph::create_undirected(6, &vec![(0, 1), (1, 2), (2, 3), (3, 4), (0, 3)]);
    for v in 0..6 {
        let dist = bfs_distances(v, &g);
        let m = compute_distance_bfs(v, &g);
        assert_eq!(m.total_distance, total_distance(&dist));
        assert_eq!(m.max_distance, max_distance(&dist));
    }
}

#[test]
fn sweep_over_the_star() {
    let all = all_vertex_metrics(&star());
    assert_eq!(all.len(), 5);
    assert_eq!(all[0], VertexMetrics { total_distance: 4, max_distance: 1 });
    for v in 1..5 {
        assert_eq!(all[v], VertexMetrics { total_distance: 7, max_distance: 2 });
    }
    assert_eq!(sum_of_totals(&all), 32);
}

#[test]
fn sum_of_totals_is_wider_than_a_total() {
    let big = VertexMetrics { total_distance: u64::MAX, max_distance: 1 };
    assert_eq!(sum_of_totals(&vec![big, big]), 36_893_488_147_419_103_230);
    assert_eq!(sum_of_totals(&Vec::new()), 0);
}

#[test]
fn number_of_ordered_pairs() {
    assert_eq!(ordered_pairs(0), 0);
    assert_eq!(ordered_pairs(1), 0);
    assert_eq!(ordered_pairs(5), 20);
    assert_eq!(ordered_pairs(4039), 16_309_482);
}
