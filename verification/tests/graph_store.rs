use graph_metrics::graph::{reverse_edges, BuildError, Graph};

#[test]
fn reverse_edges_swaps_each_pair() {
    let edges = vec![(0, 1), (2, 3), (4, 4)];
    assert_eq!(reverse_edges(&edges), vec![(1, 0), (3, 2), (4, 4)]);
    assert_eq!(reverse_edges(&Vec::new()), Vec::<(usize, usize)>::new());
}

#[test]
fn directed_build_lists_destinations_in_ascending_order() {
    let edges = vec![(0, 3), (0, 1), (2, 0), (0, 2)];
    let g = Graph::create_directed(4, &edges);
    assert_eq!(g.n, 4);
    assert_eq!(g.outedges, vec![vec![1, 2, 3], vec![], vec![0], vec![]]);
}

#[test]
fn undirected_build_lists_both_directions() {
    let edges = vec![(3, 0), (1, 0), (2, 1)];
    let g = Graph::create_undirected(4, &edges);
    assert_eq!(g.outedges, vec![vec![1, 3], vec![0, 2], vec![1], vec![0]]);
}

#[test]
fn parallel_edges_are_kept() {
    let edges = vec![(0, 1), (0, 1), (1, 0)];
    let g = Graph::create_undirected(2, &edges);
    assert_eq!(g.outedges, vec![vec![1, 1, 1], vec![0, 0, 0]]);
    let d = Graph::create_directed(2, &edges);
    assert_eq!(d.outedges, vec![vec![1, 1], vec![0]]);
}

#[test]
fn self_loop_counts_twice_when_undirected() {
    let g = Graph::create_undirected(1, &vec![(0, 0)]);
    assert_eq!(g.outedges, vec![vec![0, 0]]);
}

#[test]
fn add_directed_edges_appends_in_list_order() {
    let mut g = Graph::create_directed(3, &vec![(0, 1)]);
    g.add_directed_edges(&vec![(0, 2), (0, 0), (2, 1)]);
    assert_eq!(g.outedges, vec![vec![1, 2, 0], vec![], vec![1]]);
    g.sort_graph_lists();
    assert_eq!(g.outedges, vec![vec![0, 1, 2], vec![], vec![1]]);
}

#[test]
fn neighbours_are_symmetric_in_an_undirected_graph() {
    let edges = vec![(0, 4), (4, 2), (1, 3), (3, 3), (2, 0)];
    let g = Graph::create_undirected(5, &edges);
    for u in 0..5 {
        for v in 0..5 {
            assert_eq!(g.outedges[u].contains(&v), g.outedges[v].contains(&u));
        }
    }
}

#[test]
fn build_chooses_the_direction() {
    let edges = vec![(0, 1), (1, 2)];
    let d = Graph::build(3, &edges, true).unwrap();
    assert_eq!(d.outedges, vec![vec![1], vec![2], vec![]]);
    let u = Graph::build(3, &edges, false).unwrap();
    assert_eq!(u.outedges, vec![vec![1], vec![0, 2], vec![1]]);
}

#[test]
fn build_refuses_the_first_edge_out_of_range() {
    let edges = vec![(0, 1), (1, 3), (7, 0)];
    let r = Graph::build(3, &edges, false);
    assert_eq!(r.err(), Some(BuildError::VertexOutOfRange { position: 1 }));
    let r = Graph::build(3, &vec![(3, 0)], true);
    assert_eq!(r.err(), Some(BuildError::VertexOutOfRange { position: 0 }));
    let r = Graph::build(0, &vec![(0, 0)], true);
    assert_eq!(r.err(), Some(BuildError::VertexOutOfRange { position: 0 }));
}

#[test]
fn build_of_no_edges_has_empty_lists() {
    let g = Graph::build(2, &Vec::new(), false).unwrap();
    assert_eq!(g.n, 2);
    assert_eq!(g.outedges, vec![Vec::<usize>::new(), Vec::new()]);
    let e = Graph::build(0, &Vec::new(), true).unwrap();
    assert_eq!(e.n, 0);
    assert!(e.outedges.is_empty());
}
