use scicomp::weighted::Graph;

fn sample() -> Graph {
    let mut g = Graph::new();
    g.add_edge(1, 2, 7);
    g.add_edge(1, 3, 9);
    g.add_edge(1, 6, 14);
    g.add_edge(2, 3, 10);
    g.add_edge(2, 4, 15);
    g.add_edge(3, 4, 11);
    g.add_edge(3, 6, 2);
    g.add_edge(4, 5, 6);
    g.add_edge(5, 6, 9);
    g
}

#[test]
fn shortest_path_in_the_classic_example() {
    let g = sample();
    let (d, path) = g.shortest_path(1, 5).unwrap();
    assert_eq!(d, 20);
    assert_eq!(path, vec![1, 3, 6, 5]);
    let (d, path) = g.shortest_path(1, 4).unwrap();
    assert_eq!(d, 20);
    assert_eq!(path, vec![1, 3, 4]);
}

#[test]
fn shortest_path_to_itself_and_to_unknown_vertices() {
    let g = sample();
    assert_eq!(g.shortest_path(2, 2), Some((0, vec![2])));
    assert_eq!(g.shortest_path(1, 42), None);
    assert_eq!(g.shortest_path(42, 1), None);
}

#[test]
fn no_path_between_components() {
    let mut g = sample();
    g.add_edge(10, 11, 1);
    assert_eq!(g.shortest_path(1, 11), None);
    assert_eq!(g.shortest_path(10, 11), Some((1, vec![10, 11])));
}

#[test]
fn mst_weight_of_the_classic_example() {
    let g = sample();
    // 3-6 (2), 4-5 (6), 1-2 (7), 1-3 (9), 5-6 (9): total 33
    assert_eq!(g.mst_weight(), 33);
}

#[test]
fn mst_weight_of_small_graphs() {
    let g = Graph::new();
    assert_eq!(g.mst_weight(), 0);
    let mut g = Graph::new();
    g.add_edge(1, 2, 5);
    g.add_edge(1, 2, 3);
    g.add_edge(2, 3, 4);
    g.add_edge(1, 3, 10);
    assert_eq!(g.mst_weight(), 7);
}

#[test]
fn zero_weight_edges() {
    let mut g = Graph::new();
    g.add_edge(1, 2, 0);
    g.add_edge(2, 3, 0);
    g.add_edge(1, 3, 1);
    assert_eq!(g.shortest_path(1, 3), Some((0, vec![1, 2, 3])));
    assert_eq!(g.mst_weight(), 0);
}

#[test]
fn graph_text_with_weights_is_read() {
    let text = "1 2 7\n1 3 9\n1 6 14\n2 3 10\n2 4 15\n3 4 11\n3 6 2\n4 5 6\n5 6 9\nskip this\n1 2\n";
    let g = Graph::read_graph_text(text).unwrap();
    assert_eq!(g.mst_weight(), 33);
    let (d, path) = g.shortest_path(1, 5).unwrap();
    assert_eq!(d, 20);
    assert_eq!(path, vec![1, 3, 6, 5]);
}

#[test]
fn graph_text_with_a_bad_weight() {
    let e = Graph::read_graph_text("1 2 7\n1 3 x\n").unwrap_err();
    assert_eq!(e.token, "x");
    let e = Graph::read_graph_text("1 4294967296 1\n").unwrap_err();
    assert_eq!(e.token, "4294967296");
}

#[test]
fn mst_weight_ignores_an_unused_heavy_edge() {
    let mut g = Graph::new();
    g.add_edge(1, 2, 1);
    g.add_edge(2, 3, 1);
    g.add_edge(1, 3, 1 << 31);
    assert_eq!(g.mst_weight(), 2);
    assert_eq!(g.checked_mst_weight(), Some(2));
}

#[test]
fn mst_weight_overflow_is_reported() {
    let mut g = Graph::new();
    g.add_edge(1, 2, 1 << 31);
    g.add_edge(2, 3, 1 << 31);
    assert_eq!(g.checked_mst_weight(), None);
}

#[test]
fn shortest_path_with_zero_weights_repeats_no_vertex() {
    let mut g = Graph::new();
    g.add_edge(1, 2, 0);
    g.add_edge(2, 3, 0);
    g.add_edge(3, 1, 0);
    g.add_edge(3, 4, 0);
    let (d, p) = g.shortest_path(1, 4).unwrap();
    assert_eq!(d, 0);
    let mut seen = p.clone();
    seen.sort();
    seen.dedup();
    assert_eq!(seen.len(), p.len());
    assert_eq!(p[0], 1);
    assert_eq!(*p.last().unwrap(), 4);
}

#[test]
fn equal_cost_paths_are_broken_by_the_lowest_vertex() {
    let mut g = Graph::new();
    g.add_edge(1, 2, 1);
    g.add_edge(1, 3, 1);
    g.add_edge(2, 4, 1);
    g.add_edge(3, 4, 1);
    assert_eq!(g.shortest_path(1, 4), Some((2, vec![1, 2, 4])));
    let mut h = Graph::new();
    h.add_edge(3, 4, 1);
    h.add_edge(1, 3, 1);
    h.add_edge(2, 4, 1);
    h.add_edge(1, 2, 1);
    assert_eq!(h.shortest_path(1, 4), Some((2, vec![1, 2, 4])));
}
