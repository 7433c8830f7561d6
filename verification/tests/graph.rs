use scicomp::graph::{Graph, GraphFault};

fn graph_from_edges(n: usize, edges: &[(usize, usize)]) -> Graph {
    let mut adj_list = vec![vec![]; n + 1];
    for &(u, v) in edges {
        adj_list[u].push(v);
        adj_list[v].push(u);
    }
    Graph { n, adj_list }
}

#[test]
fn bfs_depth_of_a_path() {
    let g = graph_from_edges(5, &[(1, 2), (2, 3), (3, 4), (4, 5)]);
    assert_eq!(g.bfs_depth(1), 4);
    assert_eq!(g.bfs_depth(3), 2);
    assert_eq!(g.bfs_depth(5), 4);
}

#[test]
fn bfs_depth_of_a_star_and_isolated_vertex() {
    let g = graph_from_edges(6, &[(1, 2), (1, 3), (1, 4), (1, 5)]);
    assert_eq!(g.bfs_depth(1), 1);
    assert_eq!(g.bfs_depth(2), 2);
    assert_eq!(g.bfs_depth(6), 0);
}

#[test]
fn bfs_depth_out_of_range_start() {
    let g = graph_from_edges(3, &[(1, 2), (2, 3)]);
    assert_eq!(g.bfs_depth(0), 0);
    assert_eq!(g.bfs_depth(4), 0);
}

#[test]
fn bfs_depth_of_a_cycle() {
    let g = graph_from_edges(6, &[(1, 2), (2, 3), (3, 4), (4, 5), (5, 6), (6, 1)]);
    assert_eq!(g.bfs_depth(1), 3);
}

#[test]
fn connected_components_counts() {
    let g = graph_from_edges(7, &[(1, 2), (2, 3), (4, 5)]);
    assert_eq!(g.connected_components(), 4);
    let empty = graph_from_edges(0, &[]);
    assert_eq!(empty.connected_components(), 0);
    let one = graph_from_edges(4, &[(1, 2), (2, 3), (3, 4)]);
    assert_eq!(one.connected_components(), 1);
}

#[test]
fn components_through_vertex_zero() {
    // vertex 0 is never a start, but the scan may pass through it
    let g = graph_from_edges(3, &[(1, 0), (0, 3)]);
    assert_eq!(g.connected_components(), 2);
}

#[test]
fn graph_text_is_read_both_ways() {
    let g = Graph::from_text("4 3\n1 2 7\n2 3 1\nskipped line\n3 4 2\n").unwrap();
    assert_eq!(g.n, 4);
    assert_eq!(g.adj_list, vec![vec![], vec![2], vec![1, 3], vec![2, 4], vec![3]]);
    assert_eq!(g.bfs_depth(1), 3);
    assert_eq!(g.connected_components(), 1);
}

#[test]
fn graph_text_faults() {
    assert_eq!(Graph::from_text("").unwrap_err().fault, GraphFault::MissingHeader);
    assert_eq!(Graph::from_text("5\n").unwrap_err().fault, GraphFault::MissingHeader);
    let e = Graph::from_text("x 2\n").unwrap_err();
    assert_eq!(e.fault, GraphFault::BadNumber);
    assert_eq!(e.token, "x");
    let e = Graph::from_text("3 1\n1 9 1\n").unwrap_err();
    assert_eq!(e.fault, GraphFault::VertexOutOfRange);
    assert_eq!(e.token, "9");
    let e = Graph::from_text("3 1\n1 -2 1\n").unwrap_err();
    assert_eq!(e.fault, GraphFault::BadNumber);
    assert_eq!(e.token, "-2");
}

#[test]
fn an_added_edge_merges_two_components() {
    let mut g = Graph { n: 4, adj_list: vec![vec![], vec![2], vec![1], vec![], vec![]] };
    assert_eq!(g.connected_components(), 3);
    g.adj_list[3].push(4);
    g.adj_list[4].push(3);
    assert_eq!(g.connected_components(), 2);
    g.adj_list[2].push(3);
    g.adj_list[3].push(2);
    assert_eq!(g.connected_components(), 1);
    g.adj_list[1].push(4);
    g.adj_list[4].push(1);
    assert_eq!(g.connected_components(), 1);
}

#[test]
fn out_of_range_start_and_empty_graph_read_no_list() {
    let g = Graph { n: 2, adj_list: vec![] };
    assert_eq!(g.bfs_depth(0), 0);
    assert_eq!(g.bfs_depth(3), 0);
    let e = Graph { n: 0, adj_list: vec![] };
    assert_eq!(e.connected_components(), 0);
}
