use graph_kit::graph::Graph;

#[test]
fn test_euler() {
    let mut graph = Graph::new(3, 4);
    graph.add_edge(0, 1);
    graph.add_edge(1, 0);
    graph.add_edge(1, 2);
    graph.add_edge(2, 1);
    assert_eq!(graph.euler_path(0), vec![0, 2, 3, 1]);
}

#[test]
fn test_min_spanning_tree() {
    let mut graph = Graph::new(3, 3);
    graph.add_undirected_edge(0, 1);
    graph.add_undirected_edge(1, 2);
    graph.add_undirected_edge(2, 0);
    let weights = [7, 3, 5];
    assert_eq!(graph.min_spanning_tree(&weights), vec![1, 2]);
}

#[test]
fn test_euler_cycle_uses_every_edge_once() {
    // Directed triangle: an Euler path from 0 must use each edge exactly
    // once and chain the destinations together.
    let mut graph = Graph::new(3, 3);
    graph.add_edge(0, 1);
    graph.add_edge(1, 2);
    graph.add_edge(2, 0);
    let path = graph.euler_path(0);
    assert_eq!(path, vec![0, 1, 2]);
}

#[test]
fn test_euler_edge_use_property() {
    // A larger Eulerian graph: check every edge index appears exactly once
    // and consecutive edges are chain-connected, starting at vertex 0.
    let ends = [(0, 1), (1, 0), (1, 2), (2, 1), (0, 2), (2, 0)];
    let mut graph = Graph::new(3, ends.len());
    for &(u, v) in ends.iter() {
        graph.add_edge(u, v);
    }
    let path = graph.euler_path(0);
    assert_eq!(path.len(), ends.len());
    let mut used = vec![false; ends.len()];
    for &e in path.iter() {
        assert!(e < ends.len());
        assert!(!used[e]);
        used[e] = true;
    }
    assert!(used.iter().all(|&b| b));
    assert_eq!(ends[path[0]].0, 0);
    for w in path.windows(2) {
        assert_eq!(ends[w[0]].1, ends[w[1]].0);
    }
}

#[test]
fn test_adj_list_newest_first() {
    let mut graph = Graph::new(3, 3);
    graph.add_edge(0, 1);
    graph.add_edge(0, 2);
    graph.add_edge(1, 2);
    let mut it = graph.adj_list(0);
    assert_eq!(it.next(), Some((1, 2)));
    assert_eq!(it.next(), Some((0, 1)));
    assert_eq!(it.next(), None);
    assert_eq!(it.next(), None);
    // each call starts fresh
    let mut again = graph.adj_list(0);
    assert_eq!(again.next(), Some((1, 2)));
    let mut empty = graph.adj_list(2);
    assert_eq!(empty.next(), None);
}

#[test]
fn test_undirected_reverse_edge() {
    // Edges added as undirected pairs: for each edge e, edge e ^ 1 runs in
    // the opposite direction.
    let mut graph = Graph::new(4, 6);
    graph.add_undirected_edge(0, 1);
    graph.add_undirected_edge(1, 2);
    graph.add_undirected_edge(2, 3);
    assert_eq!(graph.num_e(), 6);
    // recover each edge's (source, destination) through the adjacency lists
    let mut ends = vec![(usize::MAX, usize::MAX); graph.num_e()];
    for u in 0..graph.num_v() {
        let mut it = graph.adj_list(u);
        while let Some((e, v)) = it.next() {
            ends[e] = (u, v);
        }
    }
    for e in 0..graph.num_e() {
        let r = e ^ 1;
        assert_ne!(r, e);
        assert!(r < graph.num_e());
        assert_eq!(ends[r].0, ends[e].1);
        assert_eq!(ends[r].1, ends[e].0);
    }
}

#[test]
fn test_two_sat_clause_encoding() {
    // Vertex 2i is variable i, vertex 2i + 1 its negation. A clause (u || v)
    // adds exactly the two implications (!u -> v) then (!v -> u).
    let mut graph = Graph::new(4, 2);
    graph.add_two_sat_clause(0, 2);
    assert_eq!(graph.num_e(), 2);
    // edge 0 must be 1 -> 2 (that is, 0 ^ 1 -> 2)
    let mut it = graph.adj_list(1);
    assert_eq!(it.next(), Some((0, 2)));
    assert_eq!(it.next(), None);
    // edge 1 must be 3 -> 0 (that is, 2 ^ 1 -> 0)
    let mut it = graph.adj_list(3);
    assert_eq!(it.next(), Some((1, 0)));
    assert_eq!(it.next(), None);
}

#[test]
fn test_mst_disconnected_forest() {
    // Two disconnected triangles: the result is a spanning forest with
    // n - number_of_components = 6 - 2 = 4 edges, and no failure.
    let mut graph = Graph::new(6, 6);
    graph.add_undirected_edge(0, 1);
    graph.add_undirected_edge(1, 2);
    graph.add_undirected_edge(2, 0);
    graph.add_undirected_edge(3, 4);
    graph.add_undirected_edge(4, 5);
    graph.add_undirected_edge(5, 3);
    let weights = [1, 2, 3, 4, 5, 6];
    let mst = graph.min_spanning_tree(&weights);
    assert_eq!(mst, vec![0, 1, 3, 4]);
    assert_eq!(mst.len(), 6 - 2);
}

#[test]
fn test_mst_minimal_on_square_with_diagonal() {
    // 4 vertices, 5 undirected edges; the unique minimum spanning tree has
    // weight 1 + 2 + 3 = 6 (every other spanning tree is heavier).
    let mut graph = Graph::new(4, 5);
    graph.add_undirected_edge(0, 1); // weight 1
    graph.add_undirected_edge(1, 2); // weight 4
    graph.add_undirected_edge(2, 3); // weight 2
    graph.add_undirected_edge(3, 0); // weight 5
    graph.add_undirected_edge(0, 2); // weight 3
    let weights = [1, 4, 2, 5, 3];
    let mst = graph.min_spanning_tree(&weights);
    assert_eq!(mst.len(), 3);
    assert_eq!(mst, vec![0, 2, 4]);
    let total: i64 = mst.iter().map(|&e| weights[e]).sum();
    assert_eq!(total, 6);
}

#[test]
fn test_mst_equal_weights_tie_break() {
    // Equal weights are considered in index order.
    let mut graph = Graph::new(3, 3);
    graph.add_undirected_edge(0, 1);
    graph.add_undirected_edge(1, 2);
    graph.add_undirected_edge(2, 0);
    let weights = [5, 5, 5];
    assert_eq!(graph.min_spanning_tree(&weights), vec![0, 1]);
}

#[test]
fn test_mst_empty_graph() {
    let graph = Graph::new(1, 0);
    let weights: [i64; 0] = [];
    assert_eq!(graph.min_spanning_tree(&weights), Vec::<usize>::new());
}

#[test]
fn test_euler_empty_graph() {
    let graph = Graph::new(1, 0);
    assert_eq!(graph.euler_path(0), Vec::<usize>::new());
}

#[test]
fn test_graph_counts() {
    let mut graph = Graph::new(5, 2);
    assert_eq!(graph.num_v(), 5);
    assert_eq!(graph.num_e(), 0);
    graph.add_edge(0, 4);
    assert_eq!(graph.num_v(), 5);
    assert_eq!(graph.num_e(), 1);
    graph.add_undirected_edge(4, 3);
    assert_eq!(graph.num_e(), 3);
}
