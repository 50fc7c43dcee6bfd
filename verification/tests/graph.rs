use lau_geometric_deep_learning::graph::EdgePattern;

/// An agent graph with no edges, as a pattern of positive weights.
fn empty(n: usize) -> EdgePattern {
    EdgePattern { present: vec![vec![false; n]; n] }
}

/// Adds an undirected edge of the given weight: it is present when positive.
fn add_edge(g: &mut EdgePattern, i: usize, j: usize, weight: f64) {
    g.present[i][j] = weight > 0.0;
    g.present[j][i] = weight > 0.0;
}

#[test]
fn test_graph_ring() {
    let g = EdgePattern::ring(4);
    assert!(g.present[0][1]);
    assert!(g.present[1][2]);
    assert!(g.present[2][3]);
    assert!(g.present[3][0]);
    assert!(!g.present[0][2]);
}

#[test]
fn test_graph_is_connected() {
    let g = EdgePattern::ring(5);
    assert!(g.is_connected());
    let mut g2 = empty(4);
    add_edge(&mut g2, 0, 1, 1.0);
    add_edge(&mut g2, 2, 3, 1.0);
    assert!(!g2.is_connected());
}

#[test]
fn test_graph_neighbors() {
    let mut g = empty(3);
    add_edge(&mut g, 0, 1, 1.0);
    add_edge(&mut g, 0, 2, 2.0);
    let nbrs = g.neighbors(0);
    assert_eq!(nbrs.len(), 2);
    assert!(nbrs.contains(&1));
    assert!(nbrs.contains(&2));
}

#[test]
fn test_graph_num_edges() {
    let mut g = empty(4);
    add_edge(&mut g, 0, 1, 1.0);
    add_edge(&mut g, 2, 3, 1.0);
    assert_eq!(g.num_edges(), 2);
}

#[test]
fn ring_edge_counts_and_self_loop() {
    assert_eq!(EdgePattern::ring(4).num_edges(), 4);
    assert_eq!(EdgePattern::ring(2).num_edges(), 1);
    let one = EdgePattern::ring(1);
    assert!(one.present[0][0]);
    assert_eq!(one.num_edges(), 1);
    assert!(EdgePattern::ring(0).present.is_empty());
}

#[test]
fn connectivity_cases() {
    assert!(empty(0).is_connected());
    assert!(empty(1).is_connected());
    assert!(!empty(2).is_connected());
    let mut chain = empty(4);
    add_edge(&mut chain, 0, 3, 1.0);
    add_edge(&mut chain, 3, 2, 1.0);
    add_edge(&mut chain, 2, 1, 1.0);
    assert!(chain.is_connected());
    // Only edges of positive weight connect.
    let mut weak = empty(2);
    add_edge(&mut weak, 0, 1, -1.0);
    assert!(!weak.is_connected());
    // Reachability follows edges out of agent 0.
    let mut one_way = empty(2);
    one_way.present[1][0] = true;
    assert!(!one_way.is_connected());
    one_way.present[0][1] = true;
    assert!(one_way.is_connected());
}

#[test]
fn neighbours_and_edge_count() {
    let mut g = empty(3);
    add_edge(&mut g, 0, 1, 1.0);
    add_edge(&mut g, 0, 2, 1.0);
    assert_eq!(g.neighbors(0), vec![1, 2]);
    assert_eq!(g.neighbors(1), vec![0]);
    let full = EdgePattern { present: vec![vec![true; 3]; 3] };
    assert_eq!(full.num_edges(), 6);
    assert_eq!(full.neighbors(1), vec![0, 1, 2]);
}

#[test]
fn neighbours_of_an_empty_graph() {
    let g = EdgePattern::ring(0);
    assert!(g.neighbors(0).is_empty());
    assert!(g.neighbors(7).is_empty());
}
