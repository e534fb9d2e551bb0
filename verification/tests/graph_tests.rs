use mst_graph::graph::{Graph, MAX_NODE_INDEX};

fn weights_of(g: &Graph) -> Vec<i32> {
    let mut ws: Vec<i32> = g.edges.iter().map(|e| e.w).collect();
    ws.sort();
    ws
}

fn total_weight(g: &Graph) -> i64 {
    g.edges.iter().map(|e| e.w as i64).sum()
}

#[test]
fn triangle_mst() {
    let mut g = Graph::new();
    g.add_node(1);
    g.add_node(2);
    g.add_node(3);
    g.add_edge(1, 2, 3);
    g.add_edge(2, 3, 1);
    g.add_edge(1, 3, 2);
    let mst = g.kruskal();
    assert_eq!(mst.edges.len(), 2);
    assert_eq!(weights_of(&mst), vec![1, 2]);
    assert_eq!(total_weight(&mst), 3);
}

#[test]
fn parallel_edges_mst() {
    let mut g = Graph::new();
    g.add_node(1);
    g.add_node(2);
    g.add_edge(1, 2, 5);
    g.add_edge(1, 2, 2);
    g.add_edge(1, 2, 7);
    let mst = g.kruskal();
    assert_eq!(mst.edges.len(), 1);
    assert_eq!(mst.edges[0].w, 2);
}

#[test]
fn disconnected_forest_mst() {
    let mut g = Graph::new();
    for id in [1, 2, 3, 4] {
        g.add_node(id);
    }
    g.add_edge(1, 2, 4);
    g.add_edge(3, 4, 7);
    let mst = g.kruskal();
    assert_eq!(mst.edges.len(), 2);
    assert_eq!(total_weight(&mst), 11);
    assert!(!g.is_connected());
}

#[test]
fn cascade_removal() {
    let mut g = Graph::new();
    for id in [1, 2, 3] {
        g.add_node(id);
    }
    g.add_edge(1, 2, 1);
    g.add_edge(2, 3, 2);
    g.add_edge(1, 3, 3);
    g.remove_node(2);
    assert_eq!(g.nodes, vec![1, 3]);
    assert_eq!(g.edges.len(), 1);
    assert_eq!((g.edges[0].u, g.edges[0].v, g.edges[0].w), (1, 3, 3));
}

#[test]
fn rejected_edge() {
    let mut g = Graph::new();
    g.add_node(1);
    g.add_node(2);
    g.add_edge(1, 3, 5);
    assert!(g.edges.is_empty());
}

#[test]
fn directional_remove() {
    let mut g = Graph::new();
    g.add_node(1);
    g.add_node(2);
    g.add_edge(1, 2, 4);
    g.remove_edge(2, 1, 4);
    assert_eq!(g.edges.len(), 1);
    assert_eq!((g.edges[0].u, g.edges[0].v, g.edges[0].w), (1, 2, 4));
}

#[test]
fn add_node_twice_is_once() {
    let mut g = Graph::new();
    g.add_node(7);
    g.add_node(7);
    assert_eq!(g.nodes, vec![7]);
    let mut h = Graph::new();
    h.add_node(7);
    assert_eq!(g.nodes, h.nodes);
    assert_eq!(g.edges.len(), h.edges.len());
}

#[test]
fn remove_edge_twice_is_once() {
    let mut g = Graph::new();
    g.add_node(1);
    g.add_node(2);
    g.add_edge(1, 2, 4);
    g.add_edge(1, 2, 4);
    g.add_edge(1, 2, 9);
    g.remove_edge(1, 2, 4);
    assert_eq!(g.edges.len(), 1);
    assert_eq!(g.edges[0].w, 9);
    g.remove_edge(1, 2, 4);
    assert_eq!(g.edges.len(), 1);
    assert_eq!(g.edges[0].w, 9);
}

#[test]
fn node_max_id_returns_largest() {
    let mut g = Graph::new();
    g.add_node(4);
    g.add_node(17);
    g.add_node(9);
    assert_eq!(g.node_max_id(), 17);
}

#[test]
fn triangle_is_connected() {
    let mut g = Graph::new();
    for id in [1, 2, 3] {
        g.add_node(id);
    }
    g.add_edge(1, 2, 3);
    g.add_edge(2, 3, 1);
    assert!(g.is_connected());
}

#[test]
fn single_node_is_connected() {
    let mut g = Graph::new();
    g.add_node(5);
    assert!(g.is_connected());
}

#[test]
fn kruskal_of_empty_graph_is_empty() {
    let g = Graph::new();
    let mst = g.kruskal();
    assert!(mst.nodes.is_empty());
    assert!(mst.edges.is_empty());
}

#[test]
fn self_loop_never_in_mst() {
    let mut g = Graph::new();
    g.add_node(1);
    g.add_edge(1, 1, 5);
    assert_eq!(g.edges.len(), 1);
    let mst = g.kruskal();
    assert!(mst.edges.is_empty());
}

#[test]
fn mst_nodes_are_edge_endpoints() {
    let mut g = Graph::new();
    for id in [1, 2, 3, 9] {
        g.add_node(id);
    }
    g.add_edge(1, 2, 1);
    g.add_edge(2, 3, 2);
    let mst = g.kruskal();
    assert_eq!(mst.edges.len(), 2);
    let mut ns = mst.nodes.clone();
    ns.sort();
    assert_eq!(ns, vec![1, 2, 3]);
    for n in &mst.nodes {
        assert!(mst.edges.iter().any(|e| e.u == *n || e.v == *n));
    }
}

#[test]
fn mst_weights_come_out_sorted() {
    let mut g = Graph::new();
    for id in [0, 1, 2, 3, 4] {
        g.add_node(id);
    }
    g.add_edge(0, 1, 9);
    g.add_edge(1, 2, -3);
    g.add_edge(2, 3, 4);
    g.add_edge(3, 4, 0);
    g.add_edge(4, 0, 2);
    let mst = g.kruskal();
    assert_eq!(mst.edges.len(), 4);
    for pair in mst.edges.windows(2) {
        assert!(pair[0].w <= pair[1].w);
    }
    assert_eq!(total_weight(&mst), 3);
}

#[test]
fn largest_allowed_identifier() {
    let mut g = Graph::new();
    g.add_node(MAX_NODE_INDEX - 1);
    g.add_node(0);
    g.add_edge(0, MAX_NODE_INDEX - 1, 1);
    assert_eq!(g.node_max_id(), MAX_NODE_INDEX - 1);
    let mst = g.kruskal();
    assert_eq!(mst.edges.len(), 1);
    assert!(g.is_connected());
}

#[test]
fn remove_node_absent_is_noop() {
    let mut g = Graph::new();
    g.add_node(1);
    g.add_node(2);
    g.add_edge(1, 2, 4);
    g.remove_node(3);
    assert_eq!(g.nodes, vec![1, 2]);
    assert_eq!(g.edges.len(), 1);
}
