use undirected_graph::{Graph, NodeNotInGraph, UndirectedGraph};

#[test]
fn test_add_edge() {
    let mut graph = UndirectedGraph::new();
    graph.add_edge(("a", "b", 5));
    graph.add_edge(("b", "c", 10));
    graph.add_edge(("c", "a", 7));
    let expected_edges = [
        (String::from("a"), String::from("b"), 5),
        (String::from("b"), String::from("a"), 5),
        (String::from("c"), String::from("a"), 7),
        (String::from("a"), String::from("c"), 7),
        (String::from("b"), String::from("c"), 10),
        (String::from("c"), String::from("b"), 10),
    ];
    for edge in expected_edges.iter() {
        assert_eq!(graph.edges().contains(edge), true);
    }
}

#[test]
fn test_add_node_reports_first_insertion_only() {
    let mut graph = UndirectedGraph::new();
    assert_eq!(graph.add_node("a"), true);
    assert_eq!(graph.add_node("a"), false);
    assert_eq!(graph.add_node("a"), false);
    assert_eq!(graph.add_node("b"), true);
    assert_eq!(graph.add_node("b"), false);
    graph.add_edge(("b", "c", 1));
    assert_eq!(graph.add_node("b"), false);
    assert_eq!(graph.add_node("c"), false);
}

#[test]
fn test_contains_after_add_edge() {
    let mut graph = UndirectedGraph::new();
    assert_eq!(graph.contains("a"), false);
    graph.add_edge(("a", "b", 1));
    assert_eq!(graph.contains("a"), true);
    assert_eq!(graph.contains("b"), true);
    assert_eq!(graph.contains("c"), false);
}

#[test]
fn test_nodes_after_three_edges() {
    let mut graph = UndirectedGraph::new();
    graph.add_edge(("a", "b", 5));
    graph.add_edge(("b", "c", 10));
    graph.add_edge(("c", "a", 7));
    let nodes = graph.nodes();
    assert_eq!(nodes.len(), 3);
    assert!(nodes.contains(&String::from("a")));
    assert!(nodes.contains(&String::from("b")));
    assert!(nodes.contains(&String::from("c")));
}

#[test]
fn test_edges_exactly_six_triples() {
    let mut graph = UndirectedGraph::new();
    graph.add_edge(("a", "b", 5));
    graph.add_edge(("b", "c", 10));
    graph.add_edge(("c", "a", 7));
    let edges = graph.edges();
    assert_eq!(edges.len(), 6);
    let expected_edges = [
        (String::from("a"), String::from("b"), 5),
        (String::from("b"), String::from("a"), 5),
        (String::from("b"), String::from("c"), 10),
        (String::from("c"), String::from("b"), 10),
        (String::from("c"), String::from("a"), 7),
        (String::from("a"), String::from("c"), 7),
    ];
    for expected in expected_edges.iter() {
        let mut count = 0;
        for edge in edges.iter() {
            if edge == expected {
                count += 1;
            }
        }
        assert_eq!(count, 1);
    }
}

#[test]
fn test_duplicate_edge_keeps_both_insertions() {
    let mut graph = UndirectedGraph::new();
    graph.add_edge(("a", "b", 5));
    graph.add_edge(("a", "b", 5));
    let edges = graph.edges();
    assert_eq!(edges.len(), 4);
    let forward = (String::from("a"), String::from("b"), 5);
    let backward = (String::from("b"), String::from("a"), 5);
    let mut forward_count = 0;
    let mut backward_count = 0;
    for edge in edges.iter() {
        if *edge == forward {
            forward_count += 1;
        }
        if *edge == backward {
            backward_count += 1;
        }
    }
    assert_eq!(forward_count, 2);
    assert_eq!(backward_count, 2);
}

#[test]
fn test_self_loop_two_entries_on_own_list() {
    let mut graph = UndirectedGraph::new();
    graph.add_edge(("x", "x", 3));
    let rows = graph.adjacency_table();
    assert_eq!(rows.len(), 1);
    assert_eq!(rows[0].0, String::from("x"));
    assert_eq!(rows[0].1, vec![(String::from("x"), 3), (String::from("x"), 3)]);
    let edges = graph.edges();
    assert_eq!(edges.len(), 2);
    for edge in edges.iter() {
        assert_eq!(*edge, (String::from("x"), String::from("x"), 3));
    }
}

#[test]
fn test_new_graph_is_empty() {
    let graph = UndirectedGraph::new();
    assert_eq!(graph.nodes().len(), 0);
    assert_eq!(graph.edges().len(), 0);
    assert_eq!(graph.adjacency_table().len(), 0);
}

#[test]
fn test_nodes_has_no_duplicate_labels() {
    let mut graph = UndirectedGraph::new();
    graph.add_edge(("a", "b", 1));
    graph.add_edge(("a", "b", 2));
    graph.add_edge(("b", "a", 3));
    graph.add_node("a");
    let nodes = graph.nodes();
    assert_eq!(nodes.len(), 2);
    assert!(nodes.contains(&String::from("a")));
    assert!(nodes.contains(&String::from("b")));
}

#[test]
fn test_error_message() {
    let error = NodeNotInGraph;
    assert_eq!(error.message(), String::from("accessing a node that is not in the graph"));
}
