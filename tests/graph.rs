use conmx::{Edge, Graph, GraphError, GraphNode};

#[derive(Debug, PartialEq)]
pub struct TestNode(i64);

impl GraphNode for TestNode {}

#[test]
fn test_new_clean() {
    let g = Graph::<TestNode>::new();

    assert_eq!(
        g,
        Graph::<TestNode> {
            nodes: Vec::new(),
            free_nodes: Vec::new(),
            edges: Vec::new(),
            free_edges: Vec::new(),
        }
    );
}

#[test]
fn test_add_node() {
    let mut g = Graph::new();
    let n_id_1 = g.add_node(TestNode(10));
    let n_id_2 = g.add_node(TestNode(100));
    let n_id_3 = g.add_node(TestNode(1000));

    assert_eq!(n_id_1, 0);
    assert_ne!(n_id_1, n_id_2);
    assert_ne!(n_id_1, n_id_3);
    assert_ne!(n_id_2, n_id_3);

    assert_eq!(
        g,
        Graph {
            nodes: vec![Some(TestNode(10)), Some(TestNode(100)), Some(TestNode(1000))],
            free_nodes: vec![],
            edges: vec![],
            free_edges: vec![],
        }
    );
}

#[test]
fn test_new_create_use() {
    let mut g = Graph::new();
    let n1 = g.add_node(TestNode(1));
    let n2 = g.add_node(TestNode(2));
    let n3 = g.add_node(TestNode(3));

    let _e1 = g.add_edge(Edge { start: n1, end: n2 });
    let _e2 = g.add_edge(Edge { start: n3, end: n1 });

    assert_eq!(
        g,
        Graph {
            nodes: vec![Some(TestNode(1)), Some(TestNode(2)), Some(TestNode(3))],
            free_nodes: vec![],
            edges: vec![Some(Edge { start: 0, end: 1 }), Some(Edge { start: 2, end: 0 })],
            free_edges: vec![],
        }
    );
}

#[test]
fn test_delete_node() {
    let mut g = Graph::new();
    let n1 = g.add_node(TestNode(-3));
    let n2 = g.add_node(TestNode(-2));
    let n3 = g.add_node(TestNode(-1));

    let _e1 = g.add_edge(Edge { start: n1, end: n2 });
    let _e2 = g.add_edge(Edge { start: n3, end: n1 });

    let del = g.delete_node(n2).unwrap();

    assert_eq!(del, TestNode(-2));

    assert_eq!(
        g,
        Graph {
            nodes: vec![Some(TestNode(-3)), None, Some(TestNode(-1))],
            free_nodes: vec![1],
            edges: vec![None, Some(Edge { start: 2, end: 0 })],
            free_edges: vec![0],
        }
    );
}

#[test]
fn test_delete_after_add() {
    let mut g = Graph::new();
    let n1 = g.add_node(TestNode(1));
    let _n2 = g.add_node(TestNode(2));

    let deleted = g.delete_node(n1).unwrap();
    assert_eq!(deleted, TestNode(1));

    let _n3 = g.add_node(TestNode(3));

    assert_eq!(
        g,
        Graph {
            nodes: vec![Some(TestNode(3)), Some(TestNode(2))],
            free_nodes: vec![],
            edges: vec![],
            free_edges: vec![],
        }
    );
}

#[test]
fn test_add_edge() {
    let mut g = Graph::new();
    let n_id_1 = g.add_node(TestNode(1));
    let n_id_2 = g.add_node(TestNode(2));

    assert_ne!(Ok(()), g.add_edge(Edge { start: n_id_1, end: 10 }));
    assert_eq!(
        g,
        Graph {
            nodes: vec![Some(TestNode(1)), Some(TestNode(2))],
            free_nodes: vec![],
            edges: vec![],
            free_edges: vec![],
        }
    );

    assert_eq!(Ok(()), g.add_edge(Edge { start: n_id_1, end: n_id_2 }));
    assert_eq!(
        g,
        Graph {
            nodes: vec![Some(TestNode(1)), Some(TestNode(2))],
            free_nodes: vec![],
            edges: vec![Some(Edge { start: n_id_1, end: n_id_2 })],
            free_edges: vec![],
        }
    );
}

#[test]
fn test_delete_edge() {
    let mut g = Graph::new();
    let n1 = g.add_node(TestNode(1));
    let n2 = g.add_node(TestNode(2));
    let n3 = g.add_node(TestNode(3));

    assert_eq!(Ok(()), g.add_edge(Edge::new(n1, n2)));
    assert_eq!(Ok(()), g.add_edge(Edge::new(n1, n3)));
    assert_eq!(Ok(()), g.add_edge(Edge::new(n2, n3)));

    assert_ne!(Ok(()), g.add_edge(Edge::new(n1, 10)));

    assert_eq!(g.delete_edge_by(Some(n1), None), vec![Edge::new(n1, n2), Edge::new(n1, n3),]);
    assert_eq!(
        g,
        Graph {
            nodes: vec![Some(TestNode(1)), Some(TestNode(2)), Some(TestNode(3))],
            free_nodes: vec![],
            edges: vec![None, None, Some(Edge::new(n2, n3)),],
            free_edges: vec![0, 1,],
        }
    );

    // Add the edges of n1 again
    assert_eq!(Ok(()), g.add_edge(Edge::new(n1, n2)));
    assert_eq!(Ok(()), g.add_edge(Edge::new(n1, n3)));

    assert_ne!(g.delete_edge_by(None, Some(n1)), vec![Edge::new(n1, n2), Edge::new(n1, n3),]);

    assert_eq!(g.delete_edge_by(Some(n1), Some(10)), vec![]);
}

#[test]
fn freed_node_slot_is_reused_first() {
    let mut g = Graph::new();
    let _a = g.add_node(TestNode(1));
    let k = g.add_node(TestNode(2));
    let _c = g.add_node(TestNode(3));
    assert_eq!(g.delete_node(k), Some(TestNode(2)));
    assert_eq!(g.add_node(TestNode(4)), k);
    assert_eq!(g.get_nodes().len(), 3);
}

#[test]
fn free_list_is_a_stack() {
    let mut g = Graph::new();
    g.add_node(TestNode(0));
    g.add_node(TestNode(1));
    g.add_node(TestNode(2));
    assert!(g.delete_node(0).is_some());
    assert!(g.delete_node(1).is_some());
    assert_eq!(g.add_node(TestNode(10)), 1);
    assert_eq!(g.add_node(TestNode(11)), 0);
    assert_eq!(g.add_node(TestNode(12)), 3);
}

#[test]
fn delete_missing_node_changes_nothing() {
    let mut g = Graph::new();
    let n = g.add_node(TestNode(1));
    assert_eq!(g.delete_node(7), None);
    assert_eq!(g.delete_node(n), Some(TestNode(1)));
    assert_eq!(g.delete_node(n), None);
    assert_eq!(g.free_nodes, vec![n]);
}

#[test]
fn add_edge_errors_name_missing_endpoints() {
    let mut g = Graph::new();
    let a = g.add_node(TestNode(1));
    let b = g.add_node(TestNode(2));
    assert_eq!(
        g.add_edge(Edge::new(a, 10)),
        Err(GraphError(String::from("Node not existing (End node not existing (10))")))
    );
    assert_eq!(
        g.add_edge(Edge::new(42, b)),
        Err(GraphError(String::from("Node not existing (Start node not existing (42))")))
    );
    assert_eq!(
        g.add_edge(Edge::new(123, 7)),
        Err(GraphError(String::from("Nodes not existing (start: 123, end: 7)")))
    );
    assert!(g.get_edges().is_empty());
    assert_eq!(g.add_edge(Edge::new(a, b)), Ok(()));
    assert_eq!(g.get_edges(), vec![&Edge::new(a, b)]);
}

#[test]
fn add_edge_to_freed_node_fails() {
    let mut g = Graph::new();
    let a = g.add_node(TestNode(1));
    let b = g.add_node(TestNode(2));
    g.delete_node(b);
    assert!(g.add_edge(Edge::new(a, b)).is_err());
}

#[test]
fn graph_error_text() {
    let e = GraphError(String::from("boom"));
    assert_eq!(e.to_string(), "Error in Graph: boom");
}

#[test]
fn delete_node_drops_its_edges() {
    let mut g = Graph::new();
    let n1 = g.add_node(TestNode(1));
    let n2 = g.add_node(TestNode(2));
    let n3 = g.add_node(TestNode(3));
    g.add_edge(Edge::new(n1, n2)).unwrap();
    g.add_edge(Edge::new(n1, n3)).unwrap();
    g.add_edge(Edge::new(n3, n2)).unwrap();
    g.delete_node(n1);
    assert!(g.get_edges().iter().all(|e| e.start != n1));
    assert_eq!(g.get_edges(), vec![&Edge::new(n3, n2)]);
}

#[test]
fn delete_all_edges_then_reuse_slots() {
    let mut g = Graph::new();
    let n1 = g.add_node(TestNode(1));
    let n2 = g.add_node(TestNode(2));
    g.add_edge(Edge::new(n1, n2)).unwrap();
    g.add_edge(Edge::new(n2, n1)).unwrap();
    let removed = g.delete_edge_by(None, None);
    assert_eq!(removed, vec![Edge::new(n1, n2), Edge::new(n2, n1)]);
    assert!(g.get_edges().is_empty());
    assert_eq!(g.edges, vec![None, None]);
    g.add_edge(Edge::new(n2, n2)).unwrap();
    g.add_edge(Edge::new(n1, n1)).unwrap();
    assert_eq!(g.edges.len(), 2);
    assert_eq!(g.edges, vec![Some(Edge::new(n1, n1)), Some(Edge::new(n2, n2))]);
}

#[test]
fn delete_edge_by_pair_matches_both_directions() {
    let mut g = Graph::new();
    let n1 = g.add_node(TestNode(1));
    let n2 = g.add_node(TestNode(2));
    let n3 = g.add_node(TestNode(3));
    g.add_edge(Edge::new(n1, n2)).unwrap();
    g.add_edge(Edge::new(n2, n3)).unwrap();
    g.add_edge(Edge::new(n2, n1)).unwrap();
    assert_eq!(g.delete_edge_by(Some(n1), Some(n2)), vec![Edge::new(n1, n2), Edge::new(n2, n1)]);
    assert_eq!(g.free_edges, vec![0, 2]);
    assert_eq!(g.get_edges(), vec![&Edge::new(n2, n3)]);
}

#[test]
fn get_node_mut_changes_in_place() {
    let mut g = Graph::new();
    let n = g.add_node(TestNode(5));
    if let Some(node) = g.get_node_mut(n) {
        node.0 = 6;
    }
    assert_eq!(g.get_nodes(), &vec![Some(TestNode(6))]);
    assert!(g.get_node_mut(3).is_none());
    g.delete_node(n);
    assert!(g.get_node_mut(n).is_none());
}

#[test]
fn scenario_delete_node_removes_edge() {
    let mut g = Graph::new();
    let n1 = g.add_node(TestNode(1));
    let n2 = g.add_node(TestNode(2));
    let n3 = g.add_node(TestNode(3));
    assert_eq!((n1, n2, n3), (0, 1, 2));
    assert_eq!(g.add_edge(Edge::new(n1, n2)), Ok(()));
    assert!(g.add_edge(Edge::new(n1, 10)).is_err());
    assert!(g.delete_node(n2).is_some());
    assert!(g.get_edges().is_empty());
}
