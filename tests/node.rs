use conmx::{Edge, Graph, InputPort, Node, OutputPort};

type TestNode = Node<i32, (i64, i64), u8>;

#[test]
fn output_port_starts_updated() {
    let p = OutputPort::new(String::from("out"), 3);
    assert!(p.get_updated());
    assert_eq!(p.disp_name, "out");
    assert_eq!(p.port, 3);
    let i = InputPort::new(String::from("in"), 4);
    assert_eq!((i.disp_name.as_str(), i.port), ("in", 4));
}

#[test]
fn builder_keeps_order_and_marks_outputs() {
    let node: TestNode = Node::new((0, 0))
        .with_in(String::from("a"), 1)
        .with_in(String::from("b"), 2)
        .with_out(String::from("x"), 10)
        .with_out(String::from("y"), 20)
        .with_driver(7)
        .with_starting_pos((5, 6))
        .build()
        .unwrap();
    assert_eq!(node.position, (5, 6));
    let ins: Vec<(&str, i32)> = node.inputs.iter().map(|p| (p.disp_name.as_str(), p.port)).collect();
    assert_eq!(ins, vec![("a", 1), ("b", 2)]);
    let outs: Vec<(&str, i32, bool)> =
        node.outputs.iter().map(|p| (p.disp_name.as_str(), p.port, p.updated)).collect();
    assert_eq!(outs, vec![("x", 10, true), ("y", 20, true)]);
    assert_eq!(node.drivers, vec![7]);
    assert!(node.is_updated(0));
    assert!(node.is_updated(1));
    assert!(!node.is_updated(2));
}

#[test]
fn nodes_live_in_the_graph() {
    let mut g: Graph<TestNode> = Graph::new();
    let a = g.add_node(Node::new((0, 0)).build().unwrap());
    let b = g.add_node(Node::new((1, 1)).with_out(String::from("o"), 1).build().unwrap());
    assert_eq!(g.add_edge(Edge::new(a, b)), Ok(()));
    if let Some(n) = g.get_node_mut(b) {
        n.set_pos((9, 9));
    }
    assert_eq!(g.get_node_mut(b).unwrap().position, (9, 9));
    assert!(g.get_node_mut(b).unwrap().is_updated(0));
}
