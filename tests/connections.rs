use conmx::{Addr, ConmxErr, Edges, NodeCreationErr, NodeExecutionErr};

fn addr(node: usize, port: usize) -> Addr {
    Addr { node, port }
}

#[test]
fn edges_input_and_outputs() {
    let mut e = Edges::new();
    assert_eq!(e.get_input(), None);
    assert!(e.get_outputs().is_empty());
    e.set_input(addr(1, 2));
    e.set_input(addr(3, 4));
    assert_eq!(e.get_input(), Some(addr(3, 4)));
    e.add_out(addr(5, 0));
    e.add_out(addr(6, 1));
    e.add_out(addr(5, 0));
    assert_eq!(e.get_outputs(), vec![addr(5, 0), addr(6, 1), addr(5, 0)]);
    e.remove_out(addr(5, 0));
    assert_eq!(e.get_outputs(), vec![addr(6, 1)]);
    e.remove_out(addr(9, 9));
    assert_eq!(e.get_outputs(), vec![addr(6, 1)]);
}

#[test]
fn error_texts() {
    assert_eq!(ConmxErr::Net(String::from("down")).to_string(), "Network Error: down");
    assert_eq!(ConmxErr::Win(String::from("x")).to_string(), "UI Error: x");
    assert_eq!(ConmxErr::Locale(String::from("y")).to_string(), "Localization Error: y");
    assert_eq!(NodeCreationErr(String::from("bad")).to_string(), "Error while creating Node: \"bad\"");
    assert_eq!(
        NodeExecutionErr::new(String::from("drv"), String::from("oops")).to_string(),
        "Error while execting driver function \"drv\", cause: oops"
    );
}
