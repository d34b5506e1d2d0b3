use daze::error::GraphError;
use daze::graph::Graph;
use daze::node::Node;
use daze::text::{push_decimal, push_list, push_signed_decimal};
use daze::value::Val;

fn decimal(x: u64) -> String {
    let mut s = String::new();
    push_decimal(&mut s, x);
    s
}

fn signed(x: i64) -> String {
    let mut s = String::from("=");
    push_signed_decimal(&mut s, x);
    s
}

#[test]
fn numbers_are_written_in_decimal() {
    assert_eq!(decimal(0), "0");
    assert_eq!(decimal(7), "7");
    assert_eq!(decimal(10), "10");
    assert_eq!(decimal(1234567890), "1234567890");
    assert_eq!(decimal(u64::MAX), "18446744073709551615");
    assert_eq!(signed(0), "=0");
    assert_eq!(signed(-1), "=-1");
    assert_eq!(signed(128), "=128");
    assert_eq!(signed(i64::MIN), "=-9223372036854775808");
    assert_eq!(signed(i64::MAX), "=9223372036854775807");
}

#[test]
fn lists_are_written_between_brackets() {
    let mut s = String::from("links: ");
    push_list(&mut s, &vec![]);
    assert_eq!(s, "links: []");
    let mut s = String::new();
    push_list(&mut s, &vec![5]);
    assert_eq!(s, "[5]");
    let mut s = String::new();
    push_list(&mut s, &vec![1, 20, 300]);
    assert_eq!(s, "[1, 20, 300]");
}

#[test]
fn values_as_text() {
    assert_eq!(Val::Nothing.to_text(), "None");
    assert_eq!(Val::Num(-12).to_text(), "-12");
    assert_eq!(Val::Txt("some text".to_string()).to_text(), "some text");
    assert_eq!(Val::Bool(true).to_text(), "true");
    assert_eq!(Val::Bool(false).to_text(), "false");
}

#[test]
fn node_as_text() {
    let n = Node {
        name: "Node1".to_string(),
        id: 0,
        value: Val::Num(128),
        relations: vec![1, 2],
        backlinks: vec![9],
    };
    assert_eq!(n.to_text(), "id:    0\nname:  Node1\nvalue: 128\nlinks: [1, 2]");
}

#[test]
fn graph_as_text() {
    let mut g = Graph::new();
    assert_eq!(g.to_text(), "");
    g.append("a", Val::Bool(true));
    assert_eq!(g.to_text(), "\n------\nid:    0\nname:  a\nvalue: true\nlinks: []\n------");
    g.append("b", Val::Nothing);
    let text = g.to_text();
    let a = "\n------\nid:    0\nname:  a\nvalue: true\nlinks: []\n------";
    let b = "\n------\nid:    1\nname:  b\nvalue: None\nlinks: []\n------";
    assert!(text == format!("{}{}", a, b) || text == format!("{}{}", b, a));
}

#[test]
fn graph_for_the_layout_tool() {
    let mut g = Graph::new();
    assert_eq!(g.print_graph(), "digraph {\n}");
    g.append("a", Val::Num(1));
    assert_eq!(g.set_relations(0, vec![0, 0]), Ok(()));
    assert_eq!(
        g.print_graph(),
        "digraph {\n0[label=\"id:    0\nname:  a\nvalue: 1\nlinks: [0, 0]\"]\n0 -> 0\n0 -> 0\n}"
    );
    g.append("b", Val::Nothing);
    assert_eq!(g.set_relations(0, vec![1]), Ok(()));
    let a = "0[label=\"id:    0\nname:  a\nvalue: 1\nlinks: [1]\"]\n0 -> 1\n";
    let b = "1[label=\"id:    1\nname:  b\nvalue: None\nlinks: []\"]\n";
    let dot = g.print_graph();
    assert!(
        dot == format!("digraph {{\n{}{}}}", a, b) || dot == format!("digraph {{\n{}{}}}", b, a)
    );
}

#[test]
fn refusals_in_words() {
    assert_eq!(GraphError::NotFound.message(), "Could not find node under given id!");
    assert_eq!(
        GraphError::InvalidReference(17).message(),
        "Could not find node under id in relations: [17]"
    );
}
