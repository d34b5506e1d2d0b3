use daze::error::{FormatError, GraphError};
use daze::graph::Graph;
use daze::node::Node;
use daze::snapshot::{deserialize, deserialize_to_nodevec, serialize_nodevec};
use daze::value::Val;

fn node(id: u64, name: &str, value: Val, relations: Vec<u64>) -> Node {
    Node { name: name.to_string(), id, value, relations, backlinks: Vec::new() }
}

#[test]
fn id_by_name_finds_the_oldest_holder() {
    let mut g = Graph::new();
    assert_eq!(g.id_by_name("a"), None);
    g.append("b", Val::Nothing);
    g.append("a", Val::Nothing);
    g.append("a", Val::Nothing);
    assert_eq!(g.id_by_name("a"), Some(1));
    assert_eq!(g.id_by_name("b"), Some(0));
    assert_eq!(g.id_by_name("c"), None);
    g.delete(1);
    assert_eq!(g.id_by_name("a"), Some(2));
    g.delete(2);
    assert_eq!(g.id_by_name("a"), None);
}

#[test]
fn the_short_names_do_what_the_long_ones_do() {
    let mut g = Graph::new();
    assert_eq!(g.assumed_append("a", Val::Num(1)), 0);
    assert_eq!(g.assumed_append("b", Val::Num(1)), 1);
    assert_eq!(g.change_relations(0, vec![1, 1]), Ok(()));
    assert_eq!(g.select_by_id(1).unwrap().backlinks, vec![0]);
    assert_eq!(g.change_relations(0, vec![4]), Err(GraphError::InvalidReference(4)));
    assert_eq!(g.change_relations(4, vec![]), Err(GraphError::NotFound));
    assert_eq!(g.change_name(1, "c"), Ok(()));
    assert_eq!(g.ids_by_name("c"), vec![1]);
    assert!(g.ids_by_name("b").is_empty());
    assert_eq!(g.change_name(4, "c"), Err(GraphError::NotFound));
    assert_eq!(g.change_value(1, true), Ok(()));
    assert_eq!(g.ids_by_value(&Val::Bool(true)), vec![1]);
    assert_eq!(g.ids_by_value(&Val::Num(1)), vec![0]);
    assert_eq!(g.change_value(4, true), Err(GraphError::NotFound));
    let gone = g.pop_id(1).unwrap();
    assert_eq!((gone.id, gone.name.as_str()), (1, "c"));
    assert!(g.pop_id(1).is_none());
    assert_eq!(g.select_by_id(0).unwrap().relations, vec![1, 1]);
    assert_eq!(g.len(), 1);
}

#[test]
fn add_relation_appends_one() {
    let mut g = Graph::new();
    g.append("a", Val::Nothing);
    g.append("b", Val::Nothing);
    assert_eq!(g.add_relation(0, 1), Ok(()));
    assert_eq!(g.add_relation(0, 1), Ok(()));
    assert_eq!(g.select_by_id(0).unwrap().relations, vec![1, 1]);
    assert_eq!(g.select_by_id(1).unwrap().backlinks, vec![0]);
    assert_eq!(g.add_relation(0, 2), Err(GraphError::InvalidReference(2)));
    assert_eq!(g.add_relation(2, 0), Err(GraphError::NotFound));
    assert_eq!(g.select_by_id(0).unwrap().relations, vec![1, 1]);
}

#[test]
fn remove_relation_takes_every_occurrence_out() {
    let mut g = Graph::new();
    for name in ["a", "b", "c"] {
        g.append(name, Val::Nothing);
    }
    assert_eq!(g.set_relations(0, vec![1, 2, 1, 0]), Ok(()));
    assert_eq!(g.set_relations(2, vec![1]), Ok(()));
    assert_eq!(g.remove_relation(0, 1), Ok(()));
    assert_eq!(g.select_by_id(0).unwrap().relations, vec![2, 0]);
    assert_eq!(g.select_by_id(1).unwrap().backlinks, vec![2]);
    assert_eq!(g.select_by_id(2).unwrap().backlinks, vec![0]);
    assert_eq!(g.remove_relation(0, 0), Ok(()));
    assert_eq!(g.select_by_id(0).unwrap().relations, vec![2]);
    assert!(g.select_by_id(0).unwrap().backlinks.is_empty());
    assert_eq!(g.remove_relation(0, 7), Ok(()));
    assert_eq!(g.select_by_id(0).unwrap().relations, vec![2]);
    assert_eq!(g.remove_relation(7, 0), Err(GraphError::NotFound));
}

#[test]
fn remove_relation_drops_a_dangling_relation() {
    let mut g = Graph::new();
    g.append("a", Val::Nothing);
    g.append("b", Val::Nothing);
    assert_eq!(g.set_relations(0, vec![1]), Ok(()));
    g.delete(1);
    assert_eq!(g.remove_relation(0, 1), Ok(()));
    assert!(g.select_by_id(0).unwrap().relations.is_empty());
}

#[test]
fn nodes_come_with_their_relations() {
    let mut g = Graph::new();
    g.append("a", Val::Nothing);
    assert_eq!(g.rappend("b", 4, Val::Num(1), vec![0, 4]), Ok(()));
    assert_eq!(g.select_by_id(4).unwrap().relations, vec![0, 4]);
    assert_eq!(g.select_by_id(0).unwrap().backlinks, vec![4]);
    assert_eq!(g.select_by_id(4).unwrap().backlinks, vec![4]);
    assert_eq!(g.next_id(), 5);
    assert_eq!(g.assumed_rappend("c", Val::Nothing, vec![4, 5, 0]), Ok(5));
    assert_eq!(g.select_by_id(5).unwrap().relations, vec![4, 5, 0]);
    assert_eq!(g.select_by_id(0).unwrap().backlinks, vec![4, 5]);
    let mut n = node(9, "d", Val::Bool(true), vec![5]);
    n.backlinks = vec![1, 2, 3];
    assert_eq!(g.append_node(n), Ok(()));
    assert!(g.select_by_id(9).unwrap().backlinks.is_empty());
    assert_eq!(g.select_by_id(5).unwrap().backlinks, vec![5, 9]);
    assert_eq!(g.ids_by_name("d"), vec![9]);
    assert_eq!(g.ids_by_value(&Val::Bool(true)), vec![9]);
    assert_eq!(g.next_id(), 10);
}

#[test]
fn a_node_with_a_missing_target_is_refused() {
    let mut g = Graph::new();
    g.append("a", Val::Nothing);
    assert_eq!(g.rappend("b", 4, Val::Nothing, vec![0, 3, 8]), Err(GraphError::InvalidReference(3)));
    assert_eq!(g.assumed_rappend("b", Val::Nothing, vec![2]), Err(GraphError::InvalidReference(2)));
    assert_eq!(g.append_node(node(0, "x", Val::Nothing, vec![1])), Err(GraphError::InvalidReference(1)));
    assert_eq!(g.len(), 1);
    assert_eq!(g.next_id(), 1);
    assert_eq!(g.select_by_id(0).unwrap().name, "a");
}

#[test]
fn node_lists_become_bytes_and_come_back() {
    let nodes = vec![
        node(3, "c", Val::Txt("t".to_string()), vec![1]),
        node(1, "a", Val::Num(-1), vec![]),
    ];
    let bytes = serialize_nodevec(&nodes);
    let mut expected = nodes[0].to_bytes();
    expected.extend_from_slice(&nodes[1].to_bytes());
    assert_eq!(bytes, expected);
    let back = deserialize_to_nodevec(&bytes).unwrap();
    assert_eq!(back.len(), 2);
    assert_eq!((back[0].id, back[0].name.as_str()), (3, "c"));
    assert_eq!(back[0].relations, vec![1]);
    assert_eq!((back[1].id, &back[1].value), (1, &Val::Num(-1)));
    assert!(serialize_nodevec(&vec![]).is_empty());
    assert!(deserialize_to_nodevec(&vec![]).unwrap().is_empty());
    assert_eq!(deserialize_to_nodevec(&vec![1, 2]).err(), Some(FormatError::Truncated));
}

#[test]
fn a_graph_is_built_from_a_node_list() {
    let mut first = node(3, "c", Val::Nothing, vec![1, 3]);
    first.backlinks = vec![77];
    let g = deserialize(vec![first, node(1, "a", Val::Nothing, vec![])]).unwrap();
    assert_eq!(g.select_by_id(3).unwrap().relations, vec![1, 3]);
    assert_eq!(g.select_by_id(3).unwrap().backlinks, vec![3]);
    assert_eq!(g.select_by_id(1).unwrap().backlinks, vec![3]);
    assert_eq!(g.next_id(), 4);
    assert_eq!(
        deserialize(vec![node(1, "a", Val::Nothing, vec![2])]).err(),
        Some(FormatError::DanglingRelation(2))
    );
    assert_eq!(
        deserialize(vec![node(1, "a", Val::Nothing, vec![]), node(1, "b", Val::Nothing, vec![])]).err(),
        Some(FormatError::DuplicateId(1))
    );
    assert_eq!(
        deserialize(vec![node(u64::MAX, "a", Val::Nothing, vec![])]).err(),
        Some(FormatError::IdOutOfRange)
    );
}
