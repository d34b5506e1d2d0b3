use daze::error::GraphError;
use daze::graph::Graph;
use daze::node::Node;
use daze::order::Orders;
use daze::value::Val;

fn ids(nodes: &[&Node]) -> Vec<u64> {
    nodes.iter().map(|n| n.id).collect()
}

#[test]
fn a_new_graph_is_empty() {
    let g = Graph::new();
    assert_eq!(g.len(), 0);
    assert_eq!(g.next_id(), 0);
    assert!(g.ids().is_empty());
    assert!(g.select_by_id(0).is_none());
    assert!(g.select_by_name("x").is_empty());
}

#[test]
fn append_hands_out_ids_in_order() {
    let mut g = Graph::new();
    assert_eq!(g.append("n1", Val::Num(5)), 0);
    assert_eq!(g.append("n2", Val::Txt("hi".to_string())), 1);
    let found = g.select_by_name("n1");
    assert_eq!(found.len(), 1);
    assert_eq!(found[0].id, 0);
    assert_eq!(found[0].name, "n1");
    assert_eq!(found[0].value, Val::Num(5));
    assert!(found[0].relations.is_empty());
    assert!(found[0].backlinks.is_empty());
    assert_eq!(g.len(), 2);
    assert_eq!(g.next_id(), 2);
}

#[test]
fn append_accepts_plain_values() {
    let mut g = Graph::new();
    g.append("a", 5i64);
    g.append("b", "text");
    g.append("c", true);
    g.append("d", ());
    assert_eq!(g.select_by_id(0).unwrap().value, Val::Num(5));
    assert_eq!(g.select_by_id(1).unwrap().value, Val::Txt("text".to_string()));
    assert_eq!(g.select_by_id(2).unwrap().value, Val::Bool(true));
    assert_eq!(g.select_by_id(3).unwrap().value, Val::Nothing);
}

#[test]
fn delete_leaves_dangling_relation() {
    let mut g = Graph::new();
    g.append("a", Val::Nothing);
    g.append("b", Val::Nothing);
    assert_eq!(g.set_relations(0, vec![1]), Ok(()));
    assert_eq!(g.select_by_id(1).unwrap().backlinks, vec![0]);
    let gone = g.delete(1).unwrap();
    assert_eq!(gone.id, 1);
    assert_eq!(gone.backlinks, vec![0]);
    assert_eq!(g.select_by_id(0).unwrap().relations, vec![1]);
    assert!(g.select_by_id(1).is_none());
    assert!(!g.contains(1));
    assert!(g.select_link(0).is_empty());
}

#[test]
fn insert_moves_the_counter() {
    let mut g = Graph::new();
    g.insert("x", Val::Bool(true), 5);
    assert_eq!(g.next_id(), 6);
    let id = g.append("y", Val::Nothing);
    assert!(id >= 6);
    assert_eq!(id, 6);
    g.insert("z", Val::Nothing, 2);
    assert_eq!(g.next_id(), 7);
}

#[test]
fn insert_over_a_node_replaces_it_and_cleans_the_indices() {
    let mut g = Graph::new();
    g.append("old", Val::Num(1));
    g.append("other", Val::Num(1));
    assert_eq!(g.set_relations(0, vec![1]), Ok(()));
    g.insert("new", Val::Num(2), 0);
    assert!(g.select_by_name("old").is_empty());
    assert_eq!(ids(&g.select_by_name("new")), vec![0]);
    assert_eq!(ids(&g.select_by_value(Val::Num(1))), vec![1]);
    assert_eq!(ids(&g.select_by_value(Val::Num(2))), vec![0]);
    assert!(g.select_by_id(0).unwrap().relations.is_empty());
    assert!(g.select_by_id(1).unwrap().backlinks.is_empty());
    assert_eq!(g.len(), 2);
}

#[test]
fn insert_under_a_referenced_id_takes_the_backlinks() {
    let mut g = Graph::new();
    g.append("a", Val::Nothing);
    g.append("b", Val::Nothing);
    assert_eq!(g.set_relations(0, vec![1]), Ok(()));
    g.delete(1);
    g.insert("again", Val::Nothing, 1);
    assert_eq!(g.select_by_id(0).unwrap().relations, vec![1]);
    assert_eq!(g.select_by_id(1).unwrap().backlinks, vec![0]);
    assert!(g.select_by_id(1).unwrap().relations.is_empty());
    assert_eq!(ids(&g.select_backlinks(1)), vec![0]);
}

#[test]
fn insert_over_a_node_keeps_who_points_at_it() {
    let mut g = Graph::new();
    for name in ["a", "b", "c", "d"] {
        g.append(name, Val::Nothing);
    }
    assert_eq!(g.set_relations(3, vec![1, 1]), Ok(()));
    assert_eq!(g.set_relations(0, vec![1]), Ok(()));
    assert_eq!(g.set_relations(1, vec![1, 2]), Ok(()));
    assert_eq!(g.select_by_id(1).unwrap().backlinks, vec![3, 0, 1]);
    g.insert("new", Val::Num(1), 1);
    let new = g.select_by_id(1).unwrap();
    assert_eq!(new.name, "new");
    assert!(new.relations.is_empty());
    assert_eq!(new.backlinks, vec![0, 3]);
    assert!(g.select_by_id(2).unwrap().backlinks.is_empty());
    assert_eq!(g.next_id(), 4);
}

#[test]
fn insert_under_a_free_id_has_no_backlinks() {
    let mut g = Graph::new();
    g.append("a", Val::Nothing);
    g.insert("far", Val::Nothing, 40);
    g.insert("near", Val::Nothing, 7);
    assert!(g.select_by_id(40).unwrap().backlinks.is_empty());
    assert!(g.select_by_id(7).unwrap().backlinks.is_empty());
    assert_eq!(g.next_id(), 41);
}

#[test]
fn delete_of_a_missing_node_changes_nothing() {
    let mut g = Graph::new();
    g.append("a", Val::Nothing);
    assert!(g.delete(9).is_none());
    assert_eq!(g.len(), 1);
    assert_eq!(ids(&g.select_by_name("a")), vec![0]);
}

#[test]
fn delete_takes_only_the_node_out_of_its_buckets() {
    let mut g = Graph::new();
    g.append("same", Val::Num(1));
    g.append("same", Val::Num(1));
    g.append("same", Val::Num(1));
    g.delete(1);
    assert_eq!(ids(&g.select_by_name("same")), vec![0, 2]);
    assert_eq!(ids(&g.select_by_value(Val::Num(1))), vec![0, 2]);
    g.delete(0);
    g.delete(2);
    assert!(g.select_by_name("same").is_empty());
    assert!(g.ids_by_value(&Val::Num(1)).is_empty());
}

#[test]
fn delete_removes_the_backlinks_it_caused() {
    let mut g = Graph::new();
    for name in ["a", "b", "c"] {
        g.append(name, Val::Nothing);
    }
    assert_eq!(g.set_relations(0, vec![1, 2, 1]), Ok(()));
    assert_eq!(g.set_relations(2, vec![1]), Ok(()));
    assert_eq!(g.select_by_id(1).unwrap().backlinks, vec![0, 2]);
    g.delete(0);
    assert_eq!(g.select_by_id(1).unwrap().backlinks, vec![2]);
    assert!(g.select_by_id(2).unwrap().backlinks.is_empty());
}

#[test]
fn set_relations_moves_the_backlinks() {
    let mut g = Graph::new();
    for name in ["a", "b", "c", "d"] {
        g.append(name, Val::Nothing);
    }
    assert_eq!(g.set_relations(0, vec![1, 2]), Ok(()));
    assert_eq!(g.select_by_id(1).unwrap().backlinks, vec![0]);
    assert_eq!(g.select_by_id(2).unwrap().backlinks, vec![0]);
    assert_eq!(g.set_relations(0, vec![2, 3, 3]), Ok(()));
    assert_eq!(g.select_by_id(0).unwrap().relations, vec![2, 3, 3]);
    assert!(g.select_by_id(1).unwrap().backlinks.is_empty());
    assert_eq!(g.select_by_id(2).unwrap().backlinks, vec![0]);
    assert_eq!(g.select_by_id(3).unwrap().backlinks, vec![0]);
    assert_eq!(g.set_relations(0, vec![]), Ok(()));
    assert!(g.select_by_id(2).unwrap().backlinks.is_empty());
    assert!(g.select_by_id(3).unwrap().backlinks.is_empty());
}

#[test]
fn a_node_may_point_at_itself() {
    let mut g = Graph::new();
    g.append("a", Val::Nothing);
    assert_eq!(g.set_relations(0, vec![0]), Ok(()));
    assert_eq!(g.select_by_id(0).unwrap().relations, vec![0]);
    assert_eq!(g.select_by_id(0).unwrap().backlinks, vec![0]);
    assert_eq!(g.append_relations(0, vec![0]), Ok(()));
    assert_eq!(g.select_by_id(0).unwrap().relations, vec![0, 0]);
    assert_eq!(g.select_by_id(0).unwrap().backlinks, vec![0]);
    g.delete(0);
    assert_eq!(g.len(), 0);
}

#[test]
fn set_relations_refuses_a_missing_target_and_changes_nothing() {
    let mut g = Graph::new();
    for name in ["a", "b", "c"] {
        g.append(name, Val::Nothing);
    }
    assert_eq!(g.set_relations(0, vec![1]), Ok(()));
    assert_eq!(g.set_relations(0, vec![2, 7, 8]), Err(GraphError::InvalidReference(7)));
    assert_eq!(g.select_by_id(0).unwrap().relations, vec![1]);
    assert_eq!(g.select_by_id(1).unwrap().backlinks, vec![0]);
    assert!(g.select_by_id(2).unwrap().backlinks.is_empty());
    assert_eq!(g.set_relations(9, vec![1]), Err(GraphError::NotFound));
    assert_eq!(g.set_relations(9, vec![7]), Err(GraphError::NotFound));
}

#[test]
fn append_relations_extends_the_list() {
    let mut g = Graph::new();
    for name in ["a", "b", "c"] {
        g.append(name, Val::Nothing);
    }
    assert_eq!(g.set_relations(0, vec![1]), Ok(()));
    assert_eq!(g.append_relations(0, vec![2, 1]), Ok(()));
    assert_eq!(g.select_by_id(0).unwrap().relations, vec![1, 2, 1]);
    assert_eq!(g.select_by_id(1).unwrap().backlinks, vec![0]);
    assert_eq!(g.select_by_id(2).unwrap().backlinks, vec![0]);
    assert_eq!(g.append_relations(0, vec![1, 5]), Err(GraphError::InvalidReference(5)));
    assert_eq!(g.select_by_id(0).unwrap().relations, vec![1, 2, 1]);
    assert_eq!(g.append_relations(4, vec![]), Err(GraphError::NotFound));
}

#[test]
fn set_name_moves_the_node_between_buckets() {
    let mut g = Graph::new();
    g.append("a", Val::Nothing);
    g.append("a", Val::Nothing);
    g.append("b", Val::Nothing);
    assert_eq!(g.set_name(0, "b"), Ok(()));
    assert_eq!(ids(&g.select_by_name("a")), vec![1]);
    assert_eq!(ids(&g.select_by_name("b")), vec![2, 0]);
    assert_eq!(g.select_by_id(0).unwrap().name, "b");
    assert_eq!(g.set_name(1, "a"), Ok(()));
    assert_eq!(ids(&g.select_by_name("a")), vec![1]);
    assert_eq!(g.set_name(7, "x"), Err(GraphError::NotFound));
    assert!(g.select_by_name("x").is_empty());
}

#[test]
fn set_value_moves_the_node_between_buckets() {
    let mut g = Graph::new();
    g.append("a", Val::Num(1));
    g.append("b", Val::Txt("1".to_string()));
    g.append("c", Val::Bool(true));
    g.append("d", Val::Nothing);
    assert_eq!(ids(&g.select_by_value(1i64)), vec![0]);
    assert_eq!(ids(&g.select_by_value("1")), vec![1]);
    assert_eq!(ids(&g.select_by_value(true)), vec![2]);
    assert_eq!(ids(&g.select_by_value(())), vec![3]);
    assert!(g.select_by_value(false).is_empty());
    assert_eq!(g.set_value(0, Val::Nothing), Ok(()));
    assert_eq!(g.set_value(1, Val::Nothing), Ok(()));
    assert_eq!(g.set_value(2, false), Ok(()));
    assert_eq!(ids(&g.select_by_value(())), vec![3, 0, 1]);
    assert!(g.select_by_value(1i64).is_empty());
    assert!(g.select_by_value("1").is_empty());
    assert!(g.select_by_value(true).is_empty());
    assert_eq!(ids(&g.select_by_value(false)), vec![2]);
    assert_eq!(g.select_by_id(2).unwrap().value, Val::Bool(false));
    assert_eq!(g.set_value(9, 1i64), Err(GraphError::NotFound));
}

#[test]
fn select_follows_relations_and_backlinks() {
    let mut g = Graph::new();
    for name in ["a", "b", "c", "d"] {
        g.append(name, Val::Nothing);
    }
    assert_eq!(g.set_relations(0, vec![3, 1, 3]), Ok(()));
    assert_eq!(g.set_relations(2, vec![3]), Ok(()));
    assert_eq!(g.set_relations(1, vec![3]), Ok(()));
    assert_eq!(ids(&g.select_link(0)), vec![3, 1, 3]);
    assert_eq!(ids(&g.select_backlinks(3)), vec![0, 2, 1]);
    assert!(g.select_link(3).is_empty());
    assert!(g.select_backlinks(0).is_empty());
    assert!(g.select_link(17).is_empty());
    assert!(g.select_backlinks(17).is_empty());
}

#[test]
fn bounded_selection_returns_the_smaller_count() {
    let mut g = Graph::new();
    for _ in 0..5 {
        g.append("n", Val::Num(1));
    }
    for amount in 0..8usize {
        let expected = amount.min(5);
        assert_eq!(g.select_amount_by_name("n", amount, Orders::First).len(), expected);
        assert_eq!(g.select_amount_by_name("n", amount, Orders::Last).len(), expected);
        assert_eq!(g.select_amount_by_value(1i64, amount, Orders::First).len(), expected);
    }
    assert!(g.select_amount_by_name("none", 3, Orders::First).is_empty());
    assert!(g.select_amount_by_value(2i64, 3, Orders::Last).is_empty());
    assert!(g.select_amount_backlinks(0, 3, Orders::First).is_empty());
    assert!(g.select_amount_link(0, 3, Orders::First).is_empty());
    assert!(g.select_amount_link(99, 3, Orders::First).is_empty());
    assert_eq!(g.select_amount_by_name("n", usize::MAX, Orders::First).len(), 5);
}

#[test]
fn bounded_selection_goes_by_identifier() {
    let mut g = Graph::new();
    for _ in 0..4 {
        g.append("n", Val::Nothing);
    }
    assert_eq!(g.set_name(1, "m"), Ok(()));
    assert_eq!(g.set_name(1, "n"), Ok(()));
    assert_eq!(ids(&g.select_by_name("n")), vec![0, 2, 3, 1]);
    assert_eq!(ids(&g.select_amount_by_name("n", 3, Orders::First)), vec![0, 1, 2]);
    assert_eq!(ids(&g.select_amount_by_name("n", 3, Orders::Last)), vec![3, 2, 1]);
    assert_eq!(ids(&g.select_amount_by_name("n", 1, Orders::Last)), vec![3]);
    assert_eq!(ids(&g.select_amount_by_value((), 2, Orders::Last)), vec![3, 2]);
    assert_eq!(g.set_relations(0, vec![3, 1, 2, 1]), Ok(()));
    assert_eq!(ids(&g.select_amount_link(0, 3, Orders::First)), vec![1, 1, 2]);
    assert_eq!(ids(&g.select_amount_link(0, 2, Orders::Last)), vec![3, 2]);
    assert_eq!(g.set_relations(3, vec![1]), Ok(()));
    assert_eq!(g.set_relations(2, vec![1]), Ok(()));
    assert_eq!(ids(&g.select_backlinks(1)), vec![0, 3, 2]);
    assert_eq!(ids(&g.select_amount_backlinks(1, 2, Orders::First)), vec![0, 2]);
    assert_eq!(ids(&g.select_amount_backlinks(1, 5, Orders::Last)), vec![3, 2, 0]);
}

#[test]
fn bounded_selection_passes_over_deleted_targets() {
    let mut g = Graph::new();
    for name in ["a", "b", "c"] {
        g.append(name, Val::Nothing);
    }
    assert_eq!(g.set_relations(0, vec![2, 1]), Ok(()));
    g.delete(1);
    assert_eq!(ids(&g.select_link(0)), vec![2]);
    assert_eq!(ids(&g.select_amount_link(0, 2, Orders::First)), vec![2]);
    assert_eq!(g.select_amount_link(0, 2, Orders::Last).len(), 1);
}

#[test]
fn every_relation_to_a_node_is_matched_by_a_backlink() {
    let mut g = Graph::new();
    for i in 0..6 {
        g.append("n", Val::Num(i));
    }
    assert_eq!(g.set_relations(0, vec![1, 2, 3]), Ok(()));
    assert_eq!(g.append_relations(1, vec![0, 0, 5]), Ok(()));
    assert_eq!(g.set_relations(4, vec![4, 0]), Ok(()));
    g.delete(2);
    assert_eq!(g.set_relations(0, vec![5, 4]), Ok(()));
    g.insert("late", Val::Nothing, 9);
    assert_eq!(g.append_relations(9, vec![0, 9]), Ok(()));
    g.insert("back", Val::Nothing, 2);
    g.insert("over", Val::Nothing, 0);
    for a in g.ids() {
        let from = g.select_by_id(a).unwrap();
        for target in &from.relations {
            if let Some(to) = g.select_by_id(*target) {
                assert!(to.backlinks.contains(&a));
            }
        }
        for source in &from.backlinks {
            assert!(g.select_by_id(*source).unwrap().relations.contains(&a));
        }
    }
}

#[test]
fn ids_lists_every_node_once() {
    let mut g = Graph::new();
    for _ in 0..20 {
        g.append("n", Val::Nothing);
    }
    g.delete(7);
    let mut all = g.ids();
    all.sort();
    let expected: Vec<u64> = (0..20).filter(|i| *i != 7).collect();
    assert_eq!(all, expected);
    assert_eq!(g.len(), 19);
}
