use daze::error::FormatError;
use daze::graph::Graph;
use daze::node::Node;
use daze::value::Val;

fn record(id: u64, name: &str, value: Val, relations: Vec<u64>) -> Vec<u8> {
    Node { name: name.to_string(), id, value, relations, backlinks: Vec::new() }.to_bytes()
}

fn sorted(mut v: Vec<u64>) -> Vec<u64> {
    v.sort();
    v
}

#[test]
fn empty_graph_has_no_bytes() {
    assert!(Graph::new().to_bytes().is_empty());
    let g = Graph::from_bytes(Vec::new()).unwrap();
    assert_eq!(g.len(), 0);
    assert_eq!(g.next_id(), 0);
}

#[test]
fn one_node_is_one_record() {
    let mut g = Graph::new();
    g.append("n", Val::Num(1));
    assert_eq!(g.to_bytes(), record(0, "n", Val::Num(1), vec![]));
}

#[test]
fn snapshot_holds_every_record_once() {
    let mut g = Graph::new();
    g.append("a", Val::Nothing);
    g.append("b", Val::Bool(true));
    g.append("c", Val::Txt("t".to_string()));
    assert_eq!(g.set_relations(0, vec![1, 2]), Ok(()));
    let bytes = g.to_bytes();
    let records = [
        record(0, "a", Val::Nothing, vec![1, 2]),
        record(1, "b", Val::Bool(true), vec![]),
        record(2, "c", Val::Txt("t".to_string()), vec![]),
    ];
    assert_eq!(bytes.len(), records.iter().map(|r| r.len()).sum::<usize>());
    let mut at = 0;
    let mut seen = Vec::new();
    while at < bytes.len() {
        let (n, next) = Node::decode_at(&bytes, at).unwrap();
        assert_eq!(&bytes[at..next], &records[n.id as usize][..]);
        seen.push(n.id);
        at = next;
    }
    assert_eq!(sorted(seen), vec![0, 1, 2]);
}

#[test]
fn graph_comes_back_from_its_bytes() {
    let mut g = Graph::new();
    for i in 0..60u64 {
        g.append(if i % 2 == 0 { "even" } else { "odd" }, Val::Num(i as i64 % 3));
    }
    for i in 0..60u64 {
        assert_eq!(g.set_relations(i, vec![(i + 1) % 60, (i * 7) % 60, 10, 44, 58]), Ok(()));
    }
    g.insert("big", Val::Txt("colon: line\nfeed".to_string()), 0x2c3a_0a00);
    assert_eq!(g.append_relations(3, vec![0x2c3a_0a00]), Ok(()));
    let h = Graph::from_bytes(g.to_bytes()).unwrap();
    assert_eq!(sorted(h.ids()), sorted(g.ids()));
    for id in g.ids() {
        let a = g.select_by_id(id).unwrap();
        let b = h.select_by_id(id).unwrap();
        assert_eq!(b.id, id);
        assert_eq!(b.name, a.name);
        assert_eq!(b.value, a.value);
        assert_eq!(b.relations, a.relations);
        assert_eq!(sorted(b.backlinks.clone()), sorted(a.backlinks.clone()));
    }
    assert_eq!(
        sorted(h.ids_by_name("even")),
        sorted(g.ids_by_name("even"))
    );
    assert_eq!(sorted(h.ids_by_value(&Val::Num(2))), sorted(g.ids_by_value(&Val::Num(2))));
    assert_eq!(h.next_id(), 0x2c3a_0a01);
}

#[test]
fn record_order_does_not_matter() {
    let a = record(1, "a", Val::Nothing, vec![2, 3]);
    let b = record(2, "b", Val::Nothing, vec![3]);
    let c = record(3, "c", Val::Nothing, vec![1]);
    let orders: [[&Vec<u8>; 3]; 3] = [[&a, &b, &c], [&c, &b, &a], [&b, &a, &c]];
    for order in orders {
        let mut bytes = Vec::new();
        for r in order {
            bytes.extend_from_slice(r);
        }
        let g = Graph::from_bytes(bytes).unwrap();
        assert_eq!(sorted(g.ids()), vec![1, 2, 3]);
        assert_eq!(g.select_by_id(1).unwrap().relations, vec![2, 3]);
        assert_eq!(sorted(g.select_by_id(1).unwrap().backlinks.clone()), vec![3]);
        assert_eq!(sorted(g.select_by_id(2).unwrap().backlinks.clone()), vec![1]);
        assert_eq!(sorted(g.select_by_id(3).unwrap().backlinks.clone()), vec![1, 2]);
        assert_eq!(g.next_id(), 4);
    }
}

#[test]
fn loading_files_the_nodes_in_both_indices() {
    let mut bytes = record(4, "n", Val::Bool(true), vec![]);
    bytes.extend_from_slice(&record(2, "n", Val::Bool(true), vec![4]));
    let mut g = Graph::from_bytes(bytes).unwrap();
    assert_eq!(g.ids_by_name("n"), vec![4, 2]);
    assert_eq!(g.ids_by_value(&Val::Bool(true)), vec![4, 2]);
    assert_eq!(g.append("m", Val::Nothing), 5);
}

#[test]
fn empty_lines_between_records_are_passed_over() {
    let mut bytes = vec![b'\n'];
    bytes.extend_from_slice(&record(1, "a", Val::Nothing, vec![]));
    bytes.extend_from_slice(b"\n\n");
    bytes.extend_from_slice(&record(2, "b", Val::Nothing, vec![1]));
    bytes.push(b'\n');
    let g = Graph::from_bytes(bytes).unwrap();
    assert_eq!(sorted(g.ids()), vec![1, 2]);
    assert_eq!(g.select_by_id(1).unwrap().backlinks, vec![2]);
}

#[test]
fn last_record_may_lack_its_line_feed() {
    let mut bytes = record(1, "a", Val::Nothing, vec![]);
    bytes.extend_from_slice(&record(2, "b", Val::Nothing, vec![1]));
    bytes.pop();
    let g = Graph::from_bytes(bytes).unwrap();
    assert_eq!(g.select_by_id(2).unwrap().relations, vec![1]);
}

#[test]
fn relation_to_a_missing_record_is_refused() {
    let mut bytes = record(1, "a", Val::Nothing, vec![2]);
    bytes.extend_from_slice(&record(2, "b", Val::Nothing, vec![1, 9]));
    assert_eq!(Graph::from_bytes(bytes).err(), Some(FormatError::DanglingRelation(9)));
}

#[test]
fn snapshot_with_a_dangling_relation_does_not_load() {
    let mut g = Graph::new();
    g.append("a", Val::Nothing);
    g.append("b", Val::Nothing);
    assert_eq!(g.set_relations(0, vec![1]), Ok(()));
    g.delete(1);
    assert_eq!(Graph::from_bytes(g.to_bytes()).err(), Some(FormatError::DanglingRelation(1)));
}

#[test]
fn two_records_with_one_identifier_are_refused() {
    let mut bytes = record(1, "a", Val::Nothing, vec![]);
    bytes.extend_from_slice(&record(1, "b", Val::Nothing, vec![]));
    assert_eq!(Graph::from_bytes(bytes).err(), Some(FormatError::DuplicateId(1)));
}

#[test]
fn the_largest_identifier_is_refused() {
    let bytes = record(u64::MAX, "a", Val::Nothing, vec![]);
    assert_eq!(Graph::from_bytes(bytes).err(), Some(FormatError::IdOutOfRange));
}

#[test]
fn a_broken_record_fails_the_whole_load() {
    let mut bytes = record(1, "a", Val::Nothing, vec![]);
    bytes.extend_from_slice(&[0, 0, 0, 0, 0, 0, 0, 2, b',', b'b', b',', 7, b',', b'\n']);
    assert_eq!(Graph::from_bytes(bytes).err(), Some(FormatError::UnknownDiscriminant));
    assert_eq!(Graph::from_bytes(vec![1, 2, 3]).err(), Some(FormatError::Truncated));
}
