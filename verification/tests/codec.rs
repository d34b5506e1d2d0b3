use daze::bytes::{push_i64_be, push_u64_be, read_i64_be, read_u64_be};
use daze::error::FormatError;
use daze::node::Node;
use daze::value::{Val, Wrappable};

fn node(id: u64, name: &str, value: Val, relations: Vec<u64>) -> Node {
    Node { name: name.to_string(), id, value, relations, backlinks: Vec::new() }
}

#[test]
fn u64_is_written_most_significant_byte_first() {
    let mut out = vec![9u8];
    push_u64_be(&mut out, 0x0102_0304_0506_0708);
    assert_eq!(out, vec![9, 1, 2, 3, 4, 5, 6, 7, 8]);
    assert_eq!(read_u64_be(&out, 1), 0x0102_0304_0506_0708);
}

#[test]
fn u64_extremes_round_trip() {
    for x in [0u64, 1, 255, 256, u64::MAX - 1, u64::MAX] {
        let mut out = Vec::new();
        push_u64_be(&mut out, x);
        assert_eq!(out, x.to_be_bytes().to_vec());
        assert_eq!(read_u64_be(&out, 0), x);
    }
}

#[test]
fn i64_is_written_in_twos_complement() {
    for x in [0i64, 1, -1, 5, -5, i64::MAX, i64::MIN, i64::MIN + 1] {
        let mut out = Vec::new();
        push_i64_be(&mut out, x);
        assert_eq!(out, x.to_be_bytes().to_vec());
        assert_eq!(read_i64_be(&out, 0), x);
    }
}

#[test]
fn value_records_are_tag_then_payload() {
    assert_eq!(Val::Nothing.to_bytes(), vec![0]);
    assert_eq!(Val::Num(5).to_bytes(), vec![1, 0, 0, 0, 0, 0, 0, 0, 5]);
    assert_eq!(Val::Num(-1).to_bytes(), vec![1, 255, 255, 255, 255, 255, 255, 255, 255]);
    assert_eq!(Val::Txt("hi".to_string()).to_bytes(), vec![2, b'h', b'i']);
    assert_eq!(Val::Txt(String::new()).to_bytes(), vec![2]);
    assert_eq!(Val::Bool(true).to_bytes(), vec![3, 1]);
    assert_eq!(Val::Bool(false).to_bytes(), vec![3, 0]);
}

#[test]
fn values_round_trip() {
    let values = vec![
        Val::Nothing,
        Val::Num(0),
        Val::Num(44),
        Val::Num(-7),
        Val::Num(i64::MIN),
        Val::Num(i64::MAX),
        Val::Txt(String::new()),
        Val::Txt("hi".to_string()),
        Val::Txt("a,b:c\nd".to_string()),
        Val::Txt("gr\u{fc}\u{df}e \u{1f600}".to_string()),
        Val::Bool(true),
        Val::Bool(false),
    ];
    for v in values {
        assert_eq!(Val::from_bytes(v.to_bytes()), Ok(v));
    }
}

#[test]
fn text_payload_becomes_a_string() {
    assert_eq!(Val::from_bytes(vec![2, b'h', b'i']), Ok(Val::Txt("hi".to_string())));
    assert_eq!(Val::from_bytes(vec![2, 0xc3, 0xbc]), Ok(Val::Txt("\u{fc}".to_string())));
}

#[test]
fn value_decoding_names_each_fault() {
    assert_eq!(Val::from_bytes(vec![]), Err(FormatError::Truncated));
    assert_eq!(Val::from_bytes(vec![1, 0, 0]), Err(FormatError::Truncated));
    assert_eq!(Val::from_bytes(vec![3]), Err(FormatError::Truncated));
    assert_eq!(Val::from_bytes(vec![0, 1]), Err(FormatError::TrailingBytes));
    assert_eq!(Val::from_bytes(vec![3, 1, 1]), Err(FormatError::TrailingBytes));
    assert_eq!(Val::from_bytes(vec![1, 0, 0, 0, 0, 0, 0, 0, 0, 0]), Err(FormatError::WrongWidth));
    assert_eq!(Val::from_bytes(vec![2, 0xff]), Err(FormatError::InvalidUtf8));
    assert_eq!(Val::from_bytes(vec![2, 0xc3]), Err(FormatError::InvalidUtf8));
    assert_eq!(Val::from_bytes(vec![4]), Err(FormatError::UnknownDiscriminant));
    assert_eq!(Val::from_bytes(vec![255, 1]), Err(FormatError::UnknownDiscriminant));
    assert_eq!(Val::from_bytes(vec![3, 2]), Err(FormatError::InvalidBool));
}

#[test]
fn values_of_different_kinds_differ() {
    assert_ne!(Val::Num(1), Val::Bool(true));
    assert_ne!(Val::Num(0), Val::Nothing);
    assert_ne!(Val::Txt("1".to_string()), Val::Num(1));
    assert_ne!(Val::Txt(String::new()), Val::Nothing);
    assert_eq!(Val::Txt("a".to_string()), Val::Txt("a".to_string()));
    assert_ne!(Val::Txt("a".to_string()), Val::Txt("b".to_string()));
    assert_eq!(Val::Num(3).clone(), Val::Num(3));
}

#[test]
fn wrapping_picks_the_kind() {
    assert_eq!(5i64.wrap(), Val::Num(5));
    assert_eq!("hi".wrap(), Val::Txt("hi".to_string()));
    assert_eq!("hi".to_string().wrap(), Val::Txt("hi".to_string()));
    assert_eq!(true.wrap(), Val::Bool(true));
    assert_eq!(().wrap(), Val::Nothing);
    assert_eq!(Val::Num(2).wrap(), Val::Num(2));
}

#[test]
fn node_record_is_fields_between_separators() {
    let n = node(1, "ab", Val::Bool(true), vec![2, 3]);
    let mut expected = vec![0, 0, 0, 0, 0, 0, 0, 1, b','];
    expected.extend_from_slice(b"ab,");
    expected.extend_from_slice(&[3, 1, b',']);
    expected.extend_from_slice(&[0, 0, 0, 0, 0, 0, 0, 2, b':']);
    expected.extend_from_slice(&[0, 0, 0, 0, 0, 0, 0, 3, b':']);
    expected.push(b'\n');
    assert_eq!(n.to_bytes(), expected);
}

#[test]
fn node_record_leaves_backlinks_out() {
    let mut n = node(7, "n", Val::Nothing, vec![]);
    let plain = n.to_bytes();
    n.backlinks = vec![1, 2, 3];
    assert_eq!(n.to_bytes(), plain);
    assert_eq!(plain, vec![0, 0, 0, 0, 0, 0, 0, 7, b',', b'n', b',', 0, b',', b'\n']);
}

fn assert_round_trip(n: &Node) {
    let back = Node::from_bytes(n.to_bytes()).unwrap();
    assert_eq!(back.id, n.id);
    assert_eq!(back.name, n.name);
    assert_eq!(back.value, n.value);
    assert_eq!(back.relations, n.relations);
    assert!(back.backlinks.is_empty());
}

#[test]
fn nodes_round_trip() {
    assert_round_trip(&node(0, "", Val::Nothing, vec![]));
    assert_round_trip(&node(1, "name", Val::Num(-3), vec![0, 1, 1, 2]));
    assert_round_trip(&node(2, "t", Val::Txt("some text".to_string()), vec![5]));
    assert_round_trip(&node(u64::MAX, "x", Val::Bool(false), vec![u64::MAX]));
}

#[test]
fn separator_bytes_inside_numbers_do_no_harm() {
    let mut n = node(44, "c", Val::Num(44), vec![44, 58, 0x2c3a, 10]);
    n.backlinks = vec![9];
    assert_round_trip(&n);
    assert_round_trip(&node(10, "nl", Val::Num(10), vec![]));
    assert_round_trip(&node(58, "colon: and newline\n in text", Val::Txt(":\n".to_string()), vec![]));
}

#[test]
fn record_may_end_without_line_feed() {
    let mut bytes = node(3, "n", Val::Bool(true), vec![1]).to_bytes();
    assert_eq!(bytes.pop(), Some(b'\n'));
    let back = Node::from_bytes(bytes).unwrap();
    assert_eq!(back.id, 3);
    assert_eq!(back.relations, vec![1]);
}

#[test]
fn decode_at_reads_one_record_and_says_where_the_next_starts() {
    let first = node(1, "a", Val::Nothing, vec![]).to_bytes();
    let second = node(2, "b", Val::Num(1), vec![1]).to_bytes();
    let mut both = first.clone();
    both.extend_from_slice(&second);
    let (n1, next) = Node::decode_at(&both, 0).unwrap();
    assert_eq!(n1.id, 1);
    assert_eq!(next, first.len());
    let (n2, end) = Node::decode_at(&both, next).unwrap();
    assert_eq!(n2.id, 2);
    assert_eq!(n2.relations, vec![1]);
    assert_eq!(end, both.len());
    assert_eq!(Node::from_bytes(both).err(), Some(FormatError::WrongWidth));
}

#[test]
fn node_decoding_names_each_fault() {
    let id = [0u8, 0, 0, 0, 0, 0, 0, 1];
    let rec = |tail: &[u8]| {
        let mut v = id.to_vec();
        v.extend_from_slice(tail);
        v
    };
    assert_eq!(Node::from_bytes(vec![]).err(), Some(FormatError::Truncated));
    assert_eq!(Node::from_bytes(vec![0, 0, 0]).err(), Some(FormatError::Truncated));
    assert_eq!(Node::from_bytes(id.to_vec()).err(), Some(FormatError::Truncated));
    assert_eq!(Node::from_bytes(rec(b";n,")).err(), Some(FormatError::WrongWidth));
    assert_eq!(Node::from_bytes(rec(b",name")).err(), Some(FormatError::MissingSeparator));
    assert_eq!(Node::from_bytes(rec(&[b',', 0xff, b','])).err(), Some(FormatError::InvalidUtf8));
    assert_eq!(Node::from_bytes(rec(b",n,")).err(), Some(FormatError::Truncated));
    assert_eq!(Node::from_bytes(rec(&[b',', b'n', b',', 9, b','])).err(), Some(FormatError::UnknownDiscriminant));
    assert_eq!(Node::from_bytes(rec(&[b',', b'n', b',', 1, 0, 0])).err(), Some(FormatError::Truncated));
    assert_eq!(Node::from_bytes(rec(&[b',', b'n', b',', 3])).err(), Some(FormatError::Truncated));
    assert_eq!(Node::from_bytes(rec(&[b',', b'n', b',', 3, 7, b','])).err(), Some(FormatError::InvalidBool));
    assert_eq!(Node::from_bytes(rec(&[b',', b'n', b',', 2, b'x'])).err(), Some(FormatError::MissingSeparator));
    assert_eq!(Node::from_bytes(rec(&[b',', b'n', b',', 2, 0xff, b','])).err(), Some(FormatError::InvalidUtf8));
    assert_eq!(Node::from_bytes(rec(&[b',', b'n', b',', 0])).err(), Some(FormatError::Truncated));
    assert_eq!(Node::from_bytes(rec(&[b',', b'n', b',', 0, b';'])).err(), Some(FormatError::WrongWidth));
    assert_eq!(Node::from_bytes(rec(&[b',', b'n', b',', 0, b',', 1, 2])).err(), Some(FormatError::Truncated));
    assert_eq!(
        Node::from_bytes(rec(&[b',', b'n', b',', 0, b',', 0, 0, 0, 0, 0, 0, 0, 2, b';'])).err(),
        Some(FormatError::WrongWidth)
    );
    assert_eq!(
        Node::from_bytes(rec(&[b',', b'n', b',', 0, b',', b'\n', 0])).err(),
        Some(FormatError::Truncated)
    );
}

#[test]
fn comma_in_a_name_moves_the_field_boundary() {
    let n = node(1, "a,b", Val::Nothing, vec![]);
    let back = Node::from_bytes(n.to_bytes());
    assert!(match back {
        Ok(m) => m.name != n.name,
        Err(_) => true,
    });
}

#[test]
fn cloned_node_has_the_same_fields() {
    let mut n = node(4, "n", Val::Txt("v".to_string()), vec![1, 2]);
    n.backlinks = vec![3];
    let c = n.clone();
    assert_eq!(c.id, 4);
    assert_eq!(c.name, "n");
    assert_eq!(c.value, Val::Txt("v".to_string()));
    assert_eq!(c.relations, vec![1, 2]);
    assert_eq!(c.backlinks, vec![3]);
}

#[test]
fn a_relation_may_start_with_a_line_feed() {
    let relations = vec![2, 0x0a00_0000_0000_0000, 3, 0x0a0a_0a0a_0a0a_0a0a];
    assert_round_trip(&node(1, "n", Val::Nothing, relations.clone()));
    assert_round_trip(&node(2, "", Val::Nothing, vec![0x0a00_0000_0000_0000]));
    let mut bytes = node(2, "", Val::Nothing, vec![0x0a00_0000_0000_0000]).to_bytes();
    assert_eq!(bytes.pop(), Some(b'\n'));
    assert_eq!(Node::from_bytes(bytes).unwrap().relations, vec![0x0a00_0000_0000_0000]);
    let mut bytes = node(1, "n", Val::Num(10), relations.clone()).to_bytes();
    assert_eq!(bytes.pop(), Some(b'\n'));
    assert_eq!(Node::from_bytes(bytes).unwrap().relations, relations);
}

#[test]
fn among_other_records_a_line_feed_ends_the_record() {
    let bytes = node(1, "n", Val::Nothing, vec![2, 0x0a00_0000_0000_0000]).to_bytes();
    let (first, next) = Node::decode_at(&bytes, 0).unwrap();
    assert_eq!(first.relations, vec![2]);
    assert!(next < bytes.len());
}
