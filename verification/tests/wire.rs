use daze::graph::Graph;
use daze::value::Val;
use daze::wire::{frame_text, parse_request, serve, Frame, Outcome, ProtocolError, Request};

fn text(s: &str) -> Vec<u8> {
    let mut v = (s.len() as u64).to_be_bytes().to_vec();
    v.extend_from_slice(s.as_bytes());
    v
}

fn with(op: u8, parts: &[Vec<u8>]) -> Vec<u8> {
    let mut v = vec![op];
    for p in parts {
        v.extend_from_slice(p);
    }
    v
}

fn num(x: u64) -> Vec<u8> {
    x.to_be_bytes().to_vec()
}

#[test]
fn requests_without_arguments() {
    assert!(matches!(parse_request(&vec![0]), Frame::Complete(Request::Shutdown, 1)));
    assert!(matches!(parse_request(&vec![1, 9, 9]), Frame::Complete(Request::Print, 1)));
    assert!(matches!(parse_request(&vec![10]), Frame::Complete(Request::Render, 1)));
    assert!(matches!(parse_request(&vec![]), Frame::Incomplete));
}

#[test]
fn unknown_opcode_is_refused() {
    assert!(matches!(
        parse_request(&vec![11]),
        Frame::Invalid(ProtocolError::UnknownOpcode(11))
    ));
    assert!(matches!(
        parse_request(&vec![255, 0]),
        Frame::Invalid(ProtocolError::UnknownOpcode(255))
    ));
}

#[test]
fn requests_with_a_name() {
    let bytes = with(3, &[text("test.dz")]);
    match parse_request(&bytes) {
        Frame::Complete(Request::Save { name }, used) => {
            assert_eq!(name, "test.dz");
            assert_eq!(used, bytes.len());
        },
        other => panic!("{:?}", other),
    }
    match parse_request(&with(2, &[text(""), vec![7]])) {
        Frame::Complete(Request::Open { name }, used) => {
            assert_eq!(name, "");
            assert_eq!(used, 9);
        },
        other => panic!("{:?}", other),
    }
    assert!(matches!(parse_request(&bytes[..bytes.len() - 1].to_vec()), Frame::Incomplete));
    assert!(matches!(parse_request(&bytes[..5].to_vec()), Frame::Incomplete));
    assert!(matches!(
        parse_request(&with(3, &[num(1), vec![0xff]])),
        Frame::Invalid(ProtocolError::InvalidUtf8)
    ));
    assert!(matches!(parse_request(&with(3, &[num(u64::MAX), vec![b'a']])), Frame::Incomplete));
}

#[test]
fn append_carries_a_name_and_a_value() {
    let cases: Vec<(Vec<u8>, Val)> = vec![
        (vec![0], Val::Nothing),
        (with(1, &[(-2i64).to_be_bytes().to_vec()]), Val::Num(-2)),
        (with(2, &[text("hi")]), Val::Txt("hi".to_string())),
        (vec![3, 0], Val::Bool(false)),
        (vec![3, 1], Val::Bool(true)),
    ];
    for (payload, expected) in cases {
        let bytes = with(4, &[text("n1"), payload]);
        match parse_request(&bytes) {
            Frame::Complete(Request::Append { name, value }, used) => {
                assert_eq!(name, "n1");
                assert_eq!(value, expected);
                assert_eq!(used, bytes.len());
            },
            other => panic!("{:?}", other),
        }
        assert!(matches!(parse_request(&bytes[..bytes.len() - 1].to_vec()), Frame::Incomplete));
    }
    assert!(matches!(
        parse_request(&with(4, &[text("n"), vec![4]])),
        Frame::Invalid(ProtocolError::UnknownKind(4))
    ));
    assert!(matches!(
        parse_request(&with(4, &[text("n"), vec![3, 2]])),
        Frame::Invalid(ProtocolError::InvalidBool(2))
    ));
    assert!(matches!(
        parse_request(&with(4, &[text("n"), vec![2], num(2), vec![0xc3, 0x28]])),
        Frame::Invalid(ProtocolError::InvalidUtf8)
    ));
}

#[test]
fn the_other_requests() {
    match parse_request(&with(5, &[text("x"), vec![3, 1], num(5)])) {
        Frame::Complete(Request::Insert { name, value, id }, used) => {
            assert_eq!((name.as_str(), value, id, used), ("x", Val::Bool(true), 5, 20));
        },
        other => panic!("{:?}", other),
    }
    assert!(matches!(parse_request(&with(5, &[text("x"), vec![3, 1], vec![0; 7]])), Frame::Incomplete));
    assert!(matches!(
        parse_request(&with(6, &[num(77)])),
        Frame::Complete(Request::Delete { id: 77 }, 9)
    ));
    match parse_request(&with(7, &[num(1), num(3), num(4), num(5), num(4)])) {
        Frame::Complete(Request::SetRelations { id, relations }, used) => {
            assert_eq!((id, relations, used), (1, vec![4, 5, 4], 41));
        },
        other => panic!("{:?}", other),
    }
    match parse_request(&with(7, &[num(1), num(0)])) {
        Frame::Complete(Request::SetRelations { id, relations }, used) => {
            assert_eq!((id, relations, used), (1, vec![], 17));
        },
        other => panic!("{:?}", other),
    }
    assert!(matches!(parse_request(&with(7, &[num(1), num(2), num(4)])), Frame::Incomplete));
    assert!(matches!(parse_request(&with(7, &[num(1), num(u64::MAX)])), Frame::Incomplete));
    match parse_request(&with(8, &[num(2), text("new")])) {
        Frame::Complete(Request::SetName { id, name }, used) => {
            assert_eq!((id, name.as_str(), used), (2, "new", 20));
        },
        other => panic!("{:?}", other),
    }
    match parse_request(&with(9, &[num(2), vec![1], 9i64.to_be_bytes().to_vec()])) {
        Frame::Complete(Request::SetValue { id, value }, used) => {
            assert_eq!((id, value, used), (2, Val::Num(9), 18));
        },
        other => panic!("{:?}", other),
    }
}

#[test]
fn texts_are_sent_behind_their_length() {
    assert_eq!(frame_text(""), vec![0, 0, 0, 0, 0, 0, 0, 0]);
    assert_eq!(frame_text("ab"), vec![0, 0, 0, 0, 0, 0, 0, 2, b'a', b'b']);
    assert_eq!(frame_text("\u{fc}"), vec![0, 0, 0, 0, 0, 0, 0, 2, 0xc3, 0xbc]);
}

#[test]
fn serving_changes_the_graph_and_says_what_to_send() {
    let mut g = Graph::new();
    match serve(&mut g, Request::Append { name: "n1".to_string(), value: Val::Num(5) }) {
        Outcome::Reply(bytes) => assert_eq!(bytes, vec![0, 0, 0, 0, 0, 0, 0, 0]),
        other => panic!("{:?}", other),
    }
    match serve(&mut g, Request::Append { name: "n2".to_string(), value: Val::Nothing }) {
        Outcome::Reply(bytes) => assert_eq!(bytes, vec![0, 0, 0, 0, 0, 0, 0, 1]),
        other => panic!("{:?}", other),
    }
    assert!(matches!(
        serve(&mut g, Request::Insert { name: "x".to_string(), value: Val::Nothing, id: 5 }),
        Outcome::Silent
    ));
    assert!(matches!(
        serve(&mut g, Request::Insert { name: "x".to_string(), value: Val::Nothing, id: u64::MAX }),
        Outcome::Close
    ));
    assert_eq!(g.len(), 3);
    assert!(matches!(
        serve(&mut g, Request::SetRelations { id: 0, relations: vec![1, 5] }),
        Outcome::Silent
    ));
    assert_eq!(g.select_by_id(0).unwrap().relations, vec![1, 5]);
    assert!(matches!(
        serve(&mut g, Request::SetRelations { id: 0, relations: vec![9] }),
        Outcome::Silent
    ));
    assert_eq!(g.select_by_id(0).unwrap().relations, vec![1, 5]);
    assert!(matches!(serve(&mut g, Request::SetName { id: 1, name: "m".to_string() }), Outcome::Silent));
    assert_eq!(g.select_by_id(1).unwrap().name, "m");
    assert!(matches!(serve(&mut g, Request::SetValue { id: 1, value: Val::Bool(true) }), Outcome::Silent));
    assert_eq!(g.select_by_id(1).unwrap().value, Val::Bool(true));
    assert!(matches!(serve(&mut g, Request::Delete { id: 5 }), Outcome::Silent));
    assert!(!g.contains(5));
    assert!(matches!(serve(&mut g, Request::Open { name: "f".to_string() }), Outcome::Silent));
    assert!(matches!(serve(&mut g, Request::Shutdown), Outcome::Close));
    assert_eq!(g.len(), 2);
}

#[test]
fn serving_reads_sends_the_graph() {
    let mut g = Graph::new();
    g.append("a", Val::Bool(true));
    let listing = g.to_text();
    match serve(&mut g, Request::Print) {
        Outcome::Reply(bytes) => assert_eq!(bytes, frame_text(&listing)),
        other => panic!("{:?}", other),
    }
    match serve(&mut g, Request::Save { name: "test.dz".to_string() }) {
        Outcome::Save { path, data, reply } => {
            assert_eq!(path, "test.dz");
            assert_eq!(data, g.to_bytes());
            assert_eq!(reply, frame_text("Wrote file: [test.dz]"));
        },
        other => panic!("{:?}", other),
    }
    match serve(&mut g, Request::Render) {
        Outcome::Draw { dot } => assert_eq!(dot, g.print_graph()),
        other => panic!("{:?}", other),
    }
}

#[test]
fn what_is_sent_is_read_back() {
    let requests = vec![
        Request::Shutdown,
        Request::Print,
        Request::Open { name: "f".to_string() },
        Request::Save { name: "test.dz".to_string() },
        Request::Append { name: "n1".to_string(), value: Val::Num(5) },
        Request::Append { name: "".to_string(), value: Val::Txt("a, b".to_string()) },
        Request::Insert { name: "x".to_string(), value: Val::Bool(true), id: 5 },
        Request::Delete { id: u64::MAX },
        Request::SetRelations { id: 1, relations: vec![0, 10, 44] },
        Request::SetRelations { id: 1, relations: vec![] },
        Request::SetName { id: 2, name: "gr\u{fc}n".to_string() },
        Request::SetValue { id: 3, value: Val::Nothing },
        Request::Render,
    ];
    for request in requests {
        let mut bytes = request.to_bytes();
        let sent = bytes.len();
        bytes.extend_from_slice(&[1, 2, 3]);
        match parse_request(&bytes) {
            Frame::Complete(back, used) => {
                assert_eq!(used, sent);
                assert_eq!(format!("{:?}", back), format!("{:?}", request));
            },
            other => panic!("{:?}", other),
        }
        if sent > 1 {
            assert!(matches!(parse_request(&bytes[..sent - 1].to_vec()), Frame::Incomplete));
        }
    }
    assert_eq!(Request::Save { name: "test.dz".to_string() }.to_bytes(), with(3, &[text("test.dz")]));
    assert_eq!(
        Request::SetRelations { id: 1, relations: vec![2] }.to_bytes(),
        with(7, &[num(1), num(1), num(2)])
    );
}
