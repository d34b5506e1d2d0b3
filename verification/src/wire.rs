//! The requests that come over a connection, as bytes: one opcode byte,
//! then the arguments, every number big-endian and every text behind its
//! length in bytes.

use vstd::prelude::*;
use vstd::utf8::{decode_utf8, encode_utf8, valid_utf8};
use vstd::utf8::{encode_utf8_decode_utf8, encode_utf8_valid_utf8};
use crate::bytes::{be_i64, be_u64, i64_be, lemma_be_i64_of_i64_be, lemma_be_u64_of_u64_be};
use crate::bytes::{push_i64_be, push_u64_be, read_i64_be, read_u64_be, u64_be};
use vstd::string::StringExecFns;
use crate::graph::Graph;
use crate::history::Step;
use crate::model::GraphView;
use crate::render::{is_dot, is_listing};
use crate::snapshot::is_snapshot;
use crate::value::{copy_range, push_str_bytes, string_from_utf8};
use crate::value::{Val, ValView, TAG_BOOL, TAG_NOTHING, TAG_NUM, TAG_TXT};

verus! {

/// Opcode: end the connection.
pub const OP_SHUTDOWN: u8 = 0;

/// Opcode: send the graph as text.
pub const OP_PRINT: u8 = 1;

/// Opcode: reserved for opening a file.
pub const OP_OPEN: u8 = 2;

/// Opcode: write the graph to a file.
pub const OP_SAVE: u8 = 3;

/// Opcode: append a node.
pub const OP_APPEND: u8 = 4;

/// Opcode: insert a node under a given identifier.
pub const OP_INSERT: u8 = 5;

/// Opcode: delete a node.
pub const OP_DELETE: u8 = 6;

/// Opcode: replace the relations of a node.
pub const OP_SET_RELATIONS: u8 = 7;

/// Opcode: rename a node.
pub const OP_SET_NAME: u8 = 8;

/// Opcode: give a node another value.
pub const OP_SET_VALUE: u8 = 9;

/// Opcode: draw the graph.
pub const OP_RENDER: u8 = 10;

/// A request of a client.
#[derive(Debug)]
pub enum Request {
    Shutdown,
    Print,
    Open { name: String },
    Save { name: String },
    Append { name: String, value: Val },
    Insert { name: String, value: Val, id: u64 },
    Delete { id: u64 },
    SetRelations { id: u64, relations: Vec<u64> },
    SetName { id: u64, name: String },
    SetValue { id: u64, value: Val },
    Render,
}

/// What a [`Request`] stands for.
pub enum RequestView {
    Shutdown,
    Print,
    Open { name: Seq<char> },
    Save { name: Seq<char> },
    Append { name: Seq<char>, value: ValView },
    Insert { name: Seq<char>, value: ValView, id: u64 },
    Delete { id: u64 },
    SetRelations { id: u64, relations: Seq<u64> },
    SetName { id: u64, name: Seq<char> },
    SetValue { id: u64, value: ValView },
    Render,
}

impl View for Request {
    type V = RequestView;

    open spec fn view(&self) -> RequestView {
        match self {
            Request::Shutdown => RequestView::Shutdown,
            Request::Print => RequestView::Print,
            Request::Open { name } => RequestView::Open { name: name@ },
            Request::Save { name } => RequestView::Save { name: name@ },
            Request::Append { name, value } => RequestView::Append { name: name@, value: value@ },
            Request::Insert { name, value, id } => RequestView::Insert {
                name: name@,
                value: value@,
                id: *id,
            },
            Request::Delete { id } => RequestView::Delete { id: *id },
            Request::SetRelations { id, relations } => RequestView::SetRelations {
                id: *id,
                relations: relations@,
            },
            Request::SetName { id, name } => RequestView::SetName { id: *id, name: name@ },
            Request::SetValue { id, value } => RequestView::SetValue { id: *id, value: value@ },
            Request::Render => RequestView::Render,
        }
    }
}

/// Why the bytes of a connection are no request.
#[derive(Clone, Copy, Debug, PartialEq, Eq, Structural)]
pub enum ProtocolError {
    /// The opcode is none of the eleven.
    UnknownOpcode(u8),
    /// The kind of a value is none of the four.
    UnknownKind(u8),
    /// The payload of a boolean is neither 0 nor 1.
    InvalidBool(u8),
    /// A name or a text is not UTF-8.
    InvalidUtf8,
}

/// What was found at the head of some bytes: a whole item and the place
/// behind it, the start of an item whose end has not arrived, or bytes
/// that start no item.
pub enum Scan<T> {
    Done(T, int),
    More,
    Bad(ProtocolError),
}

/// What the bytes received so far hold: a whole request and the count of
/// its bytes, the start of one, or none.
#[derive(Debug)]
pub enum Frame {
    Complete(Request, usize),
    Incomplete,
    Invalid(ProtocolError),
}

impl Frame {
    /// What this frame stands for.
    pub open spec fn scan(self) -> Scan<RequestView> {
        match self {
            Frame::Complete(r, used) => Scan::Done(r@, used as int),
            Frame::Incomplete => Scan::More,
            Frame::Invalid(e) => Scan::Bad(e),
        }
    }
}

/// The number in the eight bytes at `p`.
pub open spec fn scan_u64(b: Seq<u8>, p: int) -> Scan<u64> {
    if p + 8 > b.len() {
        Scan::More
    } else {
        Scan::Done(be_u64(b.subrange(p, p + 8)), p + 8)
    }
}

/// The text at `p`: its length in bytes as a number, then the bytes.
pub open spec fn scan_text(b: Seq<u8>, p: int) -> Scan<Seq<char>> {
    match scan_u64(b, p) {
        Scan::More => Scan::More,
        Scan::Bad(e) => Scan::Bad(e),
        Scan::Done(n, q) => if q + n > b.len() {
            Scan::More
        } else if !valid_utf8(b.subrange(q, q + n)) {
            Scan::Bad(ProtocolError::InvalidUtf8)
        } else {
            Scan::Done(decode_utf8(b.subrange(q, q + n)), q + n)
        },
    }
}

/// The value at `p`: its kind, then the payload of that kind.
pub open spec fn scan_value(b: Seq<u8>, p: int) -> Scan<ValView> {
    if p >= b.len() {
        Scan::More
    } else if b[p] == TAG_NOTHING {
        Scan::Done(ValView::Nothing, p + 1)
    } else if b[p] == TAG_NUM {
        if p + 9 > b.len() {
            Scan::More
        } else {
            Scan::Done(ValView::Num(be_i64(b.subrange(p + 1, p + 9))), p + 9)
        }
    } else if b[p] == TAG_TXT {
        match scan_text(b, p + 1) {
            Scan::More => Scan::More,
            Scan::Bad(e) => Scan::Bad(e),
            Scan::Done(t, q) => Scan::Done(ValView::Txt(t), q),
        }
    } else if b[p] == TAG_BOOL {
        if p + 2 > b.len() {
            Scan::More
        } else if b[p + 1] == 0 {
            Scan::Done(ValView::Bool(false), p + 2)
        } else if b[p + 1] == 1 {
            Scan::Done(ValView::Bool(true), p + 2)
        } else {
            Scan::Bad(ProtocolError::InvalidBool(b[p + 1]))
        }
    } else {
        Scan::Bad(ProtocolError::UnknownKind(b[p]))
    }
}

/// The `n` numbers from `p` on, eight bytes each.
pub open spec fn numbers_at(b: Seq<u8>, p: int, n: nat) -> Seq<u64> {
    Seq::new(n, |i: int| be_u64(b.subrange(p + 8 * i, p + 8 * i + 8)))
}

/// The list of numbers at `p`: their count as a number, then the numbers.
pub open spec fn scan_list(b: Seq<u8>, p: int) -> Scan<Seq<u64>> {
    match scan_u64(b, p) {
        Scan::More => Scan::More,
        Scan::Bad(e) => Scan::Bad(e),
        Scan::Done(n, q) => if q + 8 * n > b.len() {
            Scan::More
        } else {
            Scan::Done(numbers_at(b, q, n as nat), q + 8 * n)
        },
    }
}

/// The name and the value at `p`.
pub open spec fn scan_name_value(b: Seq<u8>, p: int) -> Scan<(Seq<char>, ValView)> {
    match scan_text(b, p) {
        Scan::More => Scan::More,
        Scan::Bad(e) => Scan::Bad(e),
        Scan::Done(name, q) => match scan_value(b, q) {
            Scan::More => Scan::More,
            Scan::Bad(e) => Scan::Bad(e),
            Scan::Done(value, r) => Scan::Done((name, value), r),
        },
    }
}

/// The request at the head of `b`.
pub open spec fn scan_request(b: Seq<u8>) -> Scan<RequestView> {
    if b.len() == 0 {
        Scan::More
    } else if b[0] == OP_SHUTDOWN {
        Scan::Done(RequestView::Shutdown, 1)
    } else if b[0] == OP_PRINT {
        Scan::Done(RequestView::Print, 1)
    } else if b[0] == OP_OPEN {
        match scan_text(b, 1) {
            Scan::More => Scan::More,
            Scan::Bad(e) => Scan::Bad(e),
            Scan::Done(name, q) => Scan::Done(RequestView::Open { name }, q),
        }
    } else if b[0] == OP_SAVE {
        match scan_text(b, 1) {
            Scan::More => Scan::More,
            Scan::Bad(e) => Scan::Bad(e),
            Scan::Done(name, q) => Scan::Done(RequestView::Save { name }, q),
        }
    } else if b[0] == OP_APPEND {
        match scan_name_value(b, 1) {
            Scan::More => Scan::More,
            Scan::Bad(e) => Scan::Bad(e),
            Scan::Done(nv, q) => Scan::Done(RequestView::Append { name: nv.0, value: nv.1 }, q),
        }
    } else if b[0] == OP_INSERT {
        match scan_name_value(b, 1) {
            Scan::More => Scan::More,
            Scan::Bad(e) => Scan::Bad(e),
            Scan::Done(nv, q) => match scan_u64(b, q) {
                Scan::More => Scan::More,
                Scan::Bad(e) => Scan::Bad(e),
                Scan::Done(id, r) => Scan::Done(
                    RequestView::Insert { name: nv.0, value: nv.1, id },
                    r,
                ),
            },
        }
    } else if b[0] == OP_DELETE {
        match scan_u64(b, 1) {
            Scan::More => Scan::More,
            Scan::Bad(e) => Scan::Bad(e),
            Scan::Done(id, q) => Scan::Done(RequestView::Delete { id }, q),
        }
    } else if b[0] == OP_SET_RELATIONS {
        match scan_u64(b, 1) {
            Scan::More => Scan::More,
            Scan::Bad(e) => Scan::Bad(e),
            Scan::Done(id, q) => match scan_list(b, q) {
                Scan::More => Scan::More,
                Scan::Bad(e) => Scan::Bad(e),
                Scan::Done(relations, r) => Scan::Done(
                    RequestView::SetRelations { id, relations },
                    r,
                ),
            },
        }
    } else if b[0] == OP_SET_NAME {
        match scan_u64(b, 1) {
            Scan::More => Scan::More,
            Scan::Bad(e) => Scan::Bad(e),
            Scan::Done(id, q) => match scan_text(b, q) {
                Scan::More => Scan::More,
                Scan::Bad(e) => Scan::Bad(e),
                Scan::Done(name, r) => Scan::Done(RequestView::SetName { id, name }, r),
            },
        }
    } else if b[0] == OP_SET_VALUE {
        match scan_u64(b, 1) {
            Scan::More => Scan::More,
            Scan::Bad(e) => Scan::Bad(e),
            Scan::Done(id, q) => match scan_value(b, q) {
                Scan::More => Scan::More,
                Scan::Bad(e) => Scan::Bad(e),
                Scan::Done(value, r) => Scan::Done(RequestView::SetValue { id, value }, r),
            },
        }
    } else if b[0] == OP_RENDER {
        Scan::Done(RequestView::Render, 1)
    } else {
        Scan::Bad(ProtocolError::UnknownOpcode(b[0]))
    }
}

/// What an executable scan found: an item and the place behind it, or why
/// there is none yet.
enum Found<T> {
    Item(T, usize),
    Short,
    Wrong(ProtocolError),
}

/// Reads the number at `p`.
fn number_at(bytes: &Vec<u8>, p: usize) -> (r: Option<(u64, usize)>)
    requires
        p <= bytes.len(),
    ensures
        match r {
            Some((x, q)) => scan_u64(bytes@, p as int) == Scan::Done(x, q as int) && q == p + 8
                && q <= bytes.len(),
            None => scan_u64(bytes@, p as int) == Scan::<u64>::More,
        },
{
    if bytes.len() - p < 8 {
        None
    } else {
        Some((read_u64_be(bytes, p), p + 8))
    }
}

/// Reads the text at `p`.
fn text_at(bytes: &Vec<u8>, p: usize) -> (r: Found<String>)
    requires
        p <= bytes.len(),
    ensures
        match r {
            Found::Item(s, q) => scan_text(bytes@, p as int) == Scan::Done(s@, q as int) && p < q
                <= bytes.len(),
            Found::Short => scan_text(bytes@, p as int) == Scan::<Seq<char>>::More,
            Found::Wrong(e) => scan_text(bytes@, p as int) == Scan::<Seq<char>>::Bad(e),
        },
{
    match number_at(bytes, p) {
        None => Found::Short,
        Some((n, q)) => {
            if n > (bytes.len() - q) as u64 {
                return Found::Short;
            }
            let end = q + n as usize;
            match string_from_utf8(copy_range(bytes, q, end)) {
                Some(s) => {
                    proof {
                        encode_utf8_decode_utf8(s@);
                    }
                    Found::Item(s, end)
                },
                None => Found::Wrong(ProtocolError::InvalidUtf8),
            }
        },
    }
}

/// Reads the value at `p`.
fn value_at(bytes: &Vec<u8>, p: usize) -> (r: Found<Val>)
    requires
        p <= bytes.len(),
    ensures
        match r {
            Found::Item(v, q) => scan_value(bytes@, p as int) == Scan::Done(v@, q as int) && p < q
                <= bytes.len(),
            Found::Short => scan_value(bytes@, p as int) == Scan::<ValView>::More,
            Found::Wrong(e) => scan_value(bytes@, p as int) == Scan::<ValView>::Bad(e),
        },
{
    let n = bytes.len();
    if p >= n {
        return Found::Short;
    }
    let kind = bytes[p];
    if kind == TAG_NOTHING {
        Found::Item(Val::Nothing, p + 1)
    } else if kind == TAG_NUM {
        if n - p < 9 {
            Found::Short
        } else {
            Found::Item(Val::Num(read_i64_be(bytes, p + 1)), p + 9)
        }
    } else if kind == TAG_TXT {
        match text_at(bytes, p + 1) {
            Found::Item(s, q) => Found::Item(Val::Txt(s), q),
            Found::Short => Found::Short,
            Found::Wrong(e) => Found::Wrong(e),
        }
    } else if kind == TAG_BOOL {
        if n - p < 2 {
            Found::Short
        } else if bytes[p + 1] == 0 {
            Found::Item(Val::Bool(false), p + 2)
        } else if bytes[p + 1] == 1 {
            Found::Item(Val::Bool(true), p + 2)
        } else {
            Found::Wrong(ProtocolError::InvalidBool(bytes[p + 1]))
        }
    } else {
        Found::Wrong(ProtocolError::UnknownKind(kind))
    }
}

/// Reads the list of numbers at `p`.
fn list_at(bytes: &Vec<u8>, p: usize) -> (r: Option<(Vec<u64>, usize)>)
    requires
        p <= bytes.len(),
    ensures
        match r {
            Some((v, q)) => scan_list(bytes@, p as int) == Scan::Done(v@, q as int) && p < q
                <= bytes.len(),
            None => scan_list(bytes@, p as int) == Scan::<Seq<u64>>::More,
        },
{
    match number_at(bytes, p) {
        None => None,
        Some((n, q)) => {
            if n > ((bytes.len() - q) / 8) as u64 {
                return None;
            }
            let count = n as usize;
            let mut out: Vec<u64> = Vec::new();
            let mut i: usize = 0;
            while i < count
                invariant
                    i <= count,
                    q + 8 * count <= bytes.len(),
                    out@ == numbers_at(bytes@, q as int, i as nat),
                decreases count - i,
            {
                out.push(read_u64_be(bytes, q + 8 * i));
                i += 1;
                assert(out@ =~= numbers_at(bytes@, q as int, i as nat));
            }
            Some((out, q + 8 * count))
        },
    }
}

/// Reads the name and the value at `p`.
fn name_value_at(bytes: &Vec<u8>, p: usize) -> (r: Found<(String, Val)>)
    requires
        p <= bytes.len(),
    ensures
        match r {
            Found::Item(nv, q) => scan_name_value(bytes@, p as int) == Scan::Done(
                (nv.0@, nv.1@),
                q as int,
            ) && p < q <= bytes.len(),
            Found::Short => scan_name_value(bytes@, p as int) == Scan::<(Seq<char>, ValView)>::More,
            Found::Wrong(e) => scan_name_value(bytes@, p as int) == Scan::<
                (Seq<char>, ValView),
            >::Bad(e),
        },
{
    match text_at(bytes, p) {
        Found::Short => Found::Short,
        Found::Wrong(e) => Found::Wrong(e),
        Found::Item(name, q) => match value_at(bytes, q) {
            Found::Short => Found::Short,
            Found::Wrong(e) => Found::Wrong(e),
            Found::Item(value, r) => Found::Item((name, value), r),
        },
    }
}

/// Looks for a request at the head of the bytes received so far. With a
/// whole request it says how many bytes the request took; the bytes behind
/// them belong to the next one.
pub fn parse_request(bytes: &Vec<u8>) -> (r: Frame)
    ensures
        r.scan() == scan_request(bytes@),
        r matches Frame::Complete(_, used) ==> 0 < used <= bytes.len(),
{
    if bytes.len() == 0 {
        return Frame::Incomplete;
    }
    let op = bytes[0];
    if op == OP_SHUTDOWN {
        Frame::Complete(Request::Shutdown, 1)
    } else if op == OP_PRINT {
        Frame::Complete(Request::Print, 1)
    } else if op == OP_OPEN {
        match text_at(bytes, 1) {
            Found::Short => Frame::Incomplete,
            Found::Wrong(e) => Frame::Invalid(e),
            Found::Item(name, q) => Frame::Complete(Request::Open { name }, q),
        }
    } else if op == OP_SAVE {
        match text_at(bytes, 1) {
            Found::Short => Frame::Incomplete,
            Found::Wrong(e) => Frame::Invalid(e),
            Found::Item(name, q) => Frame::Complete(Request::Save { name }, q),
        }
    } else if op == OP_APPEND {
        match name_value_at(bytes, 1) {
            Found::Short => Frame::Incomplete,
            Found::Wrong(e) => Frame::Invalid(e),
            Found::Item(nv, q) => Frame::Complete(Request::Append { name: nv.0, value: nv.1 }, q),
        }
    } else if op == OP_INSERT {
        match name_value_at(bytes, 1) {
            Found::Short => Frame::Incomplete,
            Found::Wrong(e) => Frame::Invalid(e),
            Found::Item(nv, q) => match number_at(bytes, q) {
                None => Frame::Incomplete,
                Some((id, r)) => Frame::Complete(
                    Request::Insert { name: nv.0, value: nv.1, id },
                    r,
                ),
            },
        }
    } else if op == OP_DELETE {
        match number_at(bytes, 1) {
            None => Frame::Incomplete,
            Some((id, q)) => Frame::Complete(Request::Delete { id }, q),
        }
    } else if op == OP_SET_RELATIONS {
        match number_at(bytes, 1) {
            None => Frame::Incomplete,
            Some((id, q)) => match list_at(bytes, q) {
                None => Frame::Incomplete,
                Some((relations, r)) => Frame::Complete(Request::SetRelations { id, relations }, r),
            },
        }
    } else if op == OP_SET_NAME {
        match number_at(bytes, 1) {
            None => Frame::Incomplete,
            Some((id, q)) => match text_at(bytes, q) {
                Found::Short => Frame::Incomplete,
                Found::Wrong(e) => Frame::Invalid(e),
                Found::Item(name, r) => Frame::Complete(Request::SetName { id, name }, r),
            },
        }
    } else if op == OP_SET_VALUE {
        match number_at(bytes, 1) {
            None => Frame::Incomplete,
            Some((id, q)) => match value_at(bytes, q) {
                Found::Short => Frame::Incomplete,
                Found::Wrong(e) => Frame::Invalid(e),
                Found::Item(value, r) => Frame::Complete(Request::SetValue { id, value }, r),
            },
        }
    } else if op == OP_RENDER {
        Frame::Complete(Request::Render, 1)
    } else {
        Frame::Invalid(ProtocolError::UnknownOpcode(op))
    }
}

/// A value as it is sent: its kind, then a number in eight bytes, a text
/// behind its length, or a boolean in one byte.
pub open spec fn sent_value(v: ValView) -> Seq<u8> {
    match v {
        ValView::Nothing => seq![TAG_NOTHING],
        ValView::Num(x) => seq![TAG_NUM] + i64_be(x),
        ValView::Txt(t) => seq![TAG_TXT] + framed(t),
        ValView::Bool(b) => seq![TAG_BOOL, if b { 1u8 } else { 0u8 }],
    }
}

/// Numbers as they are sent, eight bytes each.
pub open spec fn sent_numbers(r: Seq<u64>) -> Seq<u8>
    decreases r.len(),
{
    if r.len() == 0 {
        Seq::empty()
    } else {
        sent_numbers(r.drop_last()) + u64_be(r.last())
    }
}

/// A list of numbers as it is sent: their count, then the numbers.
pub open spec fn sent_list(r: Seq<u64>) -> Seq<u8> {
    u64_be(r.len() as u64) + sent_numbers(r)
}

/// A request as it is sent: its opcode, then its arguments.
pub open spec fn sent_request(r: RequestView) -> Seq<u8> {
    match r {
        RequestView::Shutdown => seq![OP_SHUTDOWN],
        RequestView::Print => seq![OP_PRINT],
        RequestView::Open { name } => seq![OP_OPEN] + framed(name),
        RequestView::Save { name } => seq![OP_SAVE] + framed(name),
        RequestView::Append { name, value } => seq![OP_APPEND] + framed(name) + sent_value(value),
        RequestView::Insert { name, value, id } => seq![OP_INSERT] + framed(name) + sent_value(
            value,
        ) + u64_be(id),
        RequestView::Delete { id } => seq![OP_DELETE] + u64_be(id),
        RequestView::SetRelations { id, relations } => seq![OP_SET_RELATIONS] + u64_be(id)
            + sent_list(relations),
        RequestView::SetName { id, name } => seq![OP_SET_NAME] + u64_be(id) + framed(name),
        RequestView::SetValue { id, value } => seq![OP_SET_VALUE] + u64_be(id) + sent_value(value),
        RequestView::Render => seq![OP_RENDER],
    }
}

/// A text whose length in bytes fits the number that is sent before it.
pub open spec fn text_fits(t: Seq<char>) -> bool {
    encode_utf8(t).len() <= u64::MAX
}

/// A value that can be sent.
pub open spec fn value_fits(v: ValView) -> bool {
    v matches ValView::Txt(t) ==> text_fits(t)
}

/// A request that can be sent: the length of each text, and the count of
/// the relations, fit the number that is sent before them.
pub open spec fn request_fits(r: RequestView) -> bool {
    match r {
        RequestView::Open { name } => text_fits(name),
        RequestView::Save { name } => text_fits(name),
        RequestView::Append { name, value } => text_fits(name) && value_fits(value),
        RequestView::Insert { name, value, id } => text_fits(name) && value_fits(value),
        RequestView::SetRelations { id, relations } => relations.len() <= u64::MAX,
        RequestView::SetName { id, name } => text_fits(name),
        RequestView::SetValue { id, value } => value_fits(value),
        _ => true,
    }
}

/// `x` stands at `p` in `b`, and its last byte is at `p + x.len() - 1`.
pub open spec fn stands_at(b: Seq<u8>, p: int, x: Seq<u8>) -> bool {
    0 <= p && p + x.len() <= b.len() && b.subrange(p, p + x.len()) == x
}

/// Where `x + y` stands, `x` stands, and `y` behind it.
proof fn lemma_stands_split(b: Seq<u8>, p: int, x: Seq<u8>, y: Seq<u8>)
    requires
        stands_at(b, p, x + y),
    ensures
        stands_at(b, p, x),
        stands_at(b, p + x.len(), y),
{
    let whole = b.subrange(p, p + (x + y).len());
    assert(b.subrange(p, p + x.len()) =~= x) by {
        assert forall|k: int| 0 <= k < x.len() implies b[p + k] == x[k] by {
            assert(whole[k] == (x + y)[k]);
        }
    }
    assert(b.subrange(p + x.len(), p + x.len() + y.len()) =~= y) by {
        assert forall|k: int| 0 <= k < y.len() implies b[p + x.len() + k] == y[k] by {
            assert(whole[x.len() + k] == (x + y)[x.len() + k]);
        }
    }
}

/// A number that was sent is read back.
proof fn lemma_scan_u64_sent(b: Seq<u8>, p: int, x: u64)
    requires
        stands_at(b, p, u64_be(x)),
    ensures
        scan_u64(b, p) == Scan::Done(x, p + 8),
{
    lemma_be_u64_of_u64_be(x);
}

/// A text that was sent is read back.
proof fn lemma_scan_text_sent(b: Seq<u8>, p: int, t: Seq<char>)
    requires
        stands_at(b, p, framed(t)),
        text_fits(t),
    ensures
        scan_text(b, p) == Scan::Done(t, p + framed(t).len()),
        framed(t).len() == 8 + encode_utf8(t).len(),
{
    let n = encode_utf8(t).len() as u64;
    lemma_be_u64_of_u64_be(n);
    lemma_stands_split(b, p, u64_be(n), encode_utf8(t));
    lemma_scan_u64_sent(b, p, n);
    encode_utf8_valid_utf8(t);
    encode_utf8_decode_utf8(t);
}

/// A value that was sent is read back.
proof fn lemma_scan_value_sent(b: Seq<u8>, p: int, v: ValView)
    requires
        stands_at(b, p, sent_value(v)),
        value_fits(v),
    ensures
        scan_value(b, p) == Scan::Done(v, p + sent_value(v).len()),
        sent_value(v).len() >= 1,
{
    let sent = sent_value(v);
    assert(b[p] == b.subrange(p, p + sent.len())[0]);
    match v {
        ValView::Nothing => {},
        ValView::Num(x) => {
            lemma_be_i64_of_i64_be(x);
            lemma_stands_split(b, p, seq![TAG_NUM], i64_be(x));
        },
        ValView::Txt(t) => {
            lemma_stands_split(b, p, seq![TAG_TXT], framed(t));
            lemma_scan_text_sent(b, p + 1, t);
        },
        ValView::Bool(flag) => {
            assert(b[p + 1] == b.subrange(p, p + sent.len())[1]);
        },
    }
}

/// Numbers that were sent take eight bytes each, and each stands at its place.
proof fn lemma_sent_numbers(r: Seq<u64>, i: int)
    requires
        0 <= i < r.len(),
    ensures
        sent_numbers(r).len() == 8 * r.len(),
        sent_numbers(r).subrange(8 * i, 8 * i + 8) == u64_be(r[i]),
    decreases r.len(),
{
    let init = r.drop_last();
    lemma_be_u64_of_u64_be(r.last());
    if init.len() > 0 {
        lemma_sent_numbers(init, 0);
    }
    assert(sent_numbers(init).len() == 8 * init.len());
    if i < init.len() {
        lemma_sent_numbers(init, i);
        assert(sent_numbers(r).subrange(8 * i, 8 * i + 8) =~= sent_numbers(init).subrange(
            8 * i,
            8 * i + 8,
        ));
    } else {
        assert(sent_numbers(r).subrange(8 * i, 8 * i + 8) =~= u64_be(r.last()));
    }
}

/// A list of numbers that was sent is read back.
proof fn lemma_scan_list_sent(b: Seq<u8>, p: int, r: Seq<u64>)
    requires
        stands_at(b, p, sent_list(r)),
        r.len() <= u64::MAX,
    ensures
        scan_list(b, p) == Scan::Done(r, p + sent_list(r).len()),
{
    let n = r.len() as u64;
    lemma_be_u64_of_u64_be(n);
    lemma_stands_split(b, p, u64_be(n), sent_numbers(r));
    lemma_scan_u64_sent(b, p, n);
    if r.len() > 0 {
        lemma_sent_numbers(r, 0);
    }
    assert(sent_numbers(r).len() == 8 * r.len());
    let q = p + 8;
    assert forall|i: int| 0 <= i < r.len() implies numbers_at(b, q, r.len())[i] == r[i] by {
        lemma_sent_numbers(r, i);
        lemma_be_u64_of_u64_be(r[i]);
        let whole = b.subrange(q, q + sent_numbers(r).len());
        let here = b.subrange(q + 8 * i, q + 8 * i + 8);
        let there = sent_numbers(r).subrange(8 * i, 8 * i + 8);
        assert forall|k: int| 0 <= k < 8 implies #[trigger] here[k] == there[k] by {
            assert(whole[8 * i + k] == b[q + 8 * i + k]);
        }
        assert(here =~= there);
    }
    assert(numbers_at(b, q, r.len()) =~= r);
}

/// A name and a value that were sent are read back.
proof fn lemma_scan_name_value_sent(b: Seq<u8>, p: int, name: Seq<char>, value: ValView)
    requires
        stands_at(b, p, framed(name) + sent_value(value)),
        text_fits(name),
        value_fits(value),
    ensures
        scan_name_value(b, p) == Scan::Done(
            (name, value),
            p + framed(name).len() + sent_value(value).len(),
        ),
{
    lemma_stands_split(b, p, framed(name), sent_value(value));
    lemma_scan_text_sent(b, p, name);
    lemma_scan_value_sent(b, p + framed(name).len(), value);
}

/// The arguments of a request as they are sent, behind the opcode.
pub open spec fn sent_arguments(r: RequestView) -> Seq<u8> {
    match r {
        RequestView::Open { name } => framed(name),
        RequestView::Save { name } => framed(name),
        RequestView::Append { name, value } => framed(name) + sent_value(value),
        RequestView::Insert { name, value, id } => framed(name) + sent_value(value) + u64_be(id),
        RequestView::Delete { id } => u64_be(id),
        RequestView::SetRelations { id, relations } => u64_be(id) + sent_list(relations),
        RequestView::SetName { id, name } => u64_be(id) + framed(name),
        RequestView::SetValue { id, value } => u64_be(id) + sent_value(value),
        _ => Seq::empty(),
    }
}

/// A request is sent as one byte, then its arguments.
proof fn lemma_sent_request_shape(r: RequestView)
    ensures
        sent_request(r).len() == 1 + sent_arguments(r).len(),
        sent_request(r) == sent_request(r).subrange(0, 1) + sent_arguments(r),
{
    assert(sent_request(r) =~= sent_request(r).subrange(0, 1) + sent_arguments(r));
}

/// A number and what follows it, where they were sent one behind the other.
proof fn lemma_scan_number_then(b: Seq<u8>, p: int, id: u64, tail: Seq<u8>)
    requires
        stands_at(b, p, u64_be(id) + tail),
    ensures
        scan_u64(b, p) == Scan::Done(id, p + 8),
        stands_at(b, p + 8, tail),
        (u64_be(id) + tail).len() == 8 + tail.len(),
{
    lemma_be_u64_of_u64_be(id);
    lemma_stands_split(b, p, u64_be(id), tail);
    lemma_scan_u64_sent(b, p, id);
}

/// The arguments of a request are read back from behind its opcode.
proof fn lemma_scan_arguments(b: Seq<u8>, r: RequestView)
    requires
        request_fits(r),
        stands_at(b, 1, sent_arguments(r)),
    ensures
        match r {
            RequestView::Open { name } => scan_text(b, 1) == Scan::Done(
                name,
                1 + sent_arguments(r).len() as int,
            ),
            RequestView::Save { name } => scan_text(b, 1) == Scan::Done(
                name,
                1 + sent_arguments(r).len() as int,
            ),
            RequestView::Append { name, value } => scan_name_value(b, 1) == Scan::Done(
                (name, value),
                1 + sent_arguments(r).len() as int,
            ),
            RequestView::Insert { name, value, id } => exists|q: int|
                scan_name_value(b, 1) == Scan::Done((name, value), q) && #[trigger] scan_u64(b, q)
                    == Scan::Done(id, 1 + sent_arguments(r).len() as int),
            RequestView::Delete { id } => scan_u64(b, 1) == Scan::Done(
                id,
                1 + sent_arguments(r).len() as int,
            ),
            RequestView::SetRelations { id, relations } => scan_u64(b, 1) == Scan::Done(id, 9)
                && scan_list(b, 9) == Scan::Done(relations, 1 + sent_arguments(r).len() as int),
            RequestView::SetName { id, name } => scan_u64(b, 1) == Scan::Done(id, 9) && scan_text(
                b,
                9,
            ) == Scan::Done(name, 1 + sent_arguments(r).len() as int),
            RequestView::SetValue { id, value } => scan_u64(b, 1) == Scan::Done(id, 9)
                && scan_value(b, 9) == Scan::Done(value, 1 + sent_arguments(r).len() as int),
            _ => true,
        },
{
    match r {
        RequestView::Open { name } => {
            lemma_scan_text_sent(b, 1, name);
        },
        RequestView::Save { name } => {
            lemma_scan_text_sent(b, 1, name);
        },
        RequestView::Append { name, value } => {
            lemma_scan_name_value_sent(b, 1, name, value);
        },
        RequestView::Insert { name, value, id } => {
            let nv = framed(name) + sent_value(value);
            lemma_stands_split(b, 1, nv, u64_be(id));
            lemma_scan_name_value_sent(b, 1, name, value);
            lemma_scan_number_then(b, 1 + nv.len() as int, id, Seq::empty());
            assert(u64_be(id) + Seq::<u8>::empty() =~= u64_be(id));
            assert(scan_u64(b, 1 + nv.len() as int) == Scan::Done(id, 1 + sent_arguments(r).len() as int));
        },
        RequestView::Delete { id } => {
            assert(u64_be(id) + Seq::<u8>::empty() =~= u64_be(id));
            lemma_scan_number_then(b, 1, id, Seq::empty());
        },
        RequestView::SetRelations { id, relations } => {
            lemma_scan_number_then(b, 1, id, sent_list(relations));
            lemma_scan_list_sent(b, 9, relations);
        },
        RequestView::SetName { id, name } => {
            lemma_scan_number_then(b, 1, id, framed(name));
            lemma_scan_text_sent(b, 9, name);
        },
        RequestView::SetValue { id, value } => {
            lemma_scan_number_then(b, 1, id, sent_value(value));
            lemma_scan_value_sent(b, 9, value);
        },
        _ => {},
    }
}

/// What a client sends, the server reads: a request at the head of the
/// bytes received is read back as it was sent, whatever follows it.
pub proof fn lemma_request_round_trip(r: RequestView, rest: Seq<u8>)
    requires
        request_fits(r),
    ensures
        scan_request(sent_request(r) + rest) == Scan::Done(r, sent_request(r).len() as int),
{
    let sent = sent_request(r);
    let b = sent + rest;
    lemma_sent_request_shape(r);
    assert(b[0] == sent[0]);
    assert(stands_at(b, 0, sent)) by {
        assert(b.subrange(0, sent.len() as int) =~= sent);
    }
    lemma_stands_split(b, 0, sent.subrange(0, 1), sent_arguments(r));
    lemma_scan_arguments(b, r);
}

/// Appends `text` to `out` as it is sent.
fn push_framed(out: &mut Vec<u8>, text: &str)
    ensures
        final(out)@ == old(out)@ + framed(text@),
{
    let mut frame = frame_text(text);
    out.append(&mut frame);
}

/// Appends `value` to `out` as it is sent.
fn push_sent_value(out: &mut Vec<u8>, value: &Val)
    ensures
        final(out)@ == old(out)@ + sent_value(value@),
{
    match value {
        Val::Nothing => {
            out.push(TAG_NOTHING);
        },
        Val::Num(x) => {
            out.push(TAG_NUM);
            push_i64_be(out, *x);
        },
        Val::Txt(t) => {
            out.push(TAG_TXT);
            push_framed(out, t.as_str());
        },
        Val::Bool(b) => {
            out.push(TAG_BOOL);
            if *b {
                out.push(1);
            } else {
                out.push(0);
            }
        },
    }
    assert(out@ =~= old(out)@ + sent_value(value@));
}

impl Request {
    /// This request as it is sent.
    pub fn to_bytes(&self) -> (out: Vec<u8>)
        ensures
            out@ == sent_request(self@),
    {
        let mut out: Vec<u8> = Vec::new();
        match self {
            Request::Shutdown => {
                out.push(OP_SHUTDOWN);
            },
            Request::Print => {
                out.push(OP_PRINT);
            },
            Request::Open { name } => {
                out.push(OP_OPEN);
                push_framed(&mut out, name.as_str());
            },
            Request::Save { name } => {
                out.push(OP_SAVE);
                push_framed(&mut out, name.as_str());
            },
            Request::Append { name, value } => {
                out.push(OP_APPEND);
                push_framed(&mut out, name.as_str());
                push_sent_value(&mut out, value);
            },
            Request::Insert { name, value, id } => {
                out.push(OP_INSERT);
                push_framed(&mut out, name.as_str());
                push_sent_value(&mut out, value);
                push_u64_be(&mut out, *id);
            },
            Request::Delete { id } => {
                out.push(OP_DELETE);
                push_u64_be(&mut out, *id);
            },
            Request::SetRelations { id, relations } => {
                out.push(OP_SET_RELATIONS);
                push_u64_be(&mut out, *id);
                push_u64_be(&mut out, relations.len() as u64);
                let ghost head = out@;
                let mut i: usize = 0;
                assert(relations@.subrange(0, 0) =~= Seq::<u64>::empty());
                assert(out@ =~= head + sent_numbers(relations@.subrange(0, 0)));
                while i < relations.len()
                    invariant
                        i <= relations.len(),
                        out@ == head + sent_numbers(relations@.subrange(0, i as int)),
                    decreases relations.len() - i,
                {
                    let ghost before = relations@.subrange(0, i as int);
                    push_u64_be(&mut out, relations[i]);
                    i += 1;
                    proof {
                        let now = relations@.subrange(0, i as int);
                        assert(now.drop_last() =~= before);
                        assert(out@ =~= head + sent_numbers(now));
                    }
                }
                assert(relations@.subrange(0, i as int) =~= relations@);
            },
            Request::SetName { id, name } => {
                out.push(OP_SET_NAME);
                push_u64_be(&mut out, *id);
                push_framed(&mut out, name.as_str());
            },
            Request::SetValue { id, value } => {
                out.push(OP_SET_VALUE);
                push_u64_be(&mut out, *id);
                push_sent_value(&mut out, value);
            },
            Request::Render => {
                out.push(OP_RENDER);
            },
        }
        assert(out@ =~= sent_request(self@));
        out
    }
}

/// What the server does about a request, besides changing the graph.
#[derive(Debug)]
pub enum Outcome {
    /// End the connection.
    Close,
    /// Send nothing.
    Silent,
    /// Send these bytes.
    Reply(Vec<u8>),
    /// Write `data` to the file at `path`, then send `reply`.
    Save { path: String, data: Vec<u8>, reply: Vec<u8> },
    /// Hand `dot` to the layout tool.
    Draw { dot: String },
}

/// What an [`Outcome`] stands for.
pub enum OutcomeView {
    Close,
    Silent,
    Reply(Seq<u8>),
    Save { path: Seq<char>, data: Seq<u8>, reply: Seq<u8> },
    Draw { dot: Seq<char> },
}

impl View for Outcome {
    type V = OutcomeView;

    open spec fn view(&self) -> OutcomeView {
        match self {
            Outcome::Close => OutcomeView::Close,
            Outcome::Silent => OutcomeView::Silent,
            Outcome::Reply(bytes) => OutcomeView::Reply(bytes@),
            Outcome::Save { path, data, reply } => OutcomeView::Save {
                path: path@,
                data: data@,
                reply: reply@,
            },
            Outcome::Draw { dot } => OutcomeView::Draw { dot: dot@ },
        }
    }
}

/// A text as it is sent: its length in bytes as a number, then its bytes.
pub open spec fn framed(text: Seq<char>) -> Seq<u8> {
    u64_be(encode_utf8(text).len() as u64) + encode_utf8(text)
}

/// What the server says once it has written the graph to the file `name`.
pub open spec fn saved_text(name: Seq<char>) -> Seq<char> {
    "Wrote file: ["@ + name + "]"@
}

/// The step that a request asks of the graph, where it asks for one.
pub open spec fn step_of(request: RequestView) -> Option<Step> {
    match request {
        RequestView::Append { name, value } => Some(Step::Append { name, value }),
        RequestView::Insert { name, value, id } => Some(Step::Insert { name, value, id }),
        RequestView::Delete { id } => Some(Step::Delete { id }),
        RequestView::SetRelations { id, relations } => Some(Step::SetRelations { id, relations }),
        RequestView::SetName { id, name } => Some(Step::SetName { id, name }),
        RequestView::SetValue { id, value } => Some(Step::SetValue { id, value }),
        _ => None,
    }
}

/// Whether `out` is what the server owes for `request` on the graph `g`.
/// A request that changes the graph is answered by silence, but appending
/// by the new identifier; one that the graph has no identifier left for
/// ends the connection.
pub open spec fn answers(g: GraphView, request: RequestView, out: OutcomeView) -> bool {
    match request {
        RequestView::Shutdown => out == OutcomeView::Close,
        RequestView::Print => exists|text: Seq<char>|
            is_listing(g, text) && out == OutcomeView::Reply(#[trigger] framed(text)),
        RequestView::Open { name } => out == OutcomeView::Silent,
        RequestView::Save { name } => exists|data: Seq<u8>| #[trigger]
            is_snapshot(g, data) && out == (OutcomeView::Save {
                path: name,
                data,
                reply: framed(saved_text(name)),
            }),
        RequestView::Append { name, value } => if g.counter < u64::MAX {
            out == OutcomeView::Reply(u64_be(g.counter as u64))
        } else {
            out == OutcomeView::Close
        },
        RequestView::Insert { name, value, id } => if id < u64::MAX {
            out == OutcomeView::Silent
        } else {
            out == OutcomeView::Close
        },
        RequestView::Render => exists|dot: Seq<char>| #[trigger]
            is_dot(g, dot) && out == (OutcomeView::Draw { dot }),
        _ => out == OutcomeView::Silent,
    }
}

/// The graph after a request: after the step that the request asks for,
/// or as it was.
pub open spec fn served(g: GraphView, request: RequestView) -> GraphView {
    match step_of(request) {
        Some(step) => g.after(step),
        None => g,
    }
}

/// A text as it is sent: its length in bytes, then its bytes.
pub fn frame_text(text: &str) -> (out: Vec<u8>)
    ensures
        out@ == framed(text@),
{
    let raw = text.as_bytes();
    let n: u64 = raw.len() as u64;
    assert(n == encode_utf8(text@).len() as u64);
    let mut out: Vec<u8> = Vec::new();
    push_u64_be(&mut out, n);
    let ghost head = out@;
    assert(head == Seq::<u8>::empty() + u64_be(n));
    push_str_bytes(&mut out, text);
    assert(Seq::<u8>::empty() + u64_be(n) =~= u64_be(n));
    out
}

impl Request {
    /// Whether this request asks for a change of the graph.
    pub fn changes(&self) -> (r: bool)
        ensures
            r == step_of(self@) is Some,
    {
        match self {
            Request::Append { .. } => true,
            Request::Insert { .. } => true,
            Request::Delete { .. } => true,
            Request::SetRelations { .. } => true,
            Request::SetName { .. } => true,
            Request::SetValue { .. } => true,
            _ => false,
        }
    }
}

/// Says what is owed to the client for a request that leaves the graph as
/// it is.
pub fn observe(graph: &Graph, request: Request) -> (out: Outcome)
    requires
        step_of(request@) is None,
    ensures
        answers(graph@, request@, out@),
{
    match request {
        Request::Print => {
            let text = graph.to_text();
            let reply = frame_text(text.as_str());
            assert(is_listing(graph@, text@) && reply@ == framed(text@));
            Outcome::Reply(reply)
        },
        Request::Open { name } => Outcome::Silent,
        Request::Save { name } => {
            let data = graph.to_bytes();
            let mut text = String::from_str("Wrote file: [");
            text.append(name.as_str());
            text.append("]");
            assert(text@ =~= saved_text(name@));
            let reply = frame_text(text.as_str());
            Outcome::Save { path: name, data, reply }
        },
        Request::Render => {
            let dot = graph.print_graph();
            Outcome::Draw { dot }
        },
        _ => Outcome::Close,
    }
}

/// Does what `request` asks of the graph and says what is owed to the
/// client. A change that the graph refuses is left undone in silence.
pub fn serve(graph: &mut Graph, request: Request) -> (out: Outcome)
    requires
        old(graph).wf(),
    ensures
        final(graph).wf(),
        final(graph)@ == served(old(graph)@, request@),
        answers(old(graph)@, request@, out@),
        old(graph)@.linked() ==> final(graph)@.linked(),
{
    match request {
        Request::Append { name, value } => {
            if graph.next_id() == u64::MAX {
                Outcome::Close
            } else {
                let id = graph.append(name.as_str(), value);
                let mut reply: Vec<u8> = Vec::new();
                push_u64_be(&mut reply, id);
                assert(reply@ =~= u64_be(id));
                Outcome::Reply(reply)
            }
        },
        Request::Insert { name, value, id } => {
            if id == u64::MAX {
                Outcome::Close
            } else {
                graph.insert(name.as_str(), value, id);
                Outcome::Silent
            }
        },
        Request::Delete { id } => {
            let _ = graph.delete(id);
            Outcome::Silent
        },
        Request::SetRelations { id, relations } => {
            let _ = graph.set_relations(id, relations);
            Outcome::Silent
        },
        Request::SetName { id, name } => {
            let _ = graph.set_name(id, name.as_str());
            Outcome::Silent
        },
        Request::SetValue { id, value } => {
            let _ = graph.set_value(id, value);
            Outcome::Silent
        },
        other => observe(graph, other),
    }
}

} // verus!
