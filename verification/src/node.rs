//! A node of the graph and its byte record:
//! `id , name , value , (relation ':')* '\n'`, the identifier and each
//! relation as eight big-endian bytes, the name as raw UTF-8.

use vstd::prelude::*;
use vstd::utf8::{decode_utf8, encode_utf8, valid_utf8};
use vstd::utf8::{encode_utf8_decode_utf8, encode_utf8_valid_utf8};
use crate::bytes::{be_u64, lemma_be_u64_of_u64_be, push_u64_be, read_u64_be, u64_be};
use crate::error::FormatError;
use crate::value::{copy_range, push_str_bytes, string_from_utf8};
use crate::value::{decode_value, encode_value, lemma_value_round_trip};
use crate::value::{Val, ValView, TAG_BOOL, TAG_NOTHING, TAG_NUM, TAG_TXT};

verus! {

/// The byte between the fields of a record: `,`.
pub const COMMA: u8 = 0x2c;

/// The byte behind each relation of a record: `:`.
pub const COLON: u8 = 0x3a;

/// The byte that ends a record: a line feed.
pub const NEWLINE: u8 = 0x0a;

/// A node: who it is, what it carries, whom it points at, and who points at it.
#[derive(Debug)]
pub struct Node {
    pub name: String,
    pub id: u64,
    pub value: Val,
    /// Identifiers of the nodes this one points at, in the order given; one may occur twice.
    pub relations: Vec<u64>,
    /// Identifiers of the nodes that point at this one, each once.
    pub backlinks: Vec<u64>,
}

/// What a [`Node`] stands for.
pub struct NodeView {
    pub id: u64,
    pub name: Seq<char>,
    pub value: ValView,
    pub relations: Seq<u64>,
    pub backlinks: Seq<u64>,
}

impl View for Node {
    type V = NodeView;

    open spec fn view(&self) -> NodeView {
        NodeView {
            id: self.id,
            name: self.name@,
            value: self.value@,
            relations: self.relations@,
            backlinks: self.backlinks@,
        }
    }
}

impl NodeView {
    /// A node that points at nothing and is pointed at by nothing.
    pub open spec fn fresh(id: u64, name: Seq<char>, value: ValView) -> NodeView {
        NodeView { id, name, value, relations: Seq::empty(), backlinks: Seq::empty() }
    }

    /// This node as a byte record holds it: without its backlinks.
    pub open spec fn stored(self) -> NodeView {
        NodeView { backlinks: Seq::empty(), ..self }
    }
}

/// Copies a list of identifiers.
pub fn clone_ids(v: &Vec<u64>) -> (r: Vec<u64>)
    ensures
        r@ == v@,
{
    let mut out: Vec<u64> = Vec::new();
    let mut i: usize = 0;
    while i < v.len()
        invariant
            i <= v.len(),
            out@ == v@.subrange(0, i as int),
        decreases v.len() - i,
    {
        out.push(v[i]);
        i += 1;
        assert(out@ =~= v@.subrange(0, i as int));
    }
    assert(v@.subrange(0, v.len() as int) =~= v@);
    out
}

impl Clone for Node {
    fn clone(&self) -> (r: Node)
        ensures
            r@ == self@,
    {
        Node {
            name: self.name.clone(),
            id: self.id,
            value: self.value.clone(),
            relations: clone_ids(&self.relations),
            backlinks: clone_ids(&self.backlinks),
        }
    }
}

/// The bytes of a relation list: each identifier, then a colon.
pub open spec fn encode_relations(r: Seq<u64>) -> Seq<u8>
    decreases r.len(),
{
    if r.len() == 0 {
        Seq::empty()
    } else {
        encode_relations(r.drop_last()) + u64_be(r.last()) + seq![COLON]
    }
}

/// The head of the byte record of a node: its identifier, name and value,
/// each with a comma behind it.
pub open spec fn encode_head(n: NodeView) -> Seq<u8> {
    u64_be(n.id) + seq![COMMA] + encode_utf8(n.name) + seq![COMMA] + encode_value(n.value)
        + seq![COMMA]
}

/// The byte record of a node. The backlinks are not part of it.
pub open spec fn encode_node(n: NodeView) -> Seq<u8> {
    u64_be(n.id) + seq![COMMA] + encode_utf8(n.name) + seq![COMMA] + encode_value(n.value)
        + seq![COMMA] + encode_relations(n.relations) + seq![NEWLINE]
}

/// The place of the first `x` in `b` at or behind `from`, or the length of
/// `b` where there is none.
pub open spec fn find_byte(b: Seq<u8>, from: int, x: u8) -> int
    decreases b.len() - from,
{
    if from < 0 || from >= b.len() {
        b.len() as int
    } else if b[from] == x {
        from
    } else {
        find_byte(b, from + 1, x)
    }
}

/// Where the value field that starts at `p` ends: a number, a boolean and
/// the empty value have their fixed width, a text runs up to the next comma.
pub open spec fn value_end(b: Seq<u8>, p: int) -> Result<int, FormatError> {
    if p >= b.len() {
        Err(FormatError::Truncated)
    } else if b[p] == TAG_NOTHING {
        Ok(p + 1)
    } else if b[p] == TAG_NUM {
        if p + 9 > b.len() {
            Err(FormatError::Truncated)
        } else {
            Ok(p + 9)
        }
    } else if b[p] == TAG_TXT {
        if find_byte(b, p + 1, COMMA) >= b.len() {
            Err(FormatError::MissingSeparator)
        } else {
            Ok(find_byte(b, p + 1, COMMA))
        }
    } else if b[p] == TAG_BOOL {
        if p + 2 > b.len() {
            Err(FormatError::Truncated)
        } else {
            Ok(p + 2)
        }
    } else {
        Err(FormatError::UnknownDiscriminant)
    }
}

/// The relation list that starts at `p`, and the place behind the record's
/// terminator. A line feed where an entry would start ends the list, and so
/// does the end of the input.
pub open spec fn parse_relations(b: Seq<u8>, p: int) -> Result<(Seq<u64>, int), FormatError>
    decreases b.len() - p,
{
    if p < 0 || p >= b.len() {
        Ok((Seq::empty(), b.len() as int))
    } else if b[p] == NEWLINE {
        Ok((Seq::empty(), p + 1))
    } else if p + 9 > b.len() {
        Err(FormatError::Truncated)
    } else if b[p + 8] != COLON {
        Err(FormatError::WrongWidth)
    } else {
        match parse_relations(b, p + 9) {
            Ok((rest, end)) => Ok((seq![be_u64(b.subrange(p, p + 8))] + rest, end)),
            Err(e) => Err(e),
        }
    }
}

/// The head of the record that starts at `s`: its identifier, name and
/// value, and the place where its relations start. Fields of fixed width
/// are read by their width, so a separator byte inside a number is part
/// of the number; a name and a text end at the first comma.
pub open spec fn parse_head(b: Seq<u8>, s: int) -> Result<(NodeView, int), FormatError> {
    if s + 9 > b.len() {
        Err(FormatError::Truncated)
    } else if b[s + 8] != COMMA {
        Err(FormatError::WrongWidth)
    } else {
        let q = find_byte(b, s + 9, COMMA);
        if q >= b.len() {
            Err(FormatError::MissingSeparator)
        } else if !valid_utf8(b.subrange(s + 9, q)) {
            Err(FormatError::InvalidUtf8)
        } else {
            match value_end(b, q + 1) {
                Err(e) => Err(e),
                Ok(e) => match decode_value(b.subrange(q + 1, e)) {
                    Err(err) => Err(err),
                    Ok(value) => if e >= b.len() {
                        Err(FormatError::Truncated)
                    } else if b[e] != COMMA {
                        Err(FormatError::WrongWidth)
                    } else {
                        Ok(
                            (
                                NodeView::fresh(
                                    be_u64(b.subrange(s, s + 8)),
                                    decode_utf8(b.subrange(s + 9, q)),
                                    value,
                                ),
                                e + 1,
                            ),
                        )
                    },
                },
            }
        }
    }
}

/// The record that starts at `s` among others, and the place behind it.
/// Its relation list ends at a line feed where an entry would start, or at
/// the end of the input.
pub open spec fn parse_record(b: Seq<u8>, s: int) -> Result<(NodeView, int), FormatError> {
    match parse_head(b, s) {
        Err(e) => Err(e),
        Ok((head, p)) => match parse_relations(b, p) {
            Err(e) => Err(e),
            Ok((relations, end)) => Ok((NodeView { relations, ..head }, end)),
        },
    }
}

/// The relation list from `p` to the end of a single record. A line feed
/// ends the list only where nothing follows it; otherwise nine bytes are
/// an entry, whatever the first of them is.
pub open spec fn parse_relations_alone(b: Seq<u8>, p: int) -> Result<Seq<u64>, FormatError>
    decreases b.len() - p,
{
    if p < 0 || p >= b.len() {
        Ok(Seq::empty())
    } else if b[p] == NEWLINE && p + 1 == b.len() {
        Ok(Seq::empty())
    } else if p + 9 > b.len() {
        Err(FormatError::Truncated)
    } else if b[p + 8] != COLON {
        Err(FormatError::WrongWidth)
    } else {
        match parse_relations_alone(b, p + 9) {
            Ok(rest) => Ok(seq![be_u64(b.subrange(p, p + 8))] + rest),
            Err(e) => Err(e),
        }
    }
}

/// The node that `b` is the record of: one record, with or without its
/// line feed, and nothing else.
pub open spec fn decode_node(b: Seq<u8>) -> Result<NodeView, FormatError> {
    match parse_head(b, 0) {
        Err(e) => Err(e),
        Ok((head, p)) => match parse_relations_alone(b, p) {
            Err(e) => Err(e),
            Ok(relations) => Ok(NodeView { relations, ..head }),
        },
    }
}

/// `find_byte` finds `q` when `x` stands there and nowhere between `from` and `q`.
pub proof fn lemma_find_byte(b: Seq<u8>, from: int, x: u8, q: int)
    requires
        0 <= from <= q <= b.len(),
        forall|j: int| from <= j < q ==> b[j] != x,
        q < b.len() ==> b[q] == x,
    ensures
        find_byte(b, from, x) == q,
    decreases q - from,
{
    if from < q {
        lemma_find_byte(b, from + 1, x, q);
    }
}

/// An identifier whose leading byte is not the line feed. Behind a relation
/// list a line feed ends the record, so only such identifiers can stand in one.
pub open spec fn plain_id(id: u64) -> bool {
    id / 0x100_0000_0000_0000 != 10
}

/// A node whose name and text end where their fields end: no comma in the
/// bytes of its name or of its text.
pub open spec fn delimited(n: NodeView) -> bool {
    &&& !encode_utf8(n.name).contains(COMMA)
    &&& n.value matches ValView::Txt(t) ==> !encode_utf8(t).contains(COMMA)
}

/// A node whose record keeps its boundaries among other records: a name
/// and a text without comma, and no relation that starts with a line feed.
pub open spec fn separable(n: NodeView) -> bool {
    &&& delimited(n)
    &&& forall|i: int| 0 <= i < n.relations.len() ==> plain_id(#[trigger] n.relations[i])
}

/// A relation list takes nine bytes for each entry.
pub proof fn lemma_encode_relations_len(r: Seq<u64>)
    ensures
        encode_relations(r).len() == 9 * r.len(),
    decreases r.len(),
{
    if r.len() > 0 {
        lemma_encode_relations_len(r.drop_last());
    }
}

/// A relation list starts with its first entry.
pub proof fn lemma_encode_relations_front(r: Seq<u64>)
    requires
        r.len() > 0,
    ensures
        encode_relations(r) == u64_be(r[0]) + seq![COLON] + encode_relations(r.drop_first()),
    decreases r.len(),
{
    if r.len() == 1 {
        assert(r.drop_last() =~= Seq::<u64>::empty());
        assert(r.drop_first() =~= Seq::<u64>::empty());
        assert(encode_relations(r) =~= u64_be(r[0]) + seq![COLON] + encode_relations(
            r.drop_first(),
        ));
    } else {
        lemma_encode_relations_front(r.drop_last());
        assert(r.drop_last().drop_first() =~= r.drop_first().drop_last());
        assert(r.drop_first().last() == r.last());
        assert(encode_relations(r) =~= u64_be(r[0]) + seq![COLON] + encode_relations(
            r.drop_first(),
        ));
    }
}

/// An encoded relation list with a line feed behind it is read back as it was.
pub proof fn lemma_parse_relations_of_encoded(b: Seq<u8>, p: int, r: Seq<u64>)
    requires
        0 <= p,
        p + encode_relations(r).len() < b.len(),
        b.subrange(p, p + encode_relations(r).len()) == encode_relations(r),
        b[p + encode_relations(r).len()] == NEWLINE,
        forall|i: int| 0 <= i < r.len() ==> plain_id(#[trigger] r[i]),
    ensures
        parse_relations(b, p) == Ok::<(Seq<u64>, int), FormatError>(
            (r, p + encode_relations(r).len() + 1),
        ),
    decreases r.len(),
{
    let enc = encode_relations(r);
    lemma_encode_relations_len(r);
    if r.len() == 0 {
        assert(r =~= Seq::<u64>::empty());
    } else {
        let rest = r.drop_first();
        lemma_encode_relations_front(r);
        lemma_encode_relations_len(rest);
        lemma_be_u64_of_u64_be(r[0]);
        assert(plain_id(r[0]));
        assert forall|k: int| 0 <= k < enc.len() implies b[p + k] == enc[k] by {
            assert(b.subrange(p, p + enc.len())[k] == b[p + k]);
        }
        assert(b[p] == enc[0]);
        assert(enc[0] == u64_be(r[0])[0]);
        assert(b[p] != NEWLINE);
        assert(b[p + 8] == enc[8]);
        assert(b.subrange(p, p + 8) =~= u64_be(r[0]));
        assert(b.subrange(p + 9, p + 9 + encode_relations(rest).len()) =~= encode_relations(
            rest,
        )) by {
            assert forall|k: int| 0 <= k < encode_relations(rest).len() implies b[p + 9 + k]
                == encode_relations(rest)[k] by {
                assert(enc[9 + k] == encode_relations(rest)[k]);
            }
        }
        assert forall|i: int| 0 <= i < rest.len() implies plain_id(#[trigger] rest[i]) by {
            assert(rest[i] == r[i + 1]);
        }
        lemma_parse_relations_of_encoded(b, p + 9, rest);
        assert(seq![r[0]] + rest =~= r);
        assert(be_u64(b.subrange(p, p + 8)) == r[0]);
        assert(p + 9 <= b.len());
        assert(parse_relations(b, p + 9) == Ok::<(Seq<u64>, int), FormatError>(
            (rest, p + 9 + encode_relations(rest).len() + 1),
        ));
    }
}

/// The head of a record that stands anywhere in a byte string is read
/// back from there, and the reading ends behind its last comma.
pub proof fn lemma_head_round_trip_at(b: Seq<u8>, s: int, n: NodeView)
    requires
        delimited(n),
        0 <= s,
        s + encode_head(n).len() <= b.len(),
        b.subrange(s, s + encode_head(n).len()) == encode_head(n),
    ensures
        parse_head(b, s) == Ok::<(NodeView, int), FormatError>(
            (NodeView::fresh(n.id, n.name, n.value), s + encode_head(n).len()),
        ),
{
    let rec = encode_head(n);
    let nb = encode_utf8(n.name);
    let vb = encode_value(n.value);
    let nl = nb.len() as int;
    let vl = vb.len() as int;
    lemma_be_u64_of_u64_be(n.id);
    assert(rec.len() == 8 + 1 + nl + 1 + vl + 1);
    assert forall|k: int| 0 <= k < rec.len() implies b[s + k] == rec[k] by {
        assert(b.subrange(s, s + rec.len())[k] == b[s + k]);
    }
    let q = s + 9 + nb.len();
    let e = q + 1 + vb.len();
    assert(b[s + 8] == rec[8] && rec[8] == COMMA);
    assert(b.subrange(s, s + 8) =~= u64_be(n.id)) by {
        assert forall|k: int| 0 <= k < 8 implies b[s + k] == u64_be(n.id)[k] by {
            assert(rec[k] == u64_be(n.id)[k]);
        }
    }
    assert(b.subrange(s + 9, q) =~= nb) by {
        assert forall|k: int| 0 <= k < nb.len() implies b[s + 9 + k] == nb[k] by {
            assert(rec[9 + k] == nb[k]);
        }
    }
    assert(b[q] == COMMA) by {
        assert(rec[9 + nl] == COMMA);
    }
    assert forall|j: int| s + 9 <= j < q implies b[j] != COMMA by {
        assert(b[j] == nb[j - (s + 9)]);
        assert(nb.contains(nb[j - (s + 9)]));
    }
    lemma_find_byte(b, s + 9, COMMA, q);
    encode_utf8_valid_utf8(n.name);
    encode_utf8_decode_utf8(n.name);
    assert(b.subrange(q + 1, e) =~= vb) by {
        assert forall|k: int| 0 <= k < vb.len() implies b[q + 1 + k] == vb[k] by {
            assert(rec[10 + nl + k] == vb[k]);
        }
    }
    assert(b[e] == COMMA) by {
        assert(rec[10 + nl + vl] == COMMA);
    }
    assert(vb.len() >= 1);
    assert(b[q + 1] == vb[0]);
    match n.value {
        ValView::Nothing => {},
        ValView::Num(x) => {
            crate::bytes::lemma_be_i64_of_i64_be(x);
        },
        ValView::Txt(t) => {
            let tb = encode_utf8(t);
            assert forall|j: int| q + 2 <= j < e implies b[j] != COMMA by {
                assert(b[j] == vb[j - (q + 1)]);
                assert(vb[j - (q + 1)] == tb[j - (q + 2)]);
                assert(tb.contains(tb[j - (q + 2)]));
            }
            lemma_find_byte(b, q + 2, COMMA, e);
        },
        ValView::Bool(_) => {},
    }
    assert(value_end(b, q + 1) == Ok::<int, FormatError>(e));
    lemma_value_round_trip(n.value);
}

/// Where a record stands, its head stands, and its relations behind it,
/// and its line feed behind them.
proof fn lemma_record_parts(b: Seq<u8>, s: int, n: NodeView)
    requires
        0 <= s,
        s + encode_node(n).len() <= b.len(),
        b.subrange(s, s + encode_node(n).len()) == encode_node(n),
    ensures
        encode_node(n).len() == encode_head(n).len() + encode_relations(n.relations).len() + 1,
        b.subrange(s, s + encode_head(n).len()) == encode_head(n),
        b.subrange(
            s + encode_head(n).len(),
            s + encode_head(n).len() + encode_relations(n.relations).len(),
        ) == encode_relations(n.relations),
        b[s + encode_head(n).len() + encode_relations(n.relations).len()] == NEWLINE,
{
    let rec = encode_node(n);
    let head = encode_head(n);
    let rb = encode_relations(n.relations);
    let hl = head.len() as int;
    assert(rec =~= head + rb + seq![NEWLINE]);
    assert forall|k: int| 0 <= k < rec.len() implies b[s + k] == rec[k] by {
        assert(b.subrange(s, s + rec.len())[k] == b[s + k]);
    }
    assert(b.subrange(s, s + hl) =~= head) by {
        assert forall|k: int| 0 <= k < hl implies b[s + k] == head[k] by {
            assert(rec[k] == head[k]);
        }
    }
    assert(b.subrange(s + hl, s + hl + rb.len()) =~= rb) by {
        assert forall|k: int| 0 <= k < rb.len() implies b[s + hl + k] == rb[k] by {
            assert(rec[hl + k] == rb[k]);
        }
    }
    assert(rec[hl + rb.len()] == NEWLINE);
}

/// A record that stands anywhere in a byte string is read back from there as
/// the node it was made from, without the backlinks, and the reading ends
/// behind its line feed.
pub proof fn lemma_record_round_trip_at(b: Seq<u8>, s: int, n: NodeView)
    requires
        separable(n),
        0 <= s,
        s + encode_node(n).len() <= b.len(),
        b.subrange(s, s + encode_node(n).len()) == encode_node(n),
    ensures
        parse_record(b, s) == Ok::<(NodeView, int), FormatError>(
            (n.stored(), s + encode_node(n).len()),
        ),
{
    lemma_record_parts(b, s, n);
    lemma_head_round_trip_at(b, s, n);
    lemma_parse_relations_of_encoded(b, s + encode_head(n).len(), n.relations);
}

/// A relation list that makes up the rest of a single record, with or
/// without the line feed, is read back as it was, whatever its entries.
pub proof fn lemma_parse_relations_alone(b: Seq<u8>, p: int, r: Seq<u64>)
    requires
        0 <= p <= b.len(),
        b.subrange(p, b.len() as int) == encode_relations(r) || b.subrange(p, b.len() as int)
            == encode_relations(r) + seq![NEWLINE],
    ensures
        parse_relations_alone(b, p) == Ok::<Seq<u64>, FormatError>(r),
    decreases r.len(),
{
    let tail = b.subrange(p, b.len() as int);
    lemma_encode_relations_len(r);
    if r.len() == 0 {
        assert(r =~= Seq::<u64>::empty());
        if tail.len() > 0 {
            assert(b[p] == tail[0]);
        }
    } else {
        let rest = r.drop_first();
        let enc = encode_relations(r);
        lemma_encode_relations_front(r);
        lemma_encode_relations_len(rest);
        lemma_be_u64_of_u64_be(r[0]);
        assert(tail.len() >= 9);
        assert forall|k: int| 0 <= k < enc.len() implies b[p + k] == enc[k] by {
            assert(tail[k] == b[p + k]);
        }
        assert(b[p + 8] == enc[8]);
        assert(b.subrange(p, p + 8) =~= u64_be(r[0]));
        let after = b.subrange(p + 9, b.len() as int);
        if tail == enc {
            assert(after =~= encode_relations(rest)) by {
                assert forall|k: int| 0 <= k < after.len() implies after[k] == encode_relations(
                    rest,
                )[k] by {
                    assert(tail[9 + k] == b[p + 9 + k]);
                    assert(enc[9 + k] == encode_relations(rest)[k]);
                }
            }
        } else {
            assert(after =~= encode_relations(rest) + seq![NEWLINE]) by {
                assert forall|k: int| 0 <= k < after.len() implies after[k] == (encode_relations(
                    rest,
                ) + seq![NEWLINE])[k] by {
                    assert(tail[9 + k] == b[p + 9 + k]);
                    if k < encode_relations(rest).len() {
                        assert(enc[9 + k] == encode_relations(rest)[k]);
                    }
                }
            }
        }
        lemma_parse_relations_alone(b, p + 9, rest);
        assert(seq![r[0]] + rest =~= r);
    }
}

/// A node comes back from its own record, read with its line feed or
/// without it: its identifier, name, value and relations as they were, and
/// no backlinks.
pub proof fn lemma_node_round_trip(n: NodeView)
    requires
        delimited(n),
    ensures
        decode_node(encode_node(n)) == Ok::<NodeView, FormatError>(n.stored()),
        decode_node(encode_node(n).drop_last()) == Ok::<NodeView, FormatError>(n.stored()),
{
    let full = encode_node(n);
    let bare = full.drop_last();
    let head = encode_head(n);
    let rb = encode_relations(n.relations);
    let hl = head.len() as int;
    assert(full =~= head + rb + seq![NEWLINE]);
    assert(bare =~= head + rb);
    assert(full.subrange(0, hl) =~= head);
    assert(bare.subrange(0, hl) =~= head);
    lemma_head_round_trip_at(full, 0, n);
    lemma_head_round_trip_at(bare, 0, n);
    assert(full.subrange(hl, full.len() as int) =~= rb + seq![NEWLINE]);
    assert(bare.subrange(hl, bare.len() as int) =~= rb);
    lemma_parse_relations_alone(full, hl, n.relations);
    lemma_parse_relations_alone(bare, hl, n.relations);
}

impl Node {
    /// The byte record of this node.
    pub fn to_bytes(&self) -> (out: Vec<u8>)
        ensures
            out@ == encode_node(self@),
    {
        let mut out: Vec<u8> = Vec::new();
        push_u64_be(&mut out, self.id);
        out.push(COMMA);
        push_str_bytes(&mut out, self.name.as_str());
        out.push(COMMA);
        let mut value = self.value.to_bytes();
        out.append(&mut value);
        out.push(COMMA);
        let ghost head = out@;
        let mut i: usize = 0;
        while i < self.relations.len()
            invariant
                i <= self.relations.len(),
                out@ == head + encode_relations(self.relations@.subrange(0, i as int)),
            decreases self.relations.len() - i,
        {
            let ghost before = self.relations@.subrange(0, i as int);
            push_u64_be(&mut out, self.relations[i]);
            out.push(COLON);
            i += 1;
            proof {
                let now = self.relations@.subrange(0, i as int);
                assert(now.drop_last() =~= before);
                assert(out@ =~= head + encode_relations(now));
            }
        }
        out.push(NEWLINE);
        proof {
            assert(self.relations@.subrange(0, i as int) =~= self.relations@);
            assert(out@ =~= encode_node(self@));
        }
        out
    }

    /// Reads the relation list that starts at `start`.
    fn relations_at(bytes: &Vec<u8>, start: usize) -> (r: Result<(Vec<u64>, usize), FormatError>)
        requires
            start <= bytes.len(),
        ensures
            match r {
                Ok((v, end)) => parse_relations(bytes@, start as int) == Ok::<
                    (Seq<u64>, int),
                    FormatError,
                >((v@, end as int)) && start <= end <= bytes.len(),
                Err(e) => parse_relations(bytes@, start as int) == Err::<
                    (Seq<u64>, int),
                    FormatError,
                >(e),
            },
    {
        let n = bytes.len();
        let mut out: Vec<u64> = Vec::new();
        let mut p: usize = start;
        loop
            invariant
                start <= p <= n == bytes.len(),
                parse_relations(bytes@, start as int) == match parse_relations(bytes@, p as int) {
                    Ok((rest, end)) => Ok::<(Seq<u64>, int), FormatError>((out@ + rest, end)),
                    Err(e) => Err(e),
                },
            decreases n - p,
        {
            if p >= n {
                assert(out@ + Seq::<u64>::empty() =~= out@);
                return Ok((out, n));
            }
            if bytes[p] == NEWLINE {
                assert(out@ + Seq::<u64>::empty() =~= out@);
                return Ok((out, p + 1));
            }
            if n - p < 9 {
                return Err(FormatError::Truncated);
            }
            if bytes[p + 8] != COLON {
                return Err(FormatError::WrongWidth);
            }
            let ghost before = out@;
            let r = read_u64_be(bytes, p);
            out.push(r);
            proof {
                match parse_relations(bytes@, p + 9) {
                    Ok((rest, end)) => {
                        assert(before + (seq![r] + rest) =~= out@ + rest);
                    },
                    Err(e) => {},
                }
            }
            p += 9;
        }
    }

    /// Reads the head of the record that starts at `start`: a node without
    /// relations, and the place where the relations start.
    fn head_at(bytes: &Vec<u8>, start: usize) -> (r: Result<(Node, usize), FormatError>)
        requires
            start <= bytes.len(),
        ensures
            match r {
                Ok((node, p)) => parse_head(bytes@, start as int) == Ok::<
                    (NodeView, int),
                    FormatError,
                >((node@, p as int)) && start < p <= bytes.len(),
                Err(e) => parse_head(bytes@, start as int) == Err::<(NodeView, int), FormatError>(
                    e,
                ),
            },
    {
        let n = bytes.len();
        if n - start < 9 {
            return Err(FormatError::Truncated);
        }
        if bytes[start + 8] != COMMA {
            return Err(FormatError::WrongWidth);
        }
        let id = read_u64_be(bytes, start);
        let q = Self::seek(bytes, start + 9, COMMA);
        if q >= n {
            return Err(FormatError::MissingSeparator);
        }
        let name = match string_from_utf8(copy_range(bytes, start + 9, q)) {
            Some(s) => s,
            None => {
                return Err(FormatError::InvalidUtf8);
            },
        };
        proof {
            encode_utf8_decode_utf8(name@);
        }
        let p = q + 1;
        if p >= n {
            return Err(FormatError::Truncated);
        }
        let tag = bytes[p];
        let e: usize = if tag == TAG_NOTHING {
            p + 1
        } else if tag == TAG_NUM {
            if n - p < 9 {
                return Err(FormatError::Truncated);
            }
            p + 9
        } else if tag == TAG_TXT {
            let t = Self::seek(bytes, p + 1, COMMA);
            if t >= n {
                return Err(FormatError::MissingSeparator);
            }
            t
        } else if tag == TAG_BOOL {
            if n - p < 2 {
                return Err(FormatError::Truncated);
            }
            p + 2
        } else {
            return Err(FormatError::UnknownDiscriminant);
        };
        let value = match Val::from_bytes(copy_range(bytes, p, e)) {
            Ok(v) => v,
            Err(err) => {
                return Err(err);
            },
        };
        if e >= n {
            return Err(FormatError::Truncated);
        }
        if bytes[e] != COMMA {
            return Err(FormatError::WrongWidth);
        }
        Ok((Node { name, id, value, relations: Vec::new(), backlinks: Vec::new() }, e + 1))
    }


    /// Reads the relation list from `start` to the end of a single record.
    fn relations_alone(bytes: &Vec<u8>, start: usize) -> (r: Result<Vec<u64>, FormatError>)
        requires
            start <= bytes.len(),
        ensures
            match r {
                Ok(v) => parse_relations_alone(bytes@, start as int) == Ok::<
                    Seq<u64>,
                    FormatError,
                >(v@),
                Err(e) => parse_relations_alone(bytes@, start as int) == Err::<
                    Seq<u64>,
                    FormatError,
                >(e),
            },
    {
        let n = bytes.len();
        let mut out: Vec<u64> = Vec::new();
        let mut p: usize = start;
        loop
            invariant
                start <= p <= n == bytes.len(),
                parse_relations_alone(bytes@, start as int) == match parse_relations_alone(
                    bytes@,
                    p as int,
                ) {
                    Ok(rest) => Ok::<Seq<u64>, FormatError>(out@ + rest),
                    Err(e) => Err(e),
                },
            decreases n - p,
        {
            if p >= n || (bytes[p] == NEWLINE && n - p == 1) {
                assert(out@ + Seq::<u64>::empty() =~= out@);
                return Ok(out);
            }
            if n - p < 9 {
                return Err(FormatError::Truncated);
            }
            if bytes[p + 8] != COLON {
                return Err(FormatError::WrongWidth);
            }
            let ghost before = out@;
            let r = read_u64_be(bytes, p);
            out.push(r);
            proof {
                match parse_relations_alone(bytes@, p + 9) {
                    Ok(rest) => {
                        assert(before + (seq![r] + rest) =~= out@ + rest);
                    },
                    Err(e) => {},
                }
            }
            p += 9;
        }
    }

    /// Reads the record that starts at `start` among others, and says where
    /// the next one starts. The node comes without backlinks: a record
    /// holds none. A line feed where a relation would start ends the record.
    pub fn decode_at(bytes: &Vec<u8>, start: usize) -> (r: Result<(Node, usize), FormatError>)
        requires
            start <= bytes.len(),
        ensures
            match r {
                Ok((node, end)) => parse_record(bytes@, start as int) == Ok::<
                    (NodeView, int),
                    FormatError,
                >((node@, end as int)) && start < end <= bytes.len(),
                Err(e) => parse_record(bytes@, start as int) == Err::<(NodeView, int), FormatError>(
                    e,
                ),
            },
    {
        match Self::head_at(bytes, start) {
            Err(e) => Err(e),
            Ok((head, p)) => match Self::relations_at(bytes, p) {
                Err(e) => Err(e),
                Ok((relations, end)) => {
                    let Node { name, id, value, relations: _, backlinks } = head;
                    Ok((Node { name, id, value, relations, backlinks }, end))
                },
            },
        }
    }

    /// The place of the first `x` at or behind `from`, or the length of `bytes`.
    fn seek(bytes: &Vec<u8>, from: usize, x: u8) -> (q: usize)
        requires
            from <= bytes.len(),
        ensures
            q == find_byte(bytes@, from as int, x),
            from <= q <= bytes.len(),
    {
        let mut q: usize = from;
        while q < bytes.len() && bytes[q] != x
            invariant
                from <= q <= bytes.len(),
                forall|j: int| from <= j < q ==> bytes@[j] != x,
            decreases bytes.len() - q,
        {
            q += 1;
        }
        proof {
            lemma_find_byte(bytes@, from as int, x, q as int);
        }
        q
    }

    /// The node that `bytes` is the record of. The record may end with its
    /// line feed or without it, and nothing may follow. A line feed ends
    /// the relations only where it is the last byte: elsewhere it is the
    /// first byte of a relation.
    pub fn from_bytes(bytes: Vec<u8>) -> (r: Result<Node, FormatError>)
        ensures
            match r {
                Ok(node) => decode_node(bytes@) == Ok::<NodeView, FormatError>(node@),
                Err(e) => decode_node(bytes@) == Err::<NodeView, FormatError>(e),
            },
    {
        match Self::head_at(&bytes, 0) {
            Err(e) => Err(e),
            Ok((head, p)) => match Self::relations_alone(&bytes, p) {
                Err(e) => Err(e),
                Ok(relations) => {
                    let Node { name, id, value, relations: _, backlinks } = head;
                    Ok(Node { name, id, value, relations, backlinks })
                },
            },
        }
    }
}

} // verus!
