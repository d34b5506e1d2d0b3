//! Whole graphs as bytes: the records of all nodes, one behind the other,
//! and the graph that such bytes describe.

use vstd::prelude::*;
use crate::error::{FormatError, GraphError};
use crate::graph::Graph;
use crate::model::{first_missing, GraphView};
use crate::model::{lemma_empty_wf, lemma_first_missing, lemma_set_relations_wf};
use crate::model::{lemma_with_fresh_linked, lemma_with_fresh_wf};
use crate::node::{clone_ids, encode_node, lemma_record_round_trip_at, parse_record, plain_id};
use crate::node::{separable, Node, NodeView, NEWLINE};
use crate::bytes::lemma_be_u64_of_u64_be;

verus! {

/// The records of `nodes`, one behind the other.
pub open spec fn encode_all(nodes: Seq<NodeView>) -> Seq<u8>
    decreases nodes.len(),
{
    if nodes.len() == 0 {
        Seq::empty()
    } else {
        encode_all(nodes.drop_last()) + encode_node(nodes.last())
    }
}

/// Whether `bytes` holds the records of all nodes of `g`, each once, in some order.
pub open spec fn is_snapshot(g: GraphView, bytes: Seq<u8>) -> bool {
    exists|order: Seq<u64>|
        order.no_duplicates() && order.to_set() == g.nodes.dom() && bytes == encode_all(
            #[trigger] g.lookup(order),
        )
}

/// The records in `b` from `start` on. A line feed where a record would
/// start is passed over.
pub open spec fn parse_records(b: Seq<u8>, start: int) -> Result<Seq<NodeView>, FormatError>
    decreases b.len() - start,
{
    if start < 0 || start >= b.len() {
        Ok(Seq::empty())
    } else if b[start] == NEWLINE {
        parse_records(b, start + 1)
    } else {
        match parse_record(b, start) {
            Err(e) => Err(e),
            Ok((node, next)) => if next <= start || next > b.len() {
                Err(FormatError::Truncated)
            } else {
                match parse_records(b, next) {
                    Err(e) => Err(e),
                    Ok(rest) => Ok(seq![node] + rest),
                }
            },
        }
    }
}

/// `g` with a fresh node for each record, in their order: the identifier,
/// name and value of the record, no relations yet.
pub open spec fn load_nodes(g: GraphView, records: Seq<NodeView>) -> Result<GraphView, FormatError>
    decreases records.len(),
{
    if records.len() == 0 {
        Ok(g)
    } else if records[0].id == u64::MAX {
        Err(FormatError::IdOutOfRange)
    } else if g.has(records[0].id) {
        Err(FormatError::DuplicateId(records[0].id))
    } else {
        load_nodes(
            g.with_fresh(records[0].id, records[0].name, records[0].value),
            records.drop_first(),
        )
    }
}

/// `g` with the relations of each record set, in their order, and the
/// backlinks that follow from them.
pub open spec fn load_links(g: GraphView, records: Seq<NodeView>) -> Result<GraphView, FormatError>
    decreases records.len(),
{
    if records.len() == 0 {
        Ok(g)
    } else {
        match first_missing(g.nodes, records[0].relations) {
            Some(t) => Err(FormatError::DanglingRelation(t)),
            None => load_links(
                g.set_relations(records[0].id, records[0].relations),
                records.drop_first(),
            ),
        }
    }
}

/// The graph that the records describe: first all nodes, then all relations.
pub open spec fn load(records: Seq<NodeView>) -> Result<GraphView, FormatError> {
    match load_nodes(GraphView::empty(), records) {
        Err(e) => Err(e),
        Ok(g) => load_links(g, records),
    }
}

/// The graph that `b` describes, or why it describes none.
pub open spec fn decode_graph(b: Seq<u8>) -> Result<GraphView, FormatError> {
    match parse_records(b, 0) {
        Err(e) => Err(e),
        Ok(records) => load(records),
    }
}

/// What each of the nodes stands for.
pub open spec fn node_views(nodes: Seq<Node>) -> Seq<NodeView> {
    Seq::new(nodes.len(), |i: int| nodes[i]@)
}

/// The records of a list with one more node end with the record of that node.
pub proof fn lemma_encode_all_push(nodes: Seq<NodeView>, n: NodeView)
    ensures
        encode_all(nodes.push(n)) == encode_all(nodes) + encode_node(n),
{
    assert(nodes.push(n).drop_last() =~= nodes);
}

/// Each of `nodes` as a record holds it.
pub open spec fn stored_all(nodes: Seq<NodeView>) -> Seq<NodeView> {
    Seq::new(nodes.len(), |i: int| nodes[i].stored())
}

/// A graph that its own bytes can hold: no comma in a name or a text, and
/// no identifier, of a node or in a relation, that starts with a line feed.
pub open spec fn storable(g: GraphView) -> bool {
    forall|id: u64| #[trigger] g.has(id) ==> separable(g.nodes[id]) && plain_id(id)
}

/// The records of a list start with the record of its first node.
pub proof fn lemma_encode_all_front(nodes: Seq<NodeView>)
    requires
        nodes.len() > 0,
    ensures
        encode_all(nodes) == encode_node(nodes[0]) + encode_all(nodes.drop_first()),
    decreases nodes.len(),
{
    if nodes.len() == 1 {
        assert(nodes.drop_last() =~= Seq::<NodeView>::empty());
        assert(nodes.drop_first() =~= Seq::<NodeView>::empty());
        assert(encode_all(nodes) =~= encode_node(nodes[0]) + encode_all(nodes.drop_first()));
    } else {
        lemma_encode_all_front(nodes.drop_last());
        assert(nodes.drop_last().drop_first() =~= nodes.drop_first().drop_last());
        assert(nodes.drop_first().last() == nodes.last());
        assert(encode_all(nodes) =~= encode_node(nodes[0]) + encode_all(nodes.drop_first()));
    }
}

/// Records written one behind the other are read back one by one.
pub proof fn lemma_parse_records_of_encoded(b: Seq<u8>, s: int, nodes: Seq<NodeView>)
    requires
        0 <= s <= b.len(),
        b.subrange(s, b.len() as int) == encode_all(nodes),
        forall|i: int| 0 <= i < nodes.len() ==> separable(#[trigger] nodes[i]) && plain_id(nodes[i].id),
    ensures
        parse_records(b, s) == Ok::<Seq<NodeView>, FormatError>(stored_all(nodes)),
    decreases nodes.len(),
{
    if nodes.len() == 0 {
        assert(b.subrange(s, b.len() as int).len() == 0);
        assert(stored_all(nodes) =~= Seq::<NodeView>::empty());
    } else {
        let n = nodes[0];
        let rest = nodes.drop_first();
        let rec = encode_node(n);
        let tail = b.subrange(s, b.len() as int);
        lemma_encode_all_front(nodes);
        lemma_be_u64_of_u64_be(n.id);
        assert(separable(n) && plain_id(n.id));
        assert(rec.len() >= 11);
        assert(tail.len() == rec.len() + encode_all(rest).len());
        assert(b[s] == tail[0]);
        assert(tail[0] == rec[0]);
        assert(b[s] != NEWLINE);
        assert(b.subrange(s, s + rec.len()) =~= rec) by {
            assert forall|k: int| 0 <= k < rec.len() implies b[s + k] == rec[k] by {
                assert(tail[k] == rec[k]);
            }
        }
        lemma_record_round_trip_at(b, s, n);
        assert(b.subrange(s + rec.len(), b.len() as int) =~= encode_all(rest)) by {
            assert forall|k: int| 0 <= k < encode_all(rest).len() implies b[s + rec.len() + k]
                == encode_all(rest)[k] by {
                assert(tail[rec.len() + k] == encode_all(rest)[k]);
            }
        }
        assert forall|i: int| 0 <= i < rest.len() implies separable(#[trigger] rest[i])
            && plain_id(rest[i].id) by {
            assert(rest[i] == nodes[i + 1]);
        }
        lemma_parse_records_of_encoded(b, s + rec.len(), rest);
        assert(seq![n.stored()] + stored_all(rest) =~= stored_all(nodes));
    }
}

/// Loading the nodes of records with distinct new identifiers adds a fresh
/// node for each and changes nothing else.
pub proof fn lemma_load_nodes(g: GraphView, records: Seq<NodeView>)
    requires
        g.wf(),
        forall|i: int| 0 <= i < records.len() ==> (#[trigger] records[i]).id < u64::MAX && !g.has(
            records[i].id,
        ),
        forall|i: int, j: int|
            0 <= i < j < records.len() ==> (#[trigger] records[i]).id != (#[trigger] records[j]).id,
    ensures
        load_nodes(g, records) is Ok,
        load_nodes(g, records)->Ok_0.wf(),
        forall|id: u64|
            g.has(id) ==> (#[trigger] load_nodes(g, records)->Ok_0.has(id)) && load_nodes(
                g,
                records,
            )->Ok_0.nodes[id] == g.nodes[id],
        forall|i: int|
            0 <= i < records.len() ==> load_nodes(g, records)->Ok_0.has(
                (#[trigger] records[i]).id,
            ) && load_nodes(g, records)->Ok_0.nodes[records[i].id] == NodeView::fresh(
                records[i].id,
                records[i].name,
                records[i].value,
            ),
        forall|id: u64| #[trigger]
            load_nodes(g, records)->Ok_0.has(id) ==> g.has(id) || exists|i: int|
                0 <= i < records.len() && (#[trigger] records[i]).id == id,
    decreases records.len(),
{
    if records.len() > 0 {
        let n = records[0];
        let rest = records.drop_first();
        let g1 = g.with_fresh(n.id, n.name, n.value);
        lemma_with_fresh_wf(g, n.id, n.name, n.value);
        assert forall|i: int| 0 <= i < rest.len() implies (#[trigger] rest[i]).id < u64::MAX
            && !g1.has(rest[i].id) by {
            assert(rest[i] == records[i + 1]);
            assert(records[0].id != records[i + 1].id);
        }
        assert forall|i: int, j: int| 0 <= i < j < rest.len() implies (#[trigger] rest[i]).id != (
        #[trigger] rest[j]).id by {
            assert(rest[i] == records[i + 1]);
            assert(rest[j] == records[j + 1]);
        }
        lemma_load_nodes(g1, rest);
        let h = load_nodes(g, records)->Ok_0;
        assert(h == load_nodes(g1, rest)->Ok_0);
        assert forall|id: u64| g.has(id) implies (#[trigger] h.has(id)) && h.nodes[id]
            == g.nodes[id] by {
            assert(g1.has(id));
        }
        assert forall|i: int| 0 <= i < records.len() implies h.has((#[trigger] records[i]).id)
            && h.nodes[records[i].id] == NodeView::fresh(
            records[i].id,
            records[i].name,
            records[i].value,
        ) by {
            if i == 0 {
                assert(g1.has(n.id));
            } else {
                assert(rest[i - 1] == records[i]);
            }
        }
        assert forall|id: u64| #[trigger] h.has(id) implies g.has(id) || exists|i: int|
            0 <= i < records.len() && (#[trigger] records[i]).id == id by {
            if !g1.has(id) {
                let i = choose|i: int| 0 <= i < rest.len() && (#[trigger] rest[i]).id == id;
                assert(records[i + 1].id == id);
            } else if !g.has(id) {
                assert(records[0].id == id);
            }
        }
    }
}

/// Loading the relations of records with distinct identifiers, all of them
/// nodes and all their targets nodes, sets the relations of each and keeps
/// every relation matched.
pub proof fn lemma_load_links(g: GraphView, records: Seq<NodeView>)
    requires
        g.wf(),
        g.linked(),
        forall|i: int| 0 <= i < records.len() ==> g.has((#[trigger] records[i]).id),
        forall|i: int, j: int|
            0 <= i < j < records.len() ==> (#[trigger] records[i]).id != (#[trigger] records[j]).id,
        forall|i: int, k: int|
            0 <= i < records.len() && 0 <= k < records[i].relations.len() ==> g.has(
                #[trigger] records[i].relations[k],
            ),
    ensures
        load_links(g, records) is Ok,
        load_links(g, records)->Ok_0.wf(),
        load_links(g, records)->Ok_0.linked(),
        load_links(g, records)->Ok_0.nodes.dom() == g.nodes.dom(),
        forall|id: u64| #[trigger]
            g.has(id) ==> {
                let h = load_links(g, records)->Ok_0;
                &&& h.nodes[id].id == g.nodes[id].id
                &&& h.nodes[id].name == g.nodes[id].name
                &&& h.nodes[id].value == g.nodes[id].value
            },
        forall|i: int|
            0 <= i < records.len() ==> load_links(g, records)->Ok_0.nodes[(
            #[trigger] records[i]).id].relations == records[i].relations,
        forall|id: u64|
            g.has(id) && (forall|i: int| 0 <= i < records.len() ==> (#[trigger] records[i]).id
                != id) ==> (#[trigger] load_links(g, records)->Ok_0.nodes[id]).relations
                == g.nodes[id].relations,
    decreases records.len(),
{
    if records.len() > 0 {
        let n = records[0];
        let rest = records.drop_first();
        assert(g.has(n.id));
        assert forall|k: int| 0 <= k < n.relations.len() implies g.nodes.contains_key(
            #[trigger] n.relations[k],
        ) by {
            assert(g.has(records[0].relations[k]));
        }
        lemma_first_missing(g.nodes, n.relations);
        lemma_set_relations_wf(g, n.id, n.relations);
        let g1 = g.set_relations(n.id, n.relations);
        assert(g1.nodes.dom() =~= g.nodes.dom());
        assert forall|i: int| 0 <= i < rest.len() implies g1.has((#[trigger] rest[i]).id) by {
            assert(rest[i] == records[i + 1]);
            assert(g.has(records[i + 1].id));
        }
        assert forall|i: int, j: int| 0 <= i < j < rest.len() implies (#[trigger] rest[i]).id != (
        #[trigger] rest[j]).id by {
            assert(rest[i] == records[i + 1]);
            assert(rest[j] == records[j + 1]);
        }
        assert forall|i: int, k: int|
            0 <= i < rest.len() && 0 <= k < rest[i].relations.len() implies g1.has(
            #[trigger] rest[i].relations[k],
        ) by {
            assert(rest[i] == records[i + 1]);
            assert(g.has(records[i + 1].relations[k]));
        }
        lemma_load_links(g1, rest);
        let h = load_links(g, records)->Ok_0;
        assert(h == load_links(g1, rest)->Ok_0);
        assert(h.nodes.dom() =~= g.nodes.dom());
        assert forall|id: u64| #[trigger] g.has(id) implies h.nodes[id].id == g.nodes[id].id
            && h.nodes[id].name == g.nodes[id].name && h.nodes[id].value == g.nodes[id].value by {
            assert(g1.has(id));
        }
        assert forall|i: int| 0 <= i < records.len() implies h.nodes[(
        #[trigger] records[i]).id].relations == records[i].relations by {
            if i == 0 {
                assert forall|j: int| 0 <= j < rest.len() implies (#[trigger] rest[j]).id
                    != n.id by {
                    assert(rest[j] == records[j + 1]);
                    assert(records[0].id != records[j + 1].id);
                }
                assert(g1.has(n.id));
                assert(h.nodes[n.id].relations == g1.nodes[n.id].relations);
            } else {
                assert(rest[i - 1] == records[i]);
            }
        }
        assert forall|id: u64|
            g.has(id) && (forall|i: int| 0 <= i < records.len() ==> (#[trigger] records[i]).id
                != id) implies (#[trigger] h.nodes[id]).relations == g.nodes[id].relations by {
            assert(g1.has(id));
            assert(records[0].id != id);
            assert forall|j: int| 0 <= j < rest.len() implies (#[trigger] rest[j]).id != id by {
                assert(rest[j] == records[j + 1]);
            }
            assert(h.nodes[id].relations == g1.nodes[id].relations);
        }
    } else {
        assert(load_links(g, records)->Ok_0 == g);
    }
}

/// The records of the nodes of a graph, written in some order, are read
/// back as they were written.
proof fn lemma_round_trip_records(g: GraphView, order: Seq<u64>)
    requires
        storable(g),
        forall|i: int| 0 <= i < order.len() ==> g.has(#[trigger] order[i]),
        forall|id: u64| #[trigger] g.has(id) ==> g.nodes[id].id == id,
    ensures
        parse_records(encode_all(g.lookup(order)), 0) == Ok::<Seq<NodeView>, FormatError>(
            stored_all(g.lookup(order)),
        ),
{
    let nodes = g.lookup(order);
    let bytes = encode_all(nodes);
    assert forall|i: int| 0 <= i < nodes.len() implies separable(#[trigger] nodes[i]) && plain_id(
        nodes[i].id,
    ) by {
        assert(g.has(order[i]));
    }
    assert(bytes.subrange(0, bytes.len() as int) =~= bytes);
    lemma_parse_records_of_encoded(bytes, 0, nodes);
}

/// Loading the nodes of the records of a graph gives its nodes, each
/// without relations and backlinks.
proof fn lemma_round_trip_nodes(g: GraphView, order: Seq<u64>)
    requires
        order.no_duplicates(),
        order.to_set() == g.nodes.dom(),
        forall|id: u64| #[trigger] g.has(id) ==> g.nodes[id].id == id && id < u64::MAX,
    ensures
        load_nodes(GraphView::empty(), stored_all(g.lookup(order))) is Ok,
        ({
            let h = load_nodes(GraphView::empty(), stored_all(g.lookup(order)))->Ok_0;
            &&& h.wf()
            &&& h.linked()
            &&& h.nodes.dom() == g.nodes.dom()
            &&& forall|id: u64| #[trigger]
                g.has(id) ==> h.nodes[id] == NodeView::fresh(
                    id,
                    g.nodes[id].name,
                    g.nodes[id].value,
                )
        }),
{
    let records = stored_all(g.lookup(order));
    let e = GraphView::empty();
    lemma_empty_wf();
    assert forall|i: int| 0 <= i < order.len() implies g.has(#[trigger] order[i]) by {
        assert(order.to_set().contains(order[i]));
    }
    assert forall|i: int| 0 <= i < records.len() implies (#[trigger] records[i]).id < u64::MAX
        && !e.has(records[i].id) by {
        assert(g.has(order[i]));
    }
    assert forall|i: int, j: int| 0 <= i < j < records.len() implies (#[trigger] records[i]).id != (
    #[trigger] records[j]).id by {
        assert(g.has(order[i]) && g.has(order[j]));
    }
    lemma_load_nodes(e, records);
    let h = load_nodes(e, records)->Ok_0;
    assert forall|id: u64| #[trigger] h.has(id) implies g.has(id) by {
        let i = choose|i: int| 0 <= i < records.len() && (#[trigger] records[i]).id == id;
        assert(g.has(order[i]));
    }
    assert forall|id: u64| #[trigger] g.has(id) implies h.has(id) && h.nodes[id]
        == NodeView::fresh(id, g.nodes[id].name, g.nodes[id].value) by {
        assert(order.to_set().contains(id));
        let i = choose|i: int| 0 <= i < order.len() && order[i] == id;
        assert(records[i].id == id);
    }
    assert forall|x: u64| h.nodes.dom().contains(x) <==> g.nodes.dom().contains(x) by {
        if h.nodes.dom().contains(x) {
            assert(h.has(x));
        }
        if g.nodes.dom().contains(x) {
            assert(g.has(x));
        }
    }
    assert(h.nodes.dom() =~= g.nodes.dom());
    assert forall|a: u64, b: u64|
        h.nodes.contains_key(a) && h.nodes.contains_key(b)
            && #[trigger] h.nodes[a].relations.contains(b)
        implies h.nodes[b].backlinks.contains(a) by {
        assert(g.has(a));
        assert(h.nodes[a].relations.len() == 0);
    }
}

/// Loading the relations of the records of a graph into its bare nodes
/// gives each node its relations back.
proof fn lemma_round_trip_links(g: GraphView, bare: GraphView, order: Seq<u64>)
    requires
        bare.wf(),
        bare.linked(),
        bare.nodes.dom() == g.nodes.dom(),
        g.closed(),
        order.no_duplicates(),
        order.to_set() == g.nodes.dom(),
        forall|id: u64| #[trigger] g.has(id) ==> g.nodes[id].id == id,
    ensures
        load_links(bare, stored_all(g.lookup(order))) is Ok,
        ({
            let h = load_links(bare, stored_all(g.lookup(order)))->Ok_0;
            &&& h.wf()
            &&& h.linked()
            &&& h.nodes.dom() == g.nodes.dom()
            &&& forall|id: u64| #[trigger]
                g.has(id) ==> {
                    &&& h.nodes[id].id == bare.nodes[id].id
                    &&& h.nodes[id].name == bare.nodes[id].name
                    &&& h.nodes[id].value == bare.nodes[id].value
                    &&& h.nodes[id].relations == g.nodes[id].relations
                }
        }),
{
    let records = stored_all(g.lookup(order));
    assert forall|i: int| 0 <= i < order.len() implies g.has(#[trigger] order[i]) by {
        assert(order.to_set().contains(order[i]));
    }
    assert forall|i: int| 0 <= i < records.len() implies bare.has((#[trigger] records[i]).id) by {
        assert(g.has(order[i]));
        assert(bare.nodes.dom().contains(order[i]));
    }
    assert forall|i: int, j: int| 0 <= i < j < records.len() implies (#[trigger] records[i]).id != (
    #[trigger] records[j]).id by {
        assert(g.has(order[i]) && g.has(order[j]));
    }
    assert forall|i: int, k: int|
        0 <= i < records.len() && 0 <= k < records[i].relations.len() implies bare.has(
        #[trigger] records[i].relations[k],
    ) by {
        assert(g.has(order[i]));
        assert(g.nodes[order[i]].relations.contains(records[i].relations[k]));
        assert(g.has(records[i].relations[k]));
        assert(bare.nodes.dom().contains(records[i].relations[k]));
    }
    lemma_load_links(bare, records);
    let h = load_links(bare, records)->Ok_0;
    assert forall|id: u64| #[trigger] g.has(id) implies h.nodes[id].id == bare.nodes[id].id
        && h.nodes[id].name == bare.nodes[id].name && h.nodes[id].value == bare.nodes[id].value
        && h.nodes[id].relations == g.nodes[id].relations by {
        assert(bare.nodes.dom().contains(id));
        assert(bare.has(id));
        assert(order.to_set().contains(id));
        let i = choose|i: int| 0 <= i < order.len() && order[i] == id;
        assert(records[i].id == id);
    }
}

/// Two graphs with the same nodes and relations, in each of which a node
/// lists among its backlinks exactly the nodes that point at it, agree on
/// the backlinks of every node, taken as a set.
proof fn lemma_same_backlinks(g: GraphView, h: GraphView, id: u64)
    requires
        g.wf(),
        g.linked(),
        h.wf(),
        h.linked(),
        h.nodes.dom() == g.nodes.dom(),
        forall|x: u64| #[trigger] g.has(x) ==> h.nodes[x].relations == g.nodes[x].relations,
        g.has(id),
    ensures
        h.nodes[id].backlinks.to_set() == g.nodes[id].backlinks.to_set(),
{
    assert(h.nodes.dom().contains(id));
    assert forall|x: u64| h.nodes[id].backlinks.contains(x) <==> g.nodes[id].backlinks.contains(
        x,
    ) by {
        if h.nodes[id].backlinks.contains(x) {
            assert(h.nodes.contains_key(x) && h.nodes[x].relations.contains(id));
            assert(g.nodes.dom().contains(x));
            assert(g.has(x));
        }
        if g.nodes[id].backlinks.contains(x) {
            assert(g.nodes.contains_key(x) && g.nodes[x].relations.contains(id));
            assert(g.has(x));
            assert(h.nodes.dom().contains(x));
        }
    }
    assert(h.nodes[id].backlinks.to_set() =~= g.nodes[id].backlinks.to_set());
}

/// Reading the bytes of a graph gives the graph back: the same nodes with
/// the same names, values and relations, and for each node the same set of
/// backlinks, whatever the order in which the records were written. This
/// holds of a graph whose relations are all matched and all point at nodes
/// that exist, and which its bytes can hold.
pub proof fn lemma_snapshot_round_trip(g: GraphView, bytes: Seq<u8>)
    requires
        g.wf(),
        g.linked(),
        g.closed(),
        storable(g),
        is_snapshot(g, bytes),
    ensures
        decode_graph(bytes) is Ok,
        decode_graph(bytes)->Ok_0.wf(),
        decode_graph(bytes)->Ok_0.linked(),
        decode_graph(bytes)->Ok_0.nodes.dom() == g.nodes.dom(),
        forall|id: u64| #[trigger]
            g.has(id) ==> {
                let h = decode_graph(bytes)->Ok_0;
                &&& h.nodes[id].id == id
                &&& h.nodes[id].name == g.nodes[id].name
                &&& h.nodes[id].value == g.nodes[id].value
                &&& h.nodes[id].relations == g.nodes[id].relations
                &&& h.nodes[id].backlinks.to_set() == g.nodes[id].backlinks.to_set()
            },
{
    let order = choose|order: Seq<u64>|
        order.no_duplicates() && order.to_set() == g.nodes.dom() && bytes == encode_all(
            #[trigger] g.lookup(order),
        );
    let records = stored_all(g.lookup(order));
    assert forall|i: int| 0 <= i < order.len() implies g.has(#[trigger] order[i]) by {
        assert(order.to_set().contains(order[i]));
    }
    lemma_round_trip_records(g, order);
    lemma_round_trip_nodes(g, order);
    let bare = load_nodes(GraphView::empty(), records)->Ok_0;
    lemma_round_trip_links(g, bare, order);
    let h = load_links(bare, records)->Ok_0;
    assert(decode_graph(bytes) == Ok::<GraphView, FormatError>(h));
    assert forall|id: u64| #[trigger] g.has(id) implies h.nodes[id].id == id && h.nodes[id].name
        == g.nodes[id].name && h.nodes[id].value == g.nodes[id].value && h.nodes[id].relations
        == g.nodes[id].relations && h.nodes[id].backlinks.to_set()
        == g.nodes[id].backlinks.to_set() by {
        lemma_same_backlinks(g, h, id);
    }
}

/// The records of `nodes`, one behind the other, in their order.
pub fn serialize_nodevec(nodes: &Vec<Node>) -> (out: Vec<u8>)
    ensures
        out@ == encode_all(node_views(nodes@)),
{
    let mut out: Vec<u8> = Vec::new();
    let mut i: usize = 0;
    assert(node_views(nodes@).subrange(0, 0) =~= Seq::<NodeView>::empty());
    while i < nodes.len()
        invariant
            i <= nodes.len(),
            out@ == encode_all(node_views(nodes@).subrange(0, i as int)),
        decreases nodes.len() - i,
    {
        let ghost done = node_views(nodes@).subrange(0, i as int);
        let mut record = nodes[i].to_bytes();
        out.append(&mut record);
        i += 1;
        proof {
            let now = node_views(nodes@).subrange(0, i as int);
            assert(now =~= done.push(nodes@[i - 1]@));
            lemma_encode_all_push(done, nodes@[i - 1]@);
        }
    }
    assert(node_views(nodes@).subrange(0, i as int) =~= node_views(nodes@));
    out
}

/// The nodes whose records `bytes` holds, in their order and without
/// backlinks. A line feed where a record would start is passed over.
pub fn deserialize_to_nodevec(bytes: &Vec<u8>) -> (r: Result<Vec<Node>, FormatError>)
    ensures
        match r {
            Ok(records) => parse_records(bytes@, 0) == Ok::<Seq<NodeView>, FormatError>(
                node_views(records@),
            ),
            Err(e) => parse_records(bytes@, 0) == Err::<Seq<NodeView>, FormatError>(e),
        },
{
    let n = bytes.len();
    let mut records: Vec<Node> = Vec::new();
    let mut p: usize = 0;
    assert(node_views(records@) + Seq::<NodeView>::empty() =~= node_views(records@));
    while p < n
        invariant
            p <= n == bytes.len(),
            parse_records(bytes@, 0) == match parse_records(bytes@, p as int) {
                Ok(rest) => Ok::<Seq<NodeView>, FormatError>(node_views(records@) + rest),
                Err(e) => Err(e),
            },
        decreases n - p,
    {
        if bytes[p] == NEWLINE {
            p += 1;
        } else {
            match Node::decode_at(bytes, p) {
                Err(e) => {
                    return Err(e);
                },
                Ok((node, next)) => {
                    let ghost before = node_views(records@);
                    let ghost view = node@;
                    records.push(node);
                    proof {
                        assert(node_views(records@) =~= before.push(view));
                        match parse_records(bytes@, next as int) {
                            Ok(rest) => {
                                assert(before + (seq![view] + rest) =~= node_views(records@)
                                    + rest);
                            },
                            Err(e) => {},
                        }
                    }
                    p = next;
                },
            }
        }
    }
    assert(node_views(records@) + Seq::<NodeView>::empty() =~= node_views(records@));
    Ok(records)
}

/// The graph of the nodes `records`: a node for each, with its relations
/// and the backlinks that follow from the relations of all of them; the
/// backlinks that `records` carry are not taken over. No two of the nodes
/// may have one identifier, and every relation has to name one of them.
pub fn deserialize(records: Vec<Node>) -> (r: Result<Graph, FormatError>)
    ensures
        match r {
            Ok(g) => load(node_views(records@)) == Ok::<GraphView, FormatError>(g@) && g.wf()
                && g@.linked(),
            Err(e) => load(node_views(records@)) == Err::<GraphView, FormatError>(e),
        },
{
    let ghost all = node_views(records@);
    let mut g = Graph::new();
    let mut i: usize = 0;
    assert(all.subrange(0, all.len() as int) =~= all);
    while i < records.len()
        invariant
            i <= records.len(),
            all == node_views(records@),
            g.wf(),
            g@.linked(),
            forall|id: u64| #[trigger] g@.has(id) ==> g@.nodes[id].relations.len() == 0,
            forall|k: int| 0 <= k < i ==> g@.has(#[trigger] all[k].id),
            load_nodes(GraphView::empty(), all) == load_nodes(
                g@,
                all.subrange(i as int, all.len() as int),
            ),
        decreases records.len() - i,
    {
        let ghost rest = all.subrange(i as int, all.len() as int);
        let ghost before = g@;
        assert(rest[0] == all[i as int]);
        assert(all[i as int] == records@[i as int]@);
        let id = records[i].id;
        if id == u64::MAX {
            return Err(FormatError::IdOutOfRange);
        }
        if g.contains(id) {
            return Err(FormatError::DuplicateId(id));
        }
        proof {
            assert(!before.referenced(id)) by {
                if before.referenced(id) {
                    let a = choose|a: u64|
                        before.nodes.contains_key(a) && #[trigger] before.nodes[a].relations.contains(
                            id,
                        );
                    assert(before.has(a));
                }
            }
            lemma_with_fresh_wf(before, id, all[i as int].name, all[i as int].value);
            lemma_with_fresh_linked(before, id, all[i as int].name, all[i as int].value);
        }
        g.file(records[i].name.as_str(), records[i].value.clone(), id);
        i += 1;
        proof {
            assert(rest.drop_first() =~= all.subrange(i as int, all.len() as int));
            assert forall|k: int| 0 <= k < i implies g@.has(#[trigger] all[k].id) by {
                if k < i - 1 {
                    assert(before.has(all[k].id));
                }
            }
            assert forall|x: u64| #[trigger] g@.has(x) implies g@.nodes[x].relations.len()
                == 0 by {
                if x != id {
                    assert(before.has(x));
                }
            }
        }
    }
    let ghost bare = g@;
    let mut j: usize = 0;
    assert(all.subrange(0, all.len() as int) =~= all);
    assert(all.subrange(all.len() as int, all.len() as int) =~= Seq::<NodeView>::empty());
    while j < records.len()
        invariant
            j <= records.len(),
            all == node_views(records@),
            load_nodes(GraphView::empty(), all) == Ok::<GraphView, FormatError>(bare),
            g.wf(),
            g@.linked(),
            forall|k: int| 0 <= k < all.len() ==> g@.has(#[trigger] all[k].id),
            load_links(bare, all) == load_links(g@, all.subrange(j as int, all.len() as int)),
        decreases records.len() - j,
    {
        let ghost rest = all.subrange(j as int, all.len() as int);
        let ghost before = g@;
        assert(rest[0] == all[j as int]);
        assert(all[j as int] == records@[j as int]@);
        assert(before.has(all[j as int].id));
        let set = g.set_relations(records[j].id, clone_ids(&records[j].relations));
        match set {
            Err(GraphError::InvalidReference(t)) => {
                return Err(FormatError::DanglingRelation(t));
            },
            _ => {
                assert(set is Ok);
            },
        }
        j += 1;
        proof {
            assert(rest.drop_first() =~= all.subrange(j as int, all.len() as int));
            assert forall|k: int| 0 <= k < all.len() implies g@.has(#[trigger] all[k].id) by {
                assert(before.has(all[k].id));
            }
        }
    }
    Ok(g)
}

impl Graph {
    /// The records of all nodes, one behind the other, in no particular order.
    pub fn to_bytes(&self) -> (out: Vec<u8>)
        ensures
            is_snapshot(self@, out@),
    {
        let ids = self.ids();
        let mut out: Vec<u8> = Vec::new();
        let mut i: usize = 0;
        while i < ids.len()
            invariant
                i <= ids.len(),
                ids@.to_set() == self@.nodes.dom(),
                out@ == encode_all(self@.lookup(ids@.subrange(0, i as int))),
            decreases ids.len() - i,
        {
            let ghost done = ids@.subrange(0, i as int);
            assert(ids@.to_set().contains(ids@[i as int]));
            match self.select_by_id(ids[i]) {
                Some(node) => {
                    let mut record = node.to_bytes();
                    out.append(&mut record);
                },
                None => {},
            }
            i += 1;
            proof {
                let now = ids@.subrange(0, i as int);
                assert(self@.lookup(now) =~= self@.lookup(done).push(self@.nodes[ids@[i - 1]]));
                lemma_encode_all_push(self@.lookup(done), self@.nodes[ids@[i - 1]]);
            }
        }
        proof {
            assert(ids@.subrange(0, i as int) =~= ids@);
            assert(out@ == encode_all(self@.lookup(ids@)));
        }
        out
    }

    /// The graph that `bytes` describes: a node for each record, with its
    /// relations as the record has them and the backlinks that follow from
    /// the relations of all records. No two records may carry one
    /// identifier, and every relation has to name the identifier of a record.
    pub fn from_bytes(bytes: Vec<u8>) -> (r: Result<Graph, FormatError>)
        ensures
            match r {
                Ok(g) => decode_graph(bytes@) == Ok::<GraphView, FormatError>(g@) && g.wf()
                    && g@.linked(),
                Err(e) => decode_graph(bytes@) == Err::<GraphView, FormatError>(e),
            },
    {
        match deserialize_to_nodevec(&bytes) {
            Ok(records) => deserialize(records),
            Err(e) => Err(e),
        }
    }
}

} // verus!
