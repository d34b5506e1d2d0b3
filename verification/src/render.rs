//! Values, nodes and graphs as text for a reader, and a graph as a
//! description of a directed graph for a layout tool.

use vstd::prelude::*;
use vstd::string::StringExecFns;
use crate::error::GraphError;
use crate::graph::Graph;
use crate::model::GraphView;
use crate::node::{Node, NodeView};
use crate::text::{decimal, list_text, push_decimal, push_list, push_signed_decimal};
use crate::text::signed_decimal;
use crate::value::{Val, ValView};

verus! {

/// A value as text: a number in decimal, a text as it is, a boolean as
/// `true` or `false`, the empty value as `None`.
pub open spec fn value_text(v: ValView) -> Seq<char> {
    match v {
        ValView::Nothing => "None"@,
        ValView::Num(x) => signed_decimal(x as int),
        ValView::Txt(t) => t,
        ValView::Bool(b) => if b {
            "true"@
        } else {
            "false"@
        },
    }
}

/// A node as text: four lines, for its identifier, name, value and relations.
pub open spec fn node_text(n: NodeView) -> Seq<char> {
    "id:    "@ + decimal(n.id as nat) + "\nname:  "@ + n.name + "\nvalue: "@ + value_text(n.value)
        + "\nlinks: "@ + list_text(n.relations)
}

/// The nodes as text, each between two rules.
pub open spec fn nodes_text(nodes: Seq<NodeView>) -> Seq<char>
    decreases nodes.len(),
{
    if nodes.len() == 0 {
        Seq::empty()
    } else {
        nodes_text(nodes.drop_last()) + "\n------\n"@ + node_text(nodes.last()) + "\n------"@
    }
}

/// The edges from `id` to each of `targets`, a line each.
pub open spec fn edges_text(id: u64, targets: Seq<u64>) -> Seq<char>
    decreases targets.len(),
{
    if targets.len() == 0 {
        Seq::empty()
    } else {
        edges_text(id, targets.drop_last()) + decimal(id as nat) + " -> "@ + decimal(
            targets.last() as nat,
        ) + "\n"@
    }
}

/// A node for the layout tool: a line that labels it with its text, then
/// its edges.
pub open spec fn node_dot(n: NodeView) -> Seq<char> {
    decimal(n.id as nat) + "[label=\""@ + node_text(n) + "\"]\n"@ + edges_text(n.id, n.relations)
}

/// The nodes for the layout tool, one behind the other.
pub open spec fn nodes_dot(nodes: Seq<NodeView>) -> Seq<char>
    decreases nodes.len(),
{
    if nodes.len() == 0 {
        Seq::empty()
    } else {
        nodes_dot(nodes.drop_last()) + node_dot(nodes.last())
    }
}

/// Whether `text` shows all nodes of `g`, each once, in some order.
pub open spec fn is_listing(g: GraphView, text: Seq<char>) -> bool {
    exists|order: Seq<u64>|
        order.no_duplicates() && order.to_set() == g.nodes.dom() && text == nodes_text(
            #[trigger] g.lookup(order),
        )
}

/// Whether `text` describes `g` for the layout tool: a directed graph with
/// all nodes of `g`, each once, in some order.
pub open spec fn is_dot(g: GraphView, text: Seq<char>) -> bool {
    exists|order: Seq<u64>|
        order.no_duplicates() && order.to_set() == g.nodes.dom() && text == "digraph {\n"@
            + nodes_dot(#[trigger] g.lookup(order)) + "}"@
}

/// What a refusal says to a reader.
pub open spec fn error_text(e: GraphError) -> Seq<char> {
    match e {
        GraphError::NotFound => "Could not find node under given id!"@,
        GraphError::InvalidReference(t) => "Could not find node under id in relations: ["@
            + decimal(t as nat) + "]"@,
    }
}

impl GraphError {
    /// This refusal in words.
    pub fn message(&self) -> (s: String)
        ensures
            s@ == error_text(*self),
    {
        match self {
            GraphError::NotFound => String::from_str("Could not find node under given id!"),
            GraphError::InvalidReference(t) => {
                let mut s = String::from_str("Could not find node under id in relations: [");
                push_decimal(&mut s, *t);
                s.append("]");
                s
            },
        }
    }
}

impl Val {
    /// Appends this value as text to `out`.
    pub fn write_text(&self, out: &mut String)
        ensures
            final(out)@ == old(out)@ + value_text(self@),
    {
        match self {
            Val::Nothing => {
                out.append("None");
            },
            Val::Num(x) => {
                push_signed_decimal(out, *x);
            },
            Val::Txt(t) => {
                out.append(t.as_str());
            },
            Val::Bool(b) => {
                if *b {
                    out.append("true");
                } else {
                    out.append("false");
                }
            },
        }
    }

    /// This value as text.
    pub fn to_text(&self) -> (s: String)
        ensures
            s@ == value_text(self@),
    {
        let mut s = String::new();
        self.write_text(&mut s);
        assert(s@ =~= value_text(self@));
        s
    }
}

impl Node {
    /// Appends this node as text to `out`.
    pub fn write_text(&self, out: &mut String)
        ensures
            final(out)@ == old(out)@ + node_text(self@),
    {
        out.append("id:    ");
        push_decimal(out, self.id);
        out.append("\nname:  ");
        out.append(self.name.as_str());
        out.append("\nvalue: ");
        self.value.write_text(out);
        out.append("\nlinks: ");
        push_list(out, &self.relations);
        assert(out@ =~= old(out)@ + node_text(self@));
    }

    /// This node as text.
    pub fn to_text(&self) -> (s: String)
        ensures
            s@ == node_text(self@),
    {
        let mut s = String::new();
        self.write_text(&mut s);
        assert(s@ =~= node_text(self@));
        s
    }

    /// Appends this node for the layout tool to `out`.
    fn write_dot(&self, out: &mut String)
        ensures
            final(out)@ == old(out)@ + node_dot(self@),
    {
        push_decimal(out, self.id);
        out.append("[label=\"");
        self.write_text(out);
        out.append("\"]\n");
        let ghost head = out@;
        let mut i: usize = 0;
        assert(self.relations@.subrange(0, 0) =~= Seq::<u64>::empty());
        assert(out@ =~= head + edges_text(self.id, self.relations@.subrange(0, 0)));
        while i < self.relations.len()
            invariant
                i <= self.relations.len(),
                out@ == head + edges_text(self.id, self.relations@.subrange(0, i as int)),
            decreases self.relations.len() - i,
        {
            let ghost before = self.relations@.subrange(0, i as int);
            push_decimal(out, self.id);
            out.append(" -> ");
            push_decimal(out, self.relations[i]);
            out.append("\n");
            i += 1;
            proof {
                let now = self.relations@.subrange(0, i as int);
                assert(now.drop_last() =~= before);
                assert(out@ =~= head + edges_text(self.id, now));
            }
        }
        proof {
            assert(self.relations@.subrange(0, i as int) =~= self.relations@);
            assert(out@ =~= old(out)@ + node_dot(self@));
        }
    }
}

impl Graph {
    /// All nodes as text, each between two rules, in no particular order.
    pub fn to_text(&self) -> (s: String)
        ensures
            is_listing(self@, s@),
    {
        let ids = self.ids();
        let mut out = String::new();
        let mut i: usize = 0;
        assert(self@.lookup(ids@.subrange(0, 0)) =~= Seq::<NodeView>::empty());
        while i < ids.len()
            invariant
                i <= ids.len(),
                ids@.to_set() == self@.nodes.dom(),
                out@ == nodes_text(self@.lookup(ids@.subrange(0, i as int))),
            decreases ids.len() - i,
        {
            let ghost done = ids@.subrange(0, i as int);
            let ghost before = out@;
            assert(ids@.to_set().contains(ids@[i as int]));
            match self.select_by_id(ids[i]) {
                Some(node) => {
                    out.append("\n------\n");
                    node.write_text(&mut out);
                    out.append("\n------");
                },
                None => {},
            }
            i += 1;
            proof {
                let now = ids@.subrange(0, i as int);
                assert(self@.lookup(now).drop_last() =~= self@.lookup(done));
                assert(self@.lookup(now).last() == self@.nodes[ids@[i - 1]]);
                assert(out@ =~= nodes_text(self@.lookup(now)));
            }
        }
        assert(ids@.subrange(0, i as int) =~= ids@);
        out
    }

    /// The graph for the layout tool: `digraph {`, then for each node a line
    /// that labels it and a line for each of its relations, then `}`. The
    /// nodes come in no particular order.
    pub fn print_graph(&self) -> (s: String)
        ensures
            is_dot(self@, s@),
    {
        let ids = self.ids();
        let mut out = String::from_str("digraph {\n");
        let ghost head = out@;
        let mut i: usize = 0;
        assert(self@.lookup(ids@.subrange(0, 0)) =~= Seq::<NodeView>::empty());
        assert(out@ =~= head + nodes_dot(self@.lookup(ids@.subrange(0, 0))));
        while i < ids.len()
            invariant
                i <= ids.len(),
                ids@.to_set() == self@.nodes.dom(),
                out@ == head + nodes_dot(self@.lookup(ids@.subrange(0, i as int))),
            decreases ids.len() - i,
        {
            let ghost done = ids@.subrange(0, i as int);
            assert(ids@.to_set().contains(ids@[i as int]));
            match self.select_by_id(ids[i]) {
                Some(node) => {
                    node.write_dot(&mut out);
                },
                None => {},
            }
            i += 1;
            proof {
                let now = ids@.subrange(0, i as int);
                assert(self@.lookup(now).drop_last() =~= self@.lookup(done));
                assert(self@.lookup(now).last() == self@.nodes[ids@[i - 1]]);
                assert(out@ =~= head + nodes_dot(self@.lookup(now)));
            }
        }
        out.append("}");
        assert(ids@.subrange(0, i as int) =~= ids@);
        out
    }
}

} // verus!
