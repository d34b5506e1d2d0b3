//! Graphs as they come about: from the empty graph, by one operation after
//! another. What holds of the empty graph and is kept by every operation
//! holds of them all.

use vstd::prelude::*;
use crate::model::{first_missing, GraphView};
use crate::model::{lemma_append_relations_wf, lemma_append_wf, lemma_delete_linked};
use crate::model::{lemma_delete_wf, lemma_empty_wf, lemma_insert_wf};
use crate::model::{lemma_set_name_wf, lemma_set_relations_wf, lemma_set_value_wf};
use crate::value::ValView;

verus! {

/// One operation on a graph.
pub enum Step {
    Append { name: Seq<char>, value: ValView },
    Insert { name: Seq<char>, value: ValView, id: u64 },
    Delete { id: u64 },
    SetRelations { id: u64, relations: Seq<u64> },
    AppendRelations { id: u64, more: Seq<u64> },
    SetName { id: u64, name: Seq<char> },
    SetValue { id: u64, value: ValView },
}

impl GraphView {
    /// The graph after `step`. A step that the graph refuses, or that it
    /// has no identifier left for, leaves the graph as it is.
    pub open spec fn after(self, step: Step) -> GraphView {
        match step {
            Step::Append { name, value } => if self.counter < u64::MAX {
                self.append(name, value)
            } else {
                self
            },
            Step::Insert { name, value, id } => if id < u64::MAX {
                self.insert(name, value, id)
            } else {
                self
            },
            Step::Delete { id } => self.delete(id),
            Step::SetRelations { id, relations } => if self.has(id) && first_missing(
                self.nodes,
                relations,
            ) is None {
                self.set_relations(id, relations)
            } else {
                self
            },
            Step::AppendRelations { id, more } => if self.has(id) && first_missing(
                self.nodes,
                more,
            ) is None {
                self.append_relations(id, more)
            } else {
                self
            },
            Step::SetName { id, name } => if self.has(id) {
                self.set_name(id, name)
            } else {
                self
            },
            Step::SetValue { id, value } => if self.has(id) {
                self.set_value(id, value)
            } else {
                self
            },
        }
    }

    /// The graph after all of `steps`, one after the other.
    pub open spec fn after_all(self, steps: Seq<Step>) -> GraphView
        decreases steps.len(),
    {
        if steps.len() == 0 {
            self
        } else {
            self.after_all(steps.drop_last()).after(steps.last())
        }
    }
}

/// Every step keeps a graph well formed and every relation matched.
pub proof fn lemma_after(g: GraphView, step: Step)
    requires
        g.wf(),
    ensures
        g.after(step).wf(),
        g.linked() ==> g.after(step).linked(),
{
    match step {
        Step::Append { name, value } => {
            if g.counter < u64::MAX {
                lemma_append_wf(g, name, value);
            }
        },
        Step::Insert { name, value, id } => {
            if id < u64::MAX {
                lemma_insert_wf(g, name, value, id);
            }
        },
        Step::Delete { id } => {
            lemma_delete_wf(g, id);
            if g.linked() {
                lemma_delete_linked(g, id);
            }
        },
        Step::SetRelations { id, relations } => {
            if g.has(id) && first_missing(g.nodes, relations) is None {
                lemma_set_relations_wf(g, id, relations);
            }
        },
        Step::AppendRelations { id, more } => {
            if g.has(id) && first_missing(g.nodes, more) is None {
                lemma_append_relations_wf(g, id, more);
            }
        },
        Step::SetName { id, name } => {
            if g.has(id) {
                lemma_set_name_wf(g, id, name);
            }
        },
        Step::SetValue { id, value } => {
            if g.has(id) {
                lemma_set_value_wf(g, id, value);
            }
        },
    }
}

/// No step lets the counter fall, and after every step the counter is
/// above the identifier of every node: an identifier that was handed out
/// is not handed out again.
pub proof fn lemma_counter_grows(g: GraphView, step: Step)
    requires
        g.wf(),
    ensures
        g.after(step).counter >= g.counter,
        forall|id: u64| #[trigger] g.after(step).has(id) ==> id < g.after(step).counter,
{
    lemma_after(g, step);
}

/// Whatever is done to a well-formed graph, it stays well formed, and
/// where every relation was matched it stays so.
pub proof fn lemma_after_all(g: GraphView, steps: Seq<Step>)
    requires
        g.wf(),
    ensures
        g.after_all(steps).wf(),
        g.linked() ==> g.after_all(steps).linked(),
    decreases steps.len(),
{
    if steps.len() > 0 {
        lemma_after_all(g, steps.drop_last());
        lemma_after(g.after_all(steps.drop_last()), steps.last());
    }
}

/// In every graph that comes about from the empty graph, by whatever
/// steps, a relation that points at an existing node is matched by a
/// backlink of that node.
pub proof fn lemma_reachable_linked(steps: Seq<Step>)
    ensures
        GraphView::empty().after_all(steps).wf(),
        GraphView::empty().after_all(steps).linked(),
{
    lemma_empty_wf();
    lemma_after_all(GraphView::empty(), steps);
}

} // verus!
