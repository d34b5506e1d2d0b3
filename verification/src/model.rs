//! The graph as mathematics: what it holds, what each operation makes of
//! it, and what stays true of it whatever is done.

use vstd::prelude::*;
use crate::idlist::{lemma_push_contains, lemma_with_id, lemma_without, with_id, without};
use crate::index::{enter, files, ids_under, leave, lemma_enter_files, lemma_leave_files};
use crate::node::NodeView;
use crate::order::{first_n, lemma_ordered, ordered, upwards, Orders};
use vstd::relations::sorted_by;
use crate::value::ValView;

verus! {

/// What a graph stands for: its nodes by identifier, the two indices, and
/// the identifier that the next appended node gets.
pub struct GraphView {
    pub nodes: Map<u64, NodeView>,
    /// For each name in use, the nodes of that name in the order they took it.
    pub names: Map<Seq<char>, Seq<u64>>,
    /// For each value in use, the nodes of that value in the order they took it.
    pub values: Map<ValView, Seq<u64>>,
    pub counter: int,
}

/// The name of each node.
pub open spec fn name_keys(nodes: Map<u64, NodeView>) -> Map<u64, Seq<char>> {
    Map::new(|id: u64| nodes.contains_key(id), |id: u64| nodes[id].name)
}

/// The value of each node.
pub open spec fn value_keys(nodes: Map<u64, NodeView>) -> Map<u64, ValView> {
    Map::new(|id: u64| nodes.contains_key(id), |id: u64| nodes[id].value)
}

/// `n` as it is once `id` no longer points at it.
pub open spec fn unlinked(n: NodeView, id: u64) -> NodeView {
    NodeView { backlinks: without(n.backlinks, id), ..n }
}

/// The first of `targets` that is not in `nodes`.
pub open spec fn first_missing(nodes: Map<u64, NodeView>, targets: Seq<u64>) -> Option<u64>
    decreases targets.len(),
{
    if targets.len() == 0 {
        None
    } else if !nodes.contains_key(targets[0]) {
        Some(targets[0])
    } else {
        first_missing(nodes, targets.drop_first())
    }
}

impl GraphView {
    /// The graph without nodes.
    pub open spec fn empty() -> GraphView {
        GraphView { nodes: Map::empty(), names: Map::empty(), values: Map::empty(), counter: 0 }
    }

    /// Whether a node has this identifier.
    pub open spec fn has(self, id: u64) -> bool {
        self.nodes.contains_key(id)
    }

    /// The identifiers of the nodes of this name, in index order.
    pub open spec fn named(self, name: Seq<char>) -> Seq<u64> {
        ids_under(self.names, name)
    }

    /// The identifiers of the nodes of this value, in index order.
    pub open spec fn valued(self, value: ValView) -> Seq<u64> {
        ids_under(self.values, value)
    }

    /// The relations of node `id`; none where there is no such node.
    pub open spec fn relations_of(self, id: u64) -> Seq<u64> {
        if self.has(id) {
            self.nodes[id].relations
        } else {
            Seq::empty()
        }
    }

    /// The backlinks of node `id`; none where there is no such node.
    pub open spec fn backlinks_of(self, id: u64) -> Seq<u64> {
        if self.has(id) {
            self.nodes[id].backlinks
        } else {
            Seq::empty()
        }
    }

    /// Those of `ids` that are identifiers of nodes, in their order.
    pub open spec fn present(self, ids: Seq<u64>) -> Seq<u64>
        decreases ids.len(),
    {
        if ids.len() == 0 {
            ids
        } else if self.has(ids.last()) {
            self.present(ids.drop_last()).push(ids.last())
        } else {
            self.present(ids.drop_last())
        }
    }

    /// The nodes under `ids`, one for each identifier.
    pub open spec fn lookup(self, ids: Seq<u64>) -> Seq<NodeView> {
        Seq::new(ids.len(), |i: int| self.nodes[ids[i]])
    }

    /// The nodes that `ids` names, in the order of `ids`; an identifier
    /// without a node is passed over.
    pub open spec fn pick(self, ids: Seq<u64>) -> Seq<NodeView> {
        self.lookup(self.present(ids))
    }

    /// At most `amount` of the nodes that `ids` names: those with the
    /// smallest identifiers, smallest first, or those with the largest,
    /// largest first.
    pub open spec fn pick_some(self, ids: Seq<u64>, amount: int, ordering: Orders) -> Seq<
        NodeView,
    > {
        self.lookup(first_n(ordered(self.present(ids), ordering), amount))
    }

    /// What is true of every graph, whatever was done to it:
    /// - a node is kept under its own identifier, which is below the counter;
    /// - each index files every node once, under its name or value, and
    ///   nothing else;
    /// - a node lists among its backlinks, each once, only nodes that exist
    ///   and point at it;
    /// - a relation names an identifier below the counter.
    pub open spec fn wf(self) -> bool {
        &&& self.nodes.dom().finite()
        &&& 0 <= self.counter <= u64::MAX
        &&& forall|id: u64| #[trigger]
            self.nodes.contains_key(id) ==> self.nodes[id].id == id && id < self.counter
        &&& files(self.names, name_keys(self.nodes))
        &&& files(self.values, value_keys(self.nodes))
        &&& forall|b: u64| #[trigger]
            self.nodes.contains_key(b) ==> self.nodes[b].backlinks.no_duplicates()
        &&& forall|b: u64, a: u64|
            self.nodes.contains_key(b) && #[trigger] self.nodes[b].backlinks.contains(a)
                ==> self.nodes.contains_key(a) && self.nodes[a].relations.contains(b)
        &&& forall|a: u64, t: u64|
            self.nodes.contains_key(a) && #[trigger] self.nodes[a].relations.contains(t) ==> t
                < self.counter
    }

    /// Every relation that points at an existing node is matched by a
    /// backlink of that node.
    pub open spec fn linked(self) -> bool {
        forall|a: u64, b: u64|
            self.nodes.contains_key(a) && self.nodes.contains_key(b)
                && #[trigger] self.nodes[a].relations.contains(b)
                ==> self.nodes[b].backlinks.contains(a)
    }

    /// Whether some node lists `id` among its relations.
    pub open spec fn referenced(self, id: u64) -> bool {
        exists|a: u64| self.nodes.contains_key(a) && #[trigger] self.nodes[a].relations.contains(id)
    }

    /// No relation points at a node that is not there.
    pub open spec fn closed(self) -> bool {
        forall|a: u64, b: u64|
            self.nodes.contains_key(a) && #[trigger] self.nodes[a].relations.contains(b)
                ==> self.nodes.contains_key(b)
    }

    /// The graph with a new node under `id`, which is not in use, filed in
    /// both indices. The node points at nothing and nothing points at it.
    pub open spec fn with_fresh(self, id: u64, name: Seq<char>, value: ValView) -> GraphView {
        GraphView {
            nodes: self.nodes.insert(id, NodeView::fresh(id, name, value)),
            names: enter(self.names, name, id),
            values: enter(self.values, value, id),
            counter: if self.counter > id {
                self.counter
            } else {
                id + 1
            },
        }
    }

    /// The nodes with an identifier below `n` whose relations name `id`,
    /// by ascending identifier.
    pub open spec fn referrers_below(self, id: u64, n: nat) -> Seq<u64>
        decreases n,
    {
        if n == 0 {
            Seq::empty()
        } else if self.has((n - 1) as u64) && self.nodes[(n - 1) as u64].relations.contains(id) {
            self.referrers_below(id, (n - 1) as nat).push((n - 1) as u64)
        } else {
            self.referrers_below(id, (n - 1) as nat)
        }
    }

    /// The nodes whose relations name `id`, each once, by ascending
    /// identifier.
    pub open spec fn referrers(self, id: u64) -> Seq<u64> {
        self.referrers_below(id, self.counter as nat)
    }

    /// The graph with a new node under `id`, which is not in use, filed in
    /// both indices. The node points at nothing; `backlinks` point at it.
    pub open spec fn with_node(
        self,
        id: u64,
        name: Seq<char>,
        value: ValView,
        backlinks: Seq<u64>,
    ) -> GraphView {
        GraphView {
            nodes: self.nodes.insert(
                id,
                NodeView { id, name, value, relations: Seq::empty(), backlinks },
            ),
            names: enter(self.names, name, id),
            values: enter(self.values, value, id),
            counter: if self.counter > id {
                self.counter
            } else {
                id + 1
            },
        }
    }

    /// The graph after a node was appended under the counter's identifier.
    pub open spec fn append(self, name: Seq<char>, value: ValView) -> GraphView {
        self.with_fresh(self.counter as u64, name, value)
    }

    /// The graph after node `id` was deleted: the node is gone from the
    /// nodes and from both indices, and from the backlinks of every node.
    /// Relations of other nodes that name `id` stay as they are. Without
    /// such a node, the graph as it was.
    pub open spec fn delete(self, id: u64) -> GraphView {
        if !self.has(id) {
            self
        } else {
            GraphView {
                nodes: self.nodes.remove(id).map_values(|n: NodeView| unlinked(n, id)),
                names: leave(self.names, self.nodes[id].name, id),
                values: leave(self.values, self.nodes[id].value, id),
                counter: self.counter,
            }
        }
    }

    /// The graph after a node was inserted under `id`. A node that had the
    /// identifier is deleted first; the counter moves behind `id`. The new
    /// node points at nothing, and has as backlinks the nodes whose
    /// relations name `id`, by ascending identifier.
    pub open spec fn insert(self, name: Seq<char>, value: ValView, id: u64) -> GraphView {
        self.delete(id).with_node(id, name, value, self.delete(id).referrers(id))
    }

    /// The graph after the relations of node `id` were replaced by
    /// `relations`: `id` leaves all backlinks, and joins, at their end, those
    /// of each node in `relations`.
    pub open spec fn set_relations(self, id: u64, relations: Seq<u64>) -> GraphView {
        GraphView {
            nodes: Map::new(
                |k: u64| self.nodes.contains_key(k),
                |k: u64|
                    NodeView {
                        relations: if k == id {
                            relations
                        } else {
                            self.nodes[k].relations
                        },
                        backlinks: if relations.contains(k) {
                            without(self.nodes[k].backlinks, id).push(id)
                        } else {
                            without(self.nodes[k].backlinks, id)
                        },
                        ..self.nodes[k]
                    },
            ),
            ..self
        }
    }

    /// The graph after `more` was put behind the relations of node `id`:
    /// `id` joins the backlinks of each node in `more` that lacks it.
    pub open spec fn append_relations(self, id: u64, more: Seq<u64>) -> GraphView {
        GraphView {
            nodes: Map::new(
                |k: u64| self.nodes.contains_key(k),
                |k: u64|
                    NodeView {
                        relations: if k == id {
                            self.nodes[k].relations + more
                        } else {
                            self.nodes[k].relations
                        },
                        backlinks: if more.contains(k) {
                            with_id(self.nodes[k].backlinks, id)
                        } else {
                            self.nodes[k].backlinks
                        },
                        ..self.nodes[k]
                    },
            ),
            ..self
        }
    }

    /// The graph after every occurrence of `target` was taken out of the
    /// relations of node `id`: `id` leaves the backlinks of `target`.
    pub open spec fn remove_relation(self, id: u64, target: u64) -> GraphView {
        GraphView {
            nodes: Map::new(
                |k: u64| self.nodes.contains_key(k),
                |k: u64|
                    NodeView {
                        relations: if k == id {
                            without(self.nodes[k].relations, target)
                        } else {
                            self.nodes[k].relations
                        },
                        backlinks: if k == target {
                            without(self.nodes[k].backlinks, id)
                        } else {
                            self.nodes[k].backlinks
                        },
                        ..self.nodes[k]
                    },
            ),
            ..self
        }
    }

    /// The graph after a node with relations was put under `id`: inserted
    /// as by [`GraphView::insert`], then given its relations.
    pub open spec fn place(
        self,
        name: Seq<char>,
        value: ValView,
        id: u64,
        relations: Seq<u64>,
    ) -> GraphView {
        self.insert(name, value, id).set_relations(id, relations)
    }

    /// The graph after node `id` took the name `name`: in the name index it
    /// leaves its old bucket and goes to the end of the new one.
    pub open spec fn set_name(self, id: u64, name: Seq<char>) -> GraphView {
        GraphView {
            nodes: self.nodes.insert(id, NodeView { name, ..self.nodes[id] }),
            names: enter(leave(self.names, self.nodes[id].name, id), name, id),
            ..self
        }
    }

    /// The graph after node `id` took the value `value`: in the value index
    /// it leaves its old bucket and goes to the end of the new one.
    pub open spec fn set_value(self, id: u64, value: ValView) -> GraphView {
        GraphView {
            nodes: self.nodes.insert(id, NodeView { value, ..self.nodes[id] }),
            values: enter(leave(self.values, self.nodes[id].value, id), value, id),
            ..self
        }
    }
}

/// The empty graph is well formed, and nothing in it is unmatched.
pub proof fn lemma_empty_wf()
    ensures
        GraphView::empty().wf(),
        GraphView::empty().linked(),
        GraphView::empty().closed(),
{
}

/// A new node under an unused identifier keeps the graph well formed.
pub proof fn lemma_with_fresh_wf(g: GraphView, id: u64, name: Seq<char>, value: ValView)
    requires
        g.wf(),
        !g.has(id),
        id < u64::MAX,
    ensures
        g.with_fresh(id, name, value).wf(),
{
    let g2 = g.with_fresh(id, name, value);
    lemma_enter_files(g.names, name_keys(g.nodes), name, id);
    lemma_enter_files(g.values, value_keys(g.nodes), value, id);
    assert(name_keys(g2.nodes) =~= name_keys(g.nodes).insert(id, name));
    assert(value_keys(g2.nodes) =~= value_keys(g.nodes).insert(id, value));
    assert forall|b: u64, a: u64|
        g2.nodes.contains_key(b) && #[trigger] g2.nodes[b].backlinks.contains(a)
        implies g2.nodes.contains_key(a) && g2.nodes[a].relations.contains(b) by {
        assert(b != id);
        assert(g.nodes[b].backlinks.contains(a));
        assert(g.nodes.contains_key(a));
    }
}

/// A new node under an identifier that no relation names leaves every
/// relation matched.
pub proof fn lemma_with_fresh_linked(g: GraphView, id: u64, name: Seq<char>, value: ValView)
    requires
        g.linked(),
        !g.has(id),
        !g.referenced(id),
    ensures
        g.with_fresh(id, name, value).linked(),
{
    let g2 = g.with_fresh(id, name, value);
    assert forall|a: u64, b: u64|
        g2.nodes.contains_key(a) && g2.nodes.contains_key(b)
            && #[trigger] g2.nodes[a].relations.contains(b)
        implies g2.nodes[b].backlinks.contains(a) by {
        assert(a != id);
        if b == id {
            assert(g.nodes.contains_key(a) && g.nodes[a].relations.contains(id));
        } else {
            assert(g.nodes[a].relations.contains(b));
        }
    }
}

/// Deleting a node keeps the graph well formed.
pub proof fn lemma_delete_wf(g: GraphView, id: u64)
    requires
        g.wf(),
    ensures
        g.delete(id).wf(),
        !g.delete(id).has(id),
{
    if g.has(id) {
        let g2 = g.delete(id);
        lemma_leave_files(g.names, name_keys(g.nodes), id);
        lemma_leave_files(g.values, value_keys(g.nodes), id);
        assert(name_keys(g2.nodes) =~= name_keys(g.nodes).remove(id));
        assert(value_keys(g2.nodes) =~= value_keys(g.nodes).remove(id));
        assert(g2.nodes.dom() =~= g.nodes.dom().remove(id));
        assert forall|b: u64| #[trigger] g2.nodes.contains_key(b) implies g2.nodes[b].backlinks.no_duplicates() by {
            lemma_without(g.nodes[b].backlinks, id);
        }
        assert forall|b: u64, a: u64|
            g2.nodes.contains_key(b) && #[trigger] g2.nodes[b].backlinks.contains(a)
            implies g2.nodes.contains_key(a) && g2.nodes[a].relations.contains(b) by {
            lemma_without(g.nodes[b].backlinks, id);
            assert(a != id);
            assert(g.nodes[b].backlinks.contains(a));
            assert(g.nodes.contains_key(a));
        }
    }
}

/// Deleting a node leaves every relation between the nodes that stay matched.
pub proof fn lemma_delete_linked(g: GraphView, id: u64)
    requires
        g.linked(),
    ensures
        g.delete(id).linked(),
{
    if g.has(id) {
        let g2 = g.delete(id);
        assert forall|a: u64, b: u64|
            g2.nodes.contains_key(a) && g2.nodes.contains_key(b)
                && #[trigger] g2.nodes[a].relations.contains(b)
            implies g2.nodes[b].backlinks.contains(a) by {
            lemma_without(g.nodes[b].backlinks, id);
            assert(g.nodes[a].relations.contains(b));
            assert(g.nodes[b].backlinks.contains(a));
        }
    }
}

/// What `referrers_below` holds: the nodes below `n` whose relations name
/// `id`, each once and in ascending order.
pub proof fn lemma_referrers_below(g: GraphView, id: u64, n: nat)
    requires
        n <= u64::MAX + 1,
    ensures
        forall|a: u64| #[trigger]
            g.referrers_below(id, n).contains(a) <==> a < n && g.has(a)
                && g.nodes[a].relations.contains(id),
        forall|i: int, j: int|
            0 <= i < j < g.referrers_below(id, n).len() ==> g.referrers_below(id, n)[i]
                < g.referrers_below(id, n)[j],
    decreases n,
{
    if n > 0 {
        let m = (n - 1) as nat;
        let last = m as u64;
        let init = g.referrers_below(id, m);
        lemma_referrers_below(g, id, m);
        if g.has(last) && g.nodes[last].relations.contains(id) {
            lemma_push_contains(init, last);
            let r = init.push(last);
            assert forall|i: int, j: int| 0 <= i < j < r.len() implies r[i] < r[j] by {
                assert(init.contains(init[i]));
                if j < init.len() {
                    assert(init[i] < init[j]);
                }
            }
        }
    }
}

/// In a well-formed graph the referrers of `id` are exactly the nodes
/// whose relations name `id`, each once and in ascending order; none where
/// no relation names `id`.
pub proof fn lemma_referrers(g: GraphView, id: u64)
    requires
        g.wf(),
    ensures
        forall|a: u64| #[trigger]
            g.referrers(id).contains(a) <==> g.has(a) && g.nodes[a].relations.contains(id),
        g.referrers(id).no_duplicates(),
        sorted_by(g.referrers(id), upwards()),
        !g.referenced(id) ==> g.referrers(id) == Seq::<u64>::empty(),
{
    let r = g.referrers(id);
    lemma_referrers_below(g, id, g.counter as nat);
    assert forall|i: int, j: int| 0 <= i < j < r.len() implies #[trigger] (upwards())(r[i], r[j]) by {
        assert(r[i] < r[j]);
    }
    assert forall|i: int, j: int| 0 <= i < r.len() && 0 <= j < r.len() && i != j implies r[i]
        != r[j] by {
        if i < j {
            assert(r[i] < r[j]);
        } else {
            assert(r[j] < r[i]);
        }
    }
    if !g.referenced(id) && r.len() > 0 {
        assert(r.contains(r[0]));
        assert(g.nodes.contains_key(r[0]) && g.nodes[r[0]].relations.contains(id));
    }
}

/// A new node under an unused identifier, with the nodes that name the
/// identifier as its backlinks, keeps the graph well formed and every
/// relation matched.
pub proof fn lemma_with_node_wf(
    g: GraphView,
    id: u64,
    name: Seq<char>,
    value: ValView,
    backlinks: Seq<u64>,
)
    requires
        g.wf(),
        !g.has(id),
        id < u64::MAX,
        backlinks.no_duplicates(),
        forall|a: u64| #[trigger]
            backlinks.contains(a) <==> g.has(a) && g.nodes[a].relations.contains(id),
    ensures
        g.with_node(id, name, value, backlinks).wf(),
        g.linked() ==> g.with_node(id, name, value, backlinks).linked(),
{
    let g2 = g.with_node(id, name, value, backlinks);
    lemma_enter_files(g.names, name_keys(g.nodes), name, id);
    lemma_enter_files(g.values, value_keys(g.nodes), value, id);
    assert(name_keys(g2.nodes) =~= name_keys(g.nodes).insert(id, name));
    assert(value_keys(g2.nodes) =~= value_keys(g.nodes).insert(id, value));
    assert forall|b: u64, a: u64|
        g2.nodes.contains_key(b) && #[trigger] g2.nodes[b].backlinks.contains(a)
        implies g2.nodes.contains_key(a) && g2.nodes[a].relations.contains(b) by {
        if b == id {
            assert(backlinks.contains(a));
            assert(a != id);
        } else {
            assert(g.nodes[b].backlinks.contains(a));
            assert(g.nodes.contains_key(a));
        }
    }
    assert forall|a: u64, t: u64|
        g2.nodes.contains_key(a) && #[trigger] g2.nodes[a].relations.contains(t) implies t
        < g2.counter by {
        assert(a != id);
        assert(g.nodes[a].relations.contains(t));
    }
    if g.linked() {
        assert forall|a: u64, b: u64|
            g2.nodes.contains_key(a) && g2.nodes.contains_key(b)
                && #[trigger] g2.nodes[a].relations.contains(b)
            implies g2.nodes[b].backlinks.contains(a) by {
            assert(a != id);
            if b == id {
                assert(g.has(a) && g.nodes[a].relations.contains(id));
            } else {
                assert(g.nodes[a].relations.contains(b));
            }
        }
    }
}

/// Inserting a node keeps the graph well formed and every relation
/// matched, whatever the identifier: free, in use, or named by relations.
pub proof fn lemma_insert_wf(g: GraphView, name: Seq<char>, value: ValView, id: u64)
    requires
        g.wf(),
        id < u64::MAX,
    ensures
        g.insert(name, value, id).wf(),
        g.linked() ==> g.insert(name, value, id).linked(),
{
    lemma_delete_wf(g, id);
    if g.linked() {
        lemma_delete_linked(g, id);
    }
    lemma_referrers(g.delete(id), id);
    lemma_with_node_wf(g.delete(id), id, name, value, g.delete(id).referrers(id));
}

/// Where no relation names the identifier, the inserted node has no
/// backlinks.
pub proof fn lemma_insert_unreferenced(g: GraphView, name: Seq<char>, value: ValView, id: u64)
    requires
        g.wf(),
        !g.referenced(id),
    ensures
        g.insert(name, value, id) == g.delete(id).with_fresh(id, name, value),
{
    lemma_delete_wf(g, id);
    let g1 = g.delete(id);
    if g1.referenced(id) {
        let a = choose|a: u64|
            g1.nodes.contains_key(a) && #[trigger] g1.nodes[a].relations.contains(id);
        assert(g.nodes.contains_key(a) && g.nodes[a].relations.contains(id));
    }
    lemma_referrers(g1, id);
}

/// Appending a node keeps the graph well formed and every relation matched.
pub proof fn lemma_append_wf(g: GraphView, name: Seq<char>, value: ValView)
    requires
        g.wf(),
        g.counter < u64::MAX,
    ensures
        g.append(name, value).wf(),
        g.append(name, value).counter == g.counter + 1,
        g.linked() ==> g.append(name, value).linked(),
{
    let id = g.counter as u64;
    lemma_with_fresh_wf(g, id, name, value);
    if g.linked() {
        lemma_with_fresh_linked(g, id, name, value);
    }
}

/// Every target is there exactly when none is missing, and a missing one is
/// a target that is not there.
pub proof fn lemma_first_missing(nodes: Map<u64, NodeView>, targets: Seq<u64>)
    ensures
        first_missing(nodes, targets) is None <==> forall|i: int|
            0 <= i < targets.len() ==> nodes.contains_key(#[trigger] targets[i]),
        first_missing(nodes, targets) matches Some(t) ==> targets.contains(t)
            && !nodes.contains_key(t),
    decreases targets.len(),
{
    if targets.len() > 0 {
        let rest = targets.drop_first();
        lemma_first_missing(nodes, rest);
        if nodes.contains_key(targets[0]) {
            if first_missing(nodes, rest) is None {
                assert forall|i: int| 0 <= i < targets.len() implies nodes.contains_key(
                    #[trigger] targets[i],
                ) by {
                    if i > 0 {
                        assert(targets[i] == rest[i - 1]);
                    }
                }
            } else {
                let t = first_missing(nodes, rest)->Some_0;
                let j = choose|j: int| 0 <= j < rest.len() && rest[j] == t;
                assert(targets[j + 1] == t);
            }
        } else {
            assert(targets[0] == targets[0]);
        }
    }
}

/// Replacing the relations of a node by targets that exist keeps the graph
/// well formed and leaves every relation matched.
pub proof fn lemma_set_relations_wf(g: GraphView, id: u64, relations: Seq<u64>)
    requires
        g.wf(),
        g.has(id),
        first_missing(g.nodes, relations) is None,
    ensures
        g.set_relations(id, relations).wf(),
        g.linked() ==> g.set_relations(id, relations).linked(),
{
    let g2 = g.set_relations(id, relations);
    lemma_first_missing(g.nodes, relations);
    assert(g2.nodes.dom() =~= g.nodes.dom());
    assert(name_keys(g2.nodes) =~= name_keys(g.nodes));
    assert(value_keys(g2.nodes) =~= value_keys(g.nodes));
    assert forall|b: u64| #[trigger] g2.nodes.contains_key(b) implies g2.nodes[b].backlinks.no_duplicates() by {
        lemma_without(g.nodes[b].backlinks, id);
        lemma_push_contains(without(g.nodes[b].backlinks, id), id);
    }
    assert forall|b: u64, a: u64|
        g2.nodes.contains_key(b) && #[trigger] g2.nodes[b].backlinks.contains(a)
        implies g2.nodes.contains_key(a) && g2.nodes[a].relations.contains(b) by {
        lemma_without(g.nodes[b].backlinks, id);
        lemma_push_contains(without(g.nodes[b].backlinks, id), id);
        if a != id {
            assert(g.nodes[b].backlinks.contains(a));
        }
    }
    if g.linked() {
        assert forall|a: u64, b: u64|
            g2.nodes.contains_key(a) && g2.nodes.contains_key(b)
                && #[trigger] g2.nodes[a].relations.contains(b)
            implies g2.nodes[b].backlinks.contains(a) by {
            lemma_without(g.nodes[b].backlinks, id);
            lemma_push_contains(without(g.nodes[b].backlinks, id), id);
            if a != id {
                assert(g.nodes[a].relations.contains(b));
                assert(g.nodes[b].backlinks.contains(a));
            }
        }
    }
}

/// Extending the relations of a node by targets that exist keeps the graph
/// well formed and leaves every relation matched.
pub proof fn lemma_append_relations_wf(g: GraphView, id: u64, more: Seq<u64>)
    requires
        g.wf(),
        g.has(id),
        first_missing(g.nodes, more) is None,
    ensures
        g.append_relations(id, more).wf(),
        g.linked() ==> g.append_relations(id, more).linked(),
{
    let g2 = g.append_relations(id, more);
    lemma_first_missing(g.nodes, more);
    assert(g2.nodes.dom() =~= g.nodes.dom());
    assert(name_keys(g2.nodes) =~= name_keys(g.nodes));
    assert(value_keys(g2.nodes) =~= value_keys(g.nodes));
    assert forall|b: u64| #[trigger] g2.nodes.contains_key(b) implies g2.nodes[b].backlinks.no_duplicates() by {
        lemma_with_id(g.nodes[b].backlinks, id);
    }
    assert forall|b: u64, a: u64|
        g2.nodes.contains_key(b) && #[trigger] g2.nodes[b].backlinks.contains(a)
        implies g2.nodes.contains_key(a) && g2.nodes[a].relations.contains(b) by {
        lemma_with_id(g.nodes[b].backlinks, id);
        if g.nodes[b].backlinks.contains(a) {
            let i = choose|i: int|
                0 <= i < g.nodes[a].relations.len() && g.nodes[a].relations[i] == b;
            assert(g2.nodes[a].relations[i] == b);
        } else {
            assert(a == id && more.contains(b));
            let i = choose|i: int| 0 <= i < more.len() && more[i] == b;
            assert(g2.nodes[a].relations[g.nodes[a].relations.len() + i] == b);
        }
    }
    assert forall|a: u64, t: u64|
        g2.nodes.contains_key(a) && #[trigger] g2.nodes[a].relations.contains(t) implies t
        < g2.counter by {
        let i = choose|i: int|
            0 <= i < g2.nodes[a].relations.len() && g2.nodes[a].relations[i] == t;
        if i < g.nodes[a].relations.len() {
            assert(g.nodes[a].relations[i] == t);
            assert(g.nodes[a].relations.contains(t));
        } else {
            assert(more[i - g.nodes[a].relations.len()] == t);
        }
    }
    if g.linked() {
        assert forall|a: u64, b: u64|
            g2.nodes.contains_key(a) && g2.nodes.contains_key(b)
                && #[trigger] g2.nodes[a].relations.contains(b)
            implies g2.nodes[b].backlinks.contains(a) by {
            lemma_with_id(g.nodes[b].backlinks, id);
            let i = choose|i: int|
                0 <= i < g2.nodes[a].relations.len() && g2.nodes[a].relations[i] == b;
            if i < g.nodes[a].relations.len() {
                assert(g.nodes[a].relations[i] == b);
                assert(g.nodes[a].relations.contains(b));
                assert(g.nodes[b].backlinks.contains(a));
            } else {
                assert(a == id);
                assert(more[i - g.nodes[a].relations.len()] == b);
                assert(more.contains(b));
            }
        }
    }
}

/// Renaming a node keeps the graph well formed and its links as they were.
pub proof fn lemma_set_name_wf(g: GraphView, id: u64, name: Seq<char>)
    requires
        g.wf(),
        g.has(id),
    ensures
        g.set_name(id, name).wf(),
        g.linked() ==> g.set_name(id, name).linked(),
{
    let g2 = g.set_name(id, name);
    let keys = name_keys(g.nodes);
    lemma_leave_files(g.names, keys, id);
    lemma_enter_files(leave(g.names, keys[id], id), keys.remove(id), name, id);
    assert(name_keys(g2.nodes) =~= keys.remove(id).insert(id, name));
    assert(value_keys(g2.nodes) =~= value_keys(g.nodes));
    assert(g2.nodes.dom() =~= g.nodes.dom());
    assert forall|b: u64, a: u64|
        g2.nodes.contains_key(b) && #[trigger] g2.nodes[b].backlinks.contains(a)
        implies g2.nodes.contains_key(a) && g2.nodes[a].relations.contains(b) by {
        assert(g.nodes[b].backlinks.contains(a));
    }
    if g.linked() {
        assert forall|a: u64, b: u64|
            g2.nodes.contains_key(a) && g2.nodes.contains_key(b)
                && #[trigger] g2.nodes[a].relations.contains(b)
            implies g2.nodes[b].backlinks.contains(a) by {
            assert(g.nodes[a].relations.contains(b));
        }
    }
}

/// Giving a node another value keeps the graph well formed and its links
/// as they were.
pub proof fn lemma_set_value_wf(g: GraphView, id: u64, value: ValView)
    requires
        g.wf(),
        g.has(id),
    ensures
        g.set_value(id, value).wf(),
        g.linked() ==> g.set_value(id, value).linked(),
{
    let g2 = g.set_value(id, value);
    let keys = value_keys(g.nodes);
    lemma_leave_files(g.values, keys, id);
    lemma_enter_files(leave(g.values, keys[id], id), keys.remove(id), value, id);
    assert(value_keys(g2.nodes) =~= keys.remove(id).insert(id, value));
    assert(name_keys(g2.nodes) =~= name_keys(g.nodes));
    assert(g2.nodes.dom() =~= g.nodes.dom());
    assert forall|b: u64, a: u64|
        g2.nodes.contains_key(b) && #[trigger] g2.nodes[b].backlinks.contains(a)
        implies g2.nodes.contains_key(a) && g2.nodes[a].relations.contains(b) by {
        assert(g.nodes[b].backlinks.contains(a));
    }
    if g.linked() {
        assert forall|a: u64, b: u64|
            g2.nodes.contains_key(a) && g2.nodes.contains_key(b)
                && #[trigger] g2.nodes[a].relations.contains(b)
            implies g2.nodes[b].backlinks.contains(a) by {
            assert(g.nodes[a].relations.contains(b));
        }
    }
}

/// What `present` keeps: the identifiers that have a node, no more than
/// there were; all of them where each has a node.
pub proof fn lemma_present(g: GraphView, ids: Seq<u64>)
    ensures
        g.present(ids).len() <= ids.len(),
        forall|i: int| 0 <= i < g.present(ids).len() ==> g.has(#[trigger] g.present(ids)[i]),
        forall|x: u64| g.present(ids).contains(x) <==> ids.contains(x) && g.has(x),
        (forall|i: int| 0 <= i < ids.len() ==> g.has(#[trigger] ids[i])) ==> g.present(ids) == ids,
    decreases ids.len(),
{
    if ids.len() > 0 {
        let init = ids.drop_last();
        let last = ids.last();
        lemma_present(g, init);
        let p = g.present(init);
        assert forall|x: u64| ids.contains(x) <==> (init.contains(x) || x == last) by {
            if ids.contains(x) {
                let i = choose|i: int| 0 <= i < ids.len() && ids[i] == x;
                if i < ids.len() - 1 {
                    assert(init[i] == x);
                }
            }
            if init.contains(x) {
                let i = choose|i: int| 0 <= i < init.len() && init[i] == x;
                assert(ids[i] == x);
            }
            if x == last {
                assert(ids[ids.len() - 1] == x);
            }
        }
        if g.has(last) {
            lemma_push_contains(p, last);
        }
        if forall|i: int| 0 <= i < ids.len() ==> g.has(#[trigger] ids[i]) {
            assert forall|i: int| 0 <= i < init.len() implies g.has(#[trigger] init[i]) by {
                assert(init[i] == ids[i]);
            }
            assert(g.has(ids[ids.len() - 1]));
            assert(g.present(ids) =~= ids);
        }
    }
}

/// A bounded selection returns as many nodes as were asked for, or all
/// that match where they are fewer; none where none matches.
pub proof fn lemma_pick_some_len(g: GraphView, ids: Seq<u64>, amount: int, ordering: Orders)
    requires
        amount >= 0,
    ensures
        g.pick_some(ids, amount, ordering).len() == if amount <= g.pick(ids).len() {
            amount
        } else {
            g.pick(ids).len() as int
        },
{
    lemma_ordered(g.present(ids), ordering);
}

/// In a well-formed graph the bucket of a name holds exactly the nodes of
/// that name, each once.
pub proof fn lemma_named_exact(g: GraphView, name: Seq<char>)
    requires
        g.wf(),
    ensures
        g.named(name).no_duplicates(),
        forall|id: u64| #[trigger] g.named(name).contains(id) <==> g.has(id) && g.nodes[id].name == name,
        g.present(g.named(name)) == g.named(name),
{
    let keys = name_keys(g.nodes);
    assert forall|id: u64| #[trigger] g.named(name).contains(id) <==> g.has(id) && g.nodes[id].name
        == name by {
        crate::index::lemma_files_exact(g.names, keys, name, id);
    }
    let ids = g.named(name);
    assert forall|i: int| 0 <= i < ids.len() implies g.has(#[trigger] ids[i]) by {
        assert(ids.contains(ids[i]));
    }
    lemma_present(g, ids);
}

/// In a well-formed graph the bucket of a value holds exactly the nodes of
/// that value, each once.
pub proof fn lemma_valued_exact(g: GraphView, value: ValView)
    requires
        g.wf(),
    ensures
        g.valued(value).no_duplicates(),
        forall|id: u64| #[trigger] g.valued(value).contains(id) <==> g.has(id) && g.nodes[id].value == value,
        g.present(g.valued(value)) == g.valued(value),
{
    let keys = value_keys(g.nodes);
    assert forall|id: u64| #[trigger] g.valued(value).contains(id) <==> g.has(id)
        && g.nodes[id].value == value by {
        crate::index::lemma_files_exact(g.values, keys, value, id);
    }
    let ids = g.valued(value);
    assert forall|i: int| 0 <= i < ids.len() implies g.has(#[trigger] ids[i]) by {
        assert(ids.contains(ids[i]));
    }
    lemma_present(g, ids);
}

/// In a well-formed graph every backlink of a node is a node.
pub proof fn lemma_backlinks_present(g: GraphView, id: u64)
    requires
        g.wf(),
    ensures
        g.present(g.backlinks_of(id)) == g.backlinks_of(id),
{
    let ids = g.backlinks_of(id);
    assert forall|i: int| 0 <= i < ids.len() implies g.has(#[trigger] ids[i]) by {
        assert(g.nodes[id].backlinks.contains(ids[i]));
    }
    lemma_present(g, ids);
}

/// Taking a target out of the relations of a node keeps the graph well
/// formed and leaves every relation matched.
pub proof fn lemma_remove_relation_wf(g: GraphView, id: u64, target: u64)
    requires
        g.wf(),
        g.has(id),
    ensures
        g.remove_relation(id, target).wf(),
        g.linked() ==> g.remove_relation(id, target).linked(),
{
    let g2 = g.remove_relation(id, target);
    assert(g2.nodes.dom() =~= g.nodes.dom());
    assert(name_keys(g2.nodes) =~= name_keys(g.nodes));
    assert(value_keys(g2.nodes) =~= value_keys(g.nodes));
    lemma_without(g.nodes[id].relations, target);
    assert forall|b: u64| #[trigger] g2.nodes.contains_key(b) implies g2.nodes[b].backlinks.no_duplicates() by {
        lemma_without(g.nodes[b].backlinks, id);
    }
    assert forall|b: u64, a: u64|
        g2.nodes.contains_key(b) && #[trigger] g2.nodes[b].backlinks.contains(a)
        implies g2.nodes.contains_key(a) && g2.nodes[a].relations.contains(b) by {
        lemma_without(g.nodes[b].backlinks, id);
        assert(g.nodes[b].backlinks.contains(a));
        assert(g.nodes[a].relations.contains(b));
    }
    assert forall|a: u64, t: u64|
        g2.nodes.contains_key(a) && #[trigger] g2.nodes[a].relations.contains(t) implies t
        < g2.counter by {
        assert(g.nodes[a].relations.contains(t));
    }
    if g.linked() {
        assert forall|a: u64, b: u64|
            g2.nodes.contains_key(a) && g2.nodes.contains_key(b)
                && #[trigger] g2.nodes[a].relations.contains(b)
            implies g2.nodes[b].backlinks.contains(a) by {
            lemma_without(g.nodes[b].backlinks, id);
            assert(g.nodes[a].relations.contains(b));
            assert(g.nodes[b].backlinks.contains(a));
        }
    }
}

/// Putting a node with relations under an identifier keeps the graph well
/// formed and every relation matched, where all its targets exist once it
/// is there.
pub proof fn lemma_place_wf(
    g: GraphView,
    name: Seq<char>,
    value: ValView,
    id: u64,
    relations: Seq<u64>,
)
    requires
        g.wf(),
        id < u64::MAX,
        first_missing(g.insert(name, value, id).nodes, relations) is None,
    ensures
        g.place(name, value, id, relations).wf(),
        g.linked() ==> g.place(name, value, id, relations).linked(),
{
    lemma_insert_wf(g, name, value, id);
    lemma_set_relations_wf(g.insert(name, value, id), id, relations);
}

} // verus!
