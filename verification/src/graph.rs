//! The graph engine: the nodes by identifier, an index by name and one by
//! value, and the operations that change them together.

use std::collections::HashMap;
use vstd::prelude::*;
use vstd::std_specs::iter::IteratorSpec;
use crate::error::GraphError;
use crate::idlist::{add_id, discard, holds, lemma_with_id, lemma_without, with_id, without};
use crate::order::{lemma_order_unique, lemma_ordered, lemma_ordered_distinct, sort_ids, Orders};
use crate::lookup::{TextIndex, ValueIndex};
use crate::model::{first_missing, unlinked, GraphView};
use crate::model::{lemma_append_relations_wf, lemma_append_wf, lemma_delete_linked};
use crate::model::{lemma_delete_wf, lemma_empty_wf, lemma_first_missing, lemma_referrers};
use crate::model::{lemma_insert_wf, lemma_set_name_wf, lemma_set_relations_wf};
use crate::model::lemma_set_value_wf;
use crate::node::{clone_ids, Node, NodeView};
use crate::value::{Val, Wrappable};

verus! {

broadcast use vstd::std_specs::hash::group_hash_axioms;

/// A graph of nodes. It owns its nodes, keeps two indices over them, and
/// hands out the identifiers.
pub struct Graph {
    graph: HashMap<u64, Node>,
    name_lookup: TextIndex,
    value_lookup: ValueIndex,
    counter: u64,
}

/// What each stored node stands for.
pub open spec fn node_views(m: Map<u64, Node>) -> Map<u64, NodeView> {
    Map::new(|k: u64| m.contains_key(k), |k: u64| m[k]@)
}

impl View for Graph {
    type V = GraphView;

    closed spec fn view(&self) -> GraphView {
        GraphView {
            nodes: node_views(self.graph@),
            names: self.name_lookup@,
            values: self.value_lookup@,
            counter: self.counter as int,
        }
    }
}

impl Graph {
    /// What holds of every graph that this module hands out.
    pub open spec fn wf(&self) -> bool {
        self@.wf()
    }

    /// Stores `node` under its identifier.
    fn store(&mut self, node: Node)
        ensures
            final(self)@ == (GraphView {
                nodes: old(self)@.nodes.insert(node.id, node@),
                ..old(self)@
            }),
    {
        let ghost view = node@;
        let ghost id = node.id;
        self.graph.insert(node.id, node);
        assert(node_views(self.graph@) =~= node_views(old(self).graph@).insert(id, view));
    }

    /// Takes the node under `id` out of the nodes.
    fn take(&mut self, id: u64) -> (r: Option<Node>)
        ensures
            final(self)@ == (GraphView { nodes: old(self)@.nodes.remove(id), ..old(self)@ }),
            match r {
                Some(node) => old(self)@.has(id) && node@ == old(self)@.nodes[id],
                None => !old(self)@.has(id),
            },
    {
        let r = self.graph.remove(&id);
        assert(node_views(self.graph@) =~= node_views(old(self).graph@).remove(id));
        r
    }

    /// Takes `id` out of the backlinks of `target`, if there is such a node.
    fn unlink(&mut self, target: u64, id: u64)
        ensures
            final(self)@ == (GraphView {
                nodes: if old(self)@.has(target) {
                    old(self)@.nodes.insert(target, unlinked(old(self)@.nodes[target], id))
                } else {
                    old(self)@.nodes
                },
                ..old(self)@
            }),
    {
        match self.graph.remove(&target) {
            Some(mut node) => {
                discard(&mut node.backlinks, id);
                let ghost view = node@;
                self.graph.insert(target, node);
                assert(node_views(self.graph@) =~= node_views(old(self).graph@).insert(
                    target,
                    view,
                ));
            },
            None => {
                assert(node_views(self.graph@) =~= node_views(old(self).graph@));
            },
        }
    }

    /// Puts `id` among the backlinks of `target`, if there is such a node
    /// and it lacks `id`.
    fn link(&mut self, target: u64, id: u64)
        ensures
            final(self)@ == (GraphView {
                nodes: if old(self)@.has(target) {
                    old(self)@.nodes.insert(
                        target,
                        NodeView {
                            backlinks: with_id(old(self)@.nodes[target].backlinks, id),
                            ..old(self)@.nodes[target]
                        },
                    )
                } else {
                    old(self)@.nodes
                },
                ..old(self)@
            }),
    {
        match self.graph.remove(&target) {
            Some(mut node) => {
                add_id(&mut node.backlinks, id);
                let ghost view = node@;
                self.graph.insert(target, node);
                assert(node_views(self.graph@) =~= node_views(old(self).graph@).insert(
                    target,
                    view,
                ));
            },
            None => {
                assert(node_views(self.graph@) =~= node_views(old(self).graph@));
            },
        }
    }

    /// The first of `targets` that is no node of this graph.
    fn missing(&self, targets: &Vec<u64>) -> (r: Option<u64>)
        ensures
            r == first_missing(self@.nodes, targets@),
    {
        let mut i: usize = 0;
        assert(targets@.subrange(0, targets.len() as int) =~= targets@);
        while i < targets.len()
            invariant
                i <= targets.len(),
                first_missing(self@.nodes, targets@) == first_missing(
                    self@.nodes,
                    targets@.subrange(i as int, targets.len() as int),
                ),
            decreases targets.len() - i,
        {
            let ghost rest = targets@.subrange(i as int, targets.len() as int);
            if !self.graph.contains_key(&targets[i]) {
                return Some(targets[i]);
            }
            assert(rest.drop_first() =~= targets@.subrange(i + 1, targets.len() as int));
            i += 1;
        }
        assert(targets@.subrange(i as int, targets.len() as int) =~= Seq::<u64>::empty());
        None
    }

    /// Takes `id` out of the backlinks of every node among `targets`.
    fn unlink_all(&mut self, targets: &Vec<u64>, id: u64)
        ensures
            final(self)@ == (GraphView {
                nodes: Map::new(
                    |k: u64| old(self)@.nodes.contains_key(k),
                    |k: u64|
                        if targets@.contains(k) {
                            unlinked(old(self)@.nodes[k], id)
                        } else {
                            old(self)@.nodes[k]
                        },
                ),
                ..old(self)@
            }),
    {
        let ghost start = self@;
        let mut i: usize = 0;
        while i < targets.len()
            invariant
                i <= targets.len(),
                self@.names == start.names,
                self@.values == start.values,
                self@.counter == start.counter,
                self@.nodes.dom() == start.nodes.dom(),
                forall|k: u64| #[trigger]
                    start.nodes.contains_key(k) ==> self@.nodes[k] == if targets@.subrange(
                        0,
                        i as int,
                    ).contains(k) {
                        unlinked(start.nodes[k], id)
                    } else {
                        start.nodes[k]
                    },
            decreases targets.len() - i,
        {
            let ghost done = targets@.subrange(0, i as int);
            let target = targets[i];
            self.unlink(target, id);
            i += 1;
            proof {
                let now = targets@.subrange(0, i as int);
                assert(now =~= done.push(target));
                crate::idlist::lemma_push_contains(done, target);
                assert(self@.nodes.dom() =~= start.nodes.dom());
                assert forall|k: u64| #[trigger] start.nodes.contains_key(k) implies self@.nodes[k]
                    == if now.contains(k) {
                    unlinked(start.nodes[k], id)
                } else {
                    start.nodes[k]
                } by {
                    if k == target {
                        lemma_without(start.nodes[k].backlinks, id);
                        lemma_without(without(start.nodes[k].backlinks, id), id);
                    }
                }
            }
        }
        proof {
            assert(targets@.subrange(0, i as int) =~= targets@);
            assert(self@.nodes =~= Map::new(
                |k: u64| start.nodes.contains_key(k),
                |k: u64|
                    if targets@.contains(k) {
                        unlinked(start.nodes[k], id)
                    } else {
                        start.nodes[k]
                    },
            ));
        }
    }

    /// Files a new node under `id`, which no node has, with `backlinks` as
    /// its backlinks.
    fn file_with(&mut self, name: &str, value: Val, id: u64, backlinks: Vec<u64>)
        requires
            !old(self)@.has(id),
            id < u64::MAX,
        ensures
            final(self)@ == old(self)@.with_node(id, name@, value@, backlinks@),
    {
        self.name_lookup.enter(name, id);
        self.value_lookup.enter(&value, id);
        let node = Node { name: name.to_owned(), id, value, relations: Vec::new(), backlinks };
        self.store(node);
        if self.counter <= id {
            self.counter = id + 1;
        }
    }

    /// Files a new node under `id`, which no node has. The node has no
    /// relations and no backlinks.
    pub(crate) fn file(&mut self, name: &str, value: Val, id: u64)
        requires
            !old(self)@.has(id),
            id < u64::MAX,
        ensures
            final(self)@ == old(self)@.with_fresh(id, name@, value@),
    {
        self.file_with(name, value, id, Vec::new());
    }

    /// The nodes whose relations name `id`, each once, by ascending
    /// identifier.
    fn referrers(&self, id: u64) -> (r: Vec<u64>)
        requires
            self.wf(),
        ensures
            r@ == self@.referrers(id),
    {
        proof {
            lemma_referrers(self@, id);
        }
        if id >= self.counter {
            let none: Vec<u64> = Vec::new();
            proof {
                let spec = self@.referrers(id);
                if spec.len() > 0 {
                    assert(spec.contains(spec[0]));
                    assert(self@.nodes[spec[0]].relations.contains(id));
                }
                assert(spec =~= none@);
            }
            return none;
        }
        let ids = self.ids();
        let mut found: Vec<u64> = Vec::new();
        let mut i: usize = 0;
        while i < ids.len()
            invariant
                i <= ids.len(),
                ids@.no_duplicates(),
                ids@.to_set() == self@.nodes.dom(),
                found@.no_duplicates(),
                forall|x: u64| #[trigger]
                    found@.contains(x) <==> ids@.subrange(0, i as int).contains(x)
                        && self@.nodes[x].relations.contains(id),
            decreases ids.len() - i,
        {
            let ghost done = ids@.subrange(0, i as int);
            let ghost kept = found@;
            let a = ids[i];
            assert(ids@.to_set().contains(a));
            assert(!done.contains(a)) by {
                if done.contains(a) {
                    let j = choose|j: int| 0 <= j < done.len() && done[j] == a;
                    assert(ids@[j] == ids@[i as int]);
                }
            }
            let names = match self.graph.get(&a) {
                Some(node) => holds(&node.relations, id),
                None => false,
            };
            if names {
                found.push(a);
            }
            i += 1;
            proof {
                let now = ids@.subrange(0, i as int);
                assert(now =~= done.push(a));
                crate::idlist::lemma_push_contains(done, a);
                crate::idlist::lemma_push_contains(kept, a);
            }
        }
        let sorted = sort_ids(&found, Orders::First);
        proof {
            assert(ids@.subrange(0, i as int) =~= ids@);
            let spec = self@.referrers(id);
            lemma_referrers(self@, id);
            lemma_ordered(found@, Orders::First);
            lemma_ordered_distinct(found@, Orders::First);
            assert forall|x: u64| sorted@.contains(x) <==> spec.contains(x) by {
                assert(sorted@.contains(x) <==> found@.contains(x));
                if spec.contains(x) {
                    assert(self@.has(x));
                    assert(ids@.to_set().contains(x));
                    assert(ids@.contains(x));
                }
                if found@.contains(x) {
                    assert(ids@.contains(x));
                    assert(ids@.to_set().contains(x));
                    assert(self@.has(x));
                }
            }
            lemma_order_unique(sorted@, spec, Orders::First);
        }
        sorted
    }

    /// Takes node `id` out of the graph altogether.
    fn remove(&mut self, id: u64) -> (r: Option<Node>)
        requires
            old(self).wf(),
        ensures
            final(self)@ == old(self)@.delete(id),
            match r {
                Some(node) => old(self)@.has(id) && node@ == old(self)@.nodes[id],
                None => !old(self)@.has(id),
            },
    {
        match self.take(id) {
            None => {
                assert(self@.nodes =~= old(self)@.nodes);
                None
            },
            Some(node) => {
                let ghost start = self@;
                self.unlink_all(&node.relations, id);
                self.name_lookup.leave(node.name.as_str(), id);
                self.value_lookup.leave(&node.value, id);
                proof {
                    let g = old(self)@;
                    assert forall|k: u64| #[trigger] start.nodes.contains_key(k) implies self@.nodes[k]
                        == unlinked(g.nodes[k], id) by {
                        if !node.relations@.contains(k) {
                            lemma_without(g.nodes[k].backlinks, id);
                            assert(!g.nodes[k].backlinks.contains(id));
                        }
                    }
                    assert(self@.nodes =~= g.delete(id).nodes);
                }
                Some(node)
            },
        }
    }

    /// A graph without nodes, whose first appended node gets identifier 0.
    pub fn new() -> (g: Graph)
        ensures
            g.wf(),
            g@ == GraphView::empty(),
            g@.linked(),
    {
        let g = Graph {
            graph: HashMap::new(),
            name_lookup: TextIndex::new(),
            value_lookup: ValueIndex::new(),
            counter: 0,
        };
        proof {
            assert(g@.nodes =~= GraphView::empty().nodes);
            lemma_empty_wf();
        }
        g
    }

    /// The identifier that the next appended node gets.
    pub fn next_id(&self) -> (id: u64)
        ensures
            id == self@.counter,
    {
        self.counter
    }

    /// Adds a node under the next free identifier and returns that
    /// identifier. The node has no relations and no backlinks. It goes to
    /// the end of the bucket of its name and of its value.
    ///
    /// An identifier has to be left: [`Graph::next_id`] is below `u64::MAX`.
    pub fn append<T: Wrappable>(&mut self, name: &str, value: T) -> (id: u64)
        requires
            old(self).wf(),
            old(self)@.counter < u64::MAX,
        ensures
            final(self).wf(),
            id == old(self)@.counter,
            !old(self)@.has(id),
            final(self)@ == old(self)@.append(name@, value.wrapped()),
            final(self)@.counter == id + 1,
            final(self)@.nodes[id] == NodeView::fresh(id, name@, value.wrapped()),
            forall|k: u64| #[trigger]
                old(self)@.has(k) ==> final(self)@.has(k) && final(self)@.nodes[k] == old(
                    self,
                )@.nodes[k],
            old(self)@.linked() ==> final(self)@.linked(),
    {
        let id = self.counter;
        proof {
            lemma_append_wf(self@, name@, value.wrapped());
        }
        self.file(name, value.wrap(), id);
        id
    }

    /// Adds a node under the identifier `id`. A node that had the
    /// identifier is deleted first, as [`Graph::delete`] does it. The next
    /// appended node gets an identifier above `id`.
    ///
    /// The new node has no relations. Its backlinks are the nodes whose
    /// relations name `id`, by ascending identifier: a relation that was
    /// left behind when a node was deleted points at the node that takes
    /// its identifier.
    ///
    /// `id` has to be below `u64::MAX`, so that an identifier is left
    /// behind it.
    pub fn insert<T: Wrappable>(&mut self, name: &str, value: T, id: u64)
        requires
            old(self).wf(),
            id < u64::MAX,
        ensures
            final(self).wf(),
            final(self)@ == old(self)@.insert(name@, value.wrapped(), id),
            final(self)@.counter > id,
            old(self)@.linked() ==> final(self)@.linked(),
    {
        proof {
            lemma_delete_wf(self@, id);
            lemma_insert_wf(self@, name@, value.wrapped(), id);
        }
        let _ = self.remove(id);
        let backlinks = self.referrers(id);
        self.file_with(name, value.wrap(), id, backlinks);
    }

    /// Deletes node `id` and returns it. The node leaves both indices and
    /// the backlinks of the nodes it pointed at. Relations of other nodes
    /// that name `id` stay. Without such a node nothing changes.
    pub fn delete(&mut self, id: u64) -> (r: Option<Node>)
        requires
            old(self).wf(),
        ensures
            final(self).wf(),
            final(self)@ == old(self)@.delete(id),
            match r {
                Some(node) => old(self)@.has(id) && node@ == old(self)@.nodes[id],
                None => !old(self)@.has(id),
            },
            !final(self)@.has(id),
            old(self)@.linked() ==> final(self)@.linked(),
    {
        proof {
            lemma_delete_wf(self@, id);
            if self@.linked() {
                lemma_delete_linked(self@, id);
            }
        }
        self.remove(id)
    }

    /// Replaces the relations of node `id`. Every target has to exist: with
    /// one that does not, nothing changes and the error names the first
    /// such target.
    pub fn set_relations(&mut self, id: u64, relations: Vec<u64>) -> (r: Result<(), GraphError>)
        requires
            old(self).wf(),
        ensures
            final(self).wf(),
            match r {
                Ok(_) => old(self)@.has(id) && first_missing(old(self)@.nodes, relations@)
                    is None && final(self)@ == old(self)@.set_relations(id, relations@),
                Err(GraphError::NotFound) => !old(self)@.has(id) && final(self)@ == old(self)@,
                Err(GraphError::InvalidReference(t)) => old(self)@.has(id) && first_missing(
                    old(self)@.nodes,
                    relations@,
                ) == Some(t) && final(self)@ == old(self)@,
            },
            old(self)@.linked() ==> final(self)@.linked(),
    {
        if !self.graph.contains_key(&id) {
            return Err(GraphError::NotFound);
        }
        match self.missing(&relations) {
            Some(t) => {
                return Err(GraphError::InvalidReference(t));
            },
            None => {},
        }
        let ghost g = self@;
        proof {
            lemma_set_relations_wf(g, id, relations@);
            lemma_first_missing(g.nodes, relations@);
        }
        let mut node = match self.take(id) {
            Some(node) => node,
            None => {
                return Err(GraphError::NotFound);
            },
        };
        let old_relations = node.relations;
        node.relations = clone_ids(&relations);
        self.store(node);
        let ghost start = self@;
        assert(start.nodes.dom() =~= g.nodes.dom());
        self.unlink_all(&old_relations, id);
        let ghost middle = self@;
        proof {
            assert(middle.nodes.dom() =~= start.nodes.dom());
            assert forall|k: u64| #[trigger] start.nodes.contains_key(k) implies middle.nodes[k]
                == unlinked(start.nodes[k], id) && !middle.nodes[k].backlinks.contains(id) by {
                assert(g.nodes.contains_key(k));
                lemma_without(g.nodes[k].backlinks, id);
                if !old_relations@.contains(k) {
                    assert(!g.nodes[k].backlinks.contains(id));
                }
            }
        }
        let mut j: usize = 0;
        while j < relations.len()
            invariant
                j <= relations.len(),
                self@.names == start.names,
                self@.values == start.values,
                self@.counter == start.counter,
                self@.nodes.dom() == start.nodes.dom(),
                forall|k: u64| #[trigger]
                    start.nodes.contains_key(k) ==> self@.nodes[k] == if relations@.subrange(
                        0,
                        j as int,
                    ).contains(k) {
                        NodeView {
                            backlinks: middle.nodes[k].backlinks.push(id),
                            ..middle.nodes[k]
                        }
                    } else {
                        middle.nodes[k]
                    },
                middle.nodes.dom() == start.nodes.dom(),
                forall|k: u64| #[trigger]
                    start.nodes.contains_key(k) ==> !middle.nodes[k].backlinks.contains(id),
            decreases relations.len() - j,
        {
            let ghost done = relations@.subrange(0, j as int);
            let target = relations[j];
            self.link(target, id);
            j += 1;
            proof {
                let now = relations@.subrange(0, j as int);
                assert(now =~= done.push(target));
                crate::idlist::lemma_push_contains(done, target);
                assert(self@.nodes.dom() =~= start.nodes.dom());
                assert forall|k: u64| #[trigger] start.nodes.contains_key(k) implies self@.nodes[k]
                    == if now.contains(k) {
                    NodeView { backlinks: middle.nodes[k].backlinks.push(id), ..middle.nodes[k] }
                } else {
                    middle.nodes[k]
                } by {
                    if k == target {
                        crate::idlist::lemma_push_contains(middle.nodes[k].backlinks, id);
                    }
                }
            }
        }
        proof {
            assert(relations@.subrange(0, j as int) =~= relations@);
            assert(self@.nodes =~= g.set_relations(id, relations@).nodes);
        }
        Ok(())
    }

    /// Puts `more` behind the relations of node `id`. Every target has to
    /// exist: with one that does not, nothing changes and the error names
    /// the first such target.
    pub fn append_relations(&mut self, id: u64, more: Vec<u64>) -> (r: Result<(), GraphError>)
        requires
            old(self).wf(),
        ensures
            final(self).wf(),
            match r {
                Ok(_) => old(self)@.has(id) && first_missing(old(self)@.nodes, more@) is None
                    && final(self)@ == old(self)@.append_relations(id, more@),
                Err(GraphError::NotFound) => !old(self)@.has(id) && final(self)@ == old(self)@,
                Err(GraphError::InvalidReference(t)) => old(self)@.has(id) && first_missing(
                    old(self)@.nodes,
                    more@,
                ) == Some(t) && final(self)@ == old(self)@,
            },
            old(self)@.linked() ==> final(self)@.linked(),
    {
        if !self.graph.contains_key(&id) {
            return Err(GraphError::NotFound);
        }
        match self.missing(&more) {
            Some(t) => {
                return Err(GraphError::InvalidReference(t));
            },
            None => {},
        }
        let ghost g = self@;
        proof {
            lemma_append_relations_wf(g, id, more@);
        }
        let mut node = match self.take(id) {
            Some(node) => node,
            None => {
                return Err(GraphError::NotFound);
            },
        };
        let mut added = clone_ids(&more);
        node.relations.append(&mut added);
        self.store(node);
        let ghost start = self@;
        assert(start.nodes.dom() =~= g.nodes.dom());
        let mut j: usize = 0;
        while j < more.len()
            invariant
                j <= more.len(),
                self@.names == start.names,
                self@.values == start.values,
                self@.counter == start.counter,
                self@.nodes.dom() == start.nodes.dom(),
                forall|k: u64| #[trigger]
                    start.nodes.contains_key(k) ==> self@.nodes[k] == if more@.subrange(
                        0,
                        j as int,
                    ).contains(k) {
                        NodeView {
                            backlinks: with_id(start.nodes[k].backlinks, id),
                            ..start.nodes[k]
                        }
                    } else {
                        start.nodes[k]
                    },
            decreases more.len() - j,
        {
            let ghost done = more@.subrange(0, j as int);
            let target = more[j];
            self.link(target, id);
            j += 1;
            proof {
                let now = more@.subrange(0, j as int);
                assert(now =~= done.push(target));
                crate::idlist::lemma_push_contains(done, target);
                assert(self@.nodes.dom() =~= start.nodes.dom());
                assert forall|k: u64| #[trigger] start.nodes.contains_key(k) implies self@.nodes[k]
                    == if now.contains(k) {
                    NodeView { backlinks: with_id(start.nodes[k].backlinks, id), ..start.nodes[k] }
                } else {
                    start.nodes[k]
                } by {
                    if k == target {
                        lemma_with_id(start.nodes[k].backlinks, id);
                    }
                }
            }
        }
        proof {
            assert(more@.subrange(0, j as int) =~= more@);
            assert(self@.nodes =~= g.append_relations(id, more@).nodes);
        }
        Ok(())
    }

    /// Gives node `id` the name `name`. In the name index the node leaves
    /// its old bucket and goes to the end of the new one.
    pub fn set_name(&mut self, id: u64, name: &str) -> (r: Result<(), GraphError>)
        requires
            old(self).wf(),
        ensures
            final(self).wf(),
            match r {
                Ok(_) => old(self)@.has(id) && final(self)@ == old(self)@.set_name(id, name@),
                Err(e) => e == GraphError::NotFound && !old(self)@.has(id) && final(self)@ == old(
                    self,
                )@,
            },
            old(self)@.linked() ==> final(self)@.linked(),
    {
        let ghost g = self@;
        match self.take(id) {
            None => {
                assert(self@.nodes =~= g.nodes);
                Err(GraphError::NotFound)
            },
            Some(mut node) => {
                proof {
                    lemma_set_name_wf(g, id, name@);
                }
                self.name_lookup.leave(node.name.as_str(), id);
                self.name_lookup.enter(name, id);
                node.name = name.to_owned();
                self.store(node);
                assert(self@.nodes =~= g.set_name(id, name@).nodes);
                Ok(())
            },
        }
    }

    /// Gives node `id` the value `value`. In the value index the node
    /// leaves its old bucket and goes to the end of the new one.
    pub fn set_value<T: Wrappable>(&mut self, id: u64, value: T) -> (r: Result<(), GraphError>)
        requires
            old(self).wf(),
        ensures
            final(self).wf(),
            match r {
                Ok(_) => old(self)@.has(id) && final(self)@ == old(self)@.set_value(
                    id,
                    value.wrapped(),
                ),
                Err(e) => e == GraphError::NotFound && !old(self)@.has(id) && final(self)@ == old(
                    self,
                )@,
            },
            old(self)@.linked() ==> final(self)@.linked(),
    {
        let ghost g = self@;
        match self.take(id) {
            None => {
                assert(self@.nodes =~= g.nodes);
                Err(GraphError::NotFound)
            },
            Some(mut node) => {
                proof {
                    lemma_set_value_wf(g, id, value.wrapped());
                }
                let value = value.wrap();
                self.value_lookup.leave(&node.value, id);
                self.value_lookup.enter(&value, id);
                node.value = value;
                self.store(node);
                assert(self@.nodes =~= g.set_value(id, value@).nodes);
                Ok(())
            },
        }
    }

    /// The node under `id`.
    pub fn select_by_id(&self, id: u64) -> (r: Option<&Node>)
        ensures
            match r {
                Some(node) => self@.has(id) && node@ == self@.nodes[id],
                None => !self@.has(id),
            },
    {
        self.graph.get(&id)
    }

    /// Whether a node has the identifier `id`.
    pub fn contains(&self, id: u64) -> (r: bool)
        ensures
            r == self@.has(id),
    {
        self.graph.contains_key(&id)
    }

    /// How many nodes the graph has.
    pub fn len(&self) -> (n: usize)
        ensures
            n == self@.nodes.dom().len(),
    {
        assert(self@.nodes.dom() =~= self.graph@.dom());
        self.graph.len()
    }

    /// The identifiers of the nodes named `name`, in index order.
    pub fn ids_by_name(&self, name: &str) -> (r: Vec<u64>)
        ensures
            r@ == self@.named(name@),
    {
        self.name_lookup.ids(name)
    }

    /// The identifiers of the nodes whose value is `value`, in index order.
    pub fn ids_by_value(&self, value: &Val) -> (r: Vec<u64>)
        ensures
            r@ == self@.valued(value@),
    {
        self.value_lookup.ids(value)
    }

    /// The identifiers of all nodes, each once, in no particular order.
    pub fn ids(&self) -> (r: Vec<u64>)
        ensures
            r@.no_duplicates(),
            r@.to_set() == self@.nodes.dom(),
    {
        let mut out: Vec<u64> = Vec::new();
        let keys = self.graph.keys();
        let ghost all = keys.remaining();
        for k in it: keys
            invariant
                it.seq() == all,
                out@.len() == it.index(),
                forall|i: int| 0 <= i < out@.len() ==> out@[i] == *all[i],
        {
            out.push(*k);
        }
        proof {
            assert(out@ =~= all.unref());
            assert(self@.nodes.dom() =~= self.graph@.dom());
        }
        out
    }

    /// Puts `relation` behind the relations of node `id`, as
    /// [`Graph::append_relations`] does it with a list of one.
    pub fn add_relation(&mut self, id: u64, relation: u64) -> (r: Result<(), GraphError>)
        requires
            old(self).wf(),
        ensures
            final(self).wf(),
            match r {
                Ok(_) => old(self)@.has(id) && old(self)@.has(relation) && final(self)@ == old(
                    self,
                )@.append_relations(id, seq![relation]),
                Err(GraphError::NotFound) => !old(self)@.has(id) && final(self)@ == old(self)@,
                Err(GraphError::InvalidReference(t)) => old(self)@.has(id) && !old(self)@.has(
                    relation,
                ) && t == relation && final(self)@ == old(self)@,
            },
            old(self)@.linked() ==> final(self)@.linked(),
    {
        let mut more: Vec<u64> = Vec::new();
        more.push(relation);
        proof {
            assert(more@ =~= seq![relation]);
            assert(more@.drop_first() =~= Seq::<u64>::empty());
            assert(first_missing(self@.nodes, more@.drop_first()) is None);
        }
        self.append_relations(id, more)
    }

    /// Takes every occurrence of `relation` out of the relations of node
    /// `id`, and `id` out of the backlinks of `relation`.
    pub fn remove_relation(&mut self, id: u64, relation: u64) -> (r: Result<(), GraphError>)
        requires
            old(self).wf(),
        ensures
            final(self).wf(),
            match r {
                Ok(_) => old(self)@.has(id) && final(self)@ == old(self)@.remove_relation(
                    id,
                    relation,
                ),
                Err(e) => e == GraphError::NotFound && !old(self)@.has(id) && final(self)@ == old(
                    self,
                )@,
            },
            old(self)@.linked() ==> final(self)@.linked(),
    {
        let ghost g = self@;
        match self.take(id) {
            None => {
                assert(self@.nodes =~= g.nodes);
                Err(GraphError::NotFound)
            },
            Some(mut node) => {
                proof {
                    crate::model::lemma_remove_relation_wf(g, id, relation);
                }
                discard(&mut node.relations, relation);
                self.store(node);
                self.unlink(relation, id);
                assert(self@.nodes =~= g.remove_relation(id, relation).nodes);
                Ok(())
            },
        }
    }

    /// The first of `targets` that would be no node of this graph once a
    /// node with this name and value were inserted under `id`: that is
    /// neither a node now nor `id`.
    fn missing_beside(&self, targets: &Vec<u64>, name: &str, value: &Val, id: u64) -> (r: Option<
        u64,
    >)
        ensures
            r == first_missing(self@.insert(name@, value@, id).nodes, targets@),
    {
        let ghost after = self@.insert(name@, value@, id).nodes;
        let mut i: usize = 0;
        assert(targets@.subrange(0, targets.len() as int) =~= targets@);
        while i < targets.len()
            invariant
                i <= targets.len(),
                after == self@.insert(name@, value@, id).nodes,
                first_missing(after, targets@) == first_missing(
                    after,
                    targets@.subrange(i as int, targets.len() as int),
                ),
            decreases targets.len() - i,
        {
            let ghost rest = targets@.subrange(i as int, targets.len() as int);
            if targets[i] != id && !self.graph.contains_key(&targets[i]) {
                return Some(targets[i]);
            }
            assert(rest.drop_first() =~= targets@.subrange(i + 1, targets.len() as int));
            i += 1;
        }
        assert(targets@.subrange(i as int, targets.len() as int) =~= Seq::<u64>::empty());
        None
    }

    /// Puts a node with relations under `id`.
    fn place(&mut self, name: &str, value: Val, id: u64, relations: Vec<u64>) -> (r: Result<
        (),
        GraphError,
    >)
        requires
            old(self).wf(),
            id < u64::MAX,
        ensures
            final(self).wf(),
            match r {
                Ok(_) => first_missing(old(self)@.insert(name@, value@, id).nodes, relations@)
                    is None && final(self)@ == old(self)@.place(name@, value@, id, relations@),
                Err(e) => first_missing(old(self)@.insert(name@, value@, id).nodes, relations@)
                    == Some(e->InvalidReference_0) && e is InvalidReference && final(self)@ == old(
                    self,
                )@,
            },
            old(self)@.linked() ==> final(self)@.linked(),
    {
        let ghost g = self@;
        match self.missing_beside(&relations, name, &value, id) {
            Some(t) => {
                return Err(GraphError::InvalidReference(t));
            },
            None => {},
        }
        proof {
            crate::model::lemma_place_wf(g, name@, value@, id, relations@);
        }
        self.insert(name, value, id);
        let _ = self.set_relations(id, relations);
        Ok(())
    }

    /// Adds `node` under its identifier, with its name, value and
    /// relations; a node that had the identifier is deleted first. The
    /// backlinks of `node` are not taken over: they follow from the
    /// relations of the nodes in the graph. Every relation has to name a
    /// node of the graph or `node` itself: otherwise nothing changes and
    /// the error names the first that does not.
    pub fn append_node(&mut self, node: Node) -> (r: Result<(), GraphError>)
        requires
            old(self).wf(),
            node.id < u64::MAX,
        ensures
            final(self).wf(),
            match r {
                Ok(_) => first_missing(
                    old(self)@.insert(node@.name, node@.value, node.id).nodes,
                    node@.relations,
                ) is None && final(self)@ == old(self)@.place(
                    node@.name,
                    node@.value,
                    node.id,
                    node@.relations,
                ),
                Err(e) => first_missing(
                    old(self)@.insert(node@.name, node@.value, node.id).nodes,
                    node@.relations,
                ) == Some(e->InvalidReference_0) && e is InvalidReference && final(self)@ == old(
                    self,
                )@,
            },
            old(self)@.linked() ==> final(self)@.linked(),
    {
        let Node { name, id, value, relations, backlinks } = node;
        self.place(name.as_str(), value, id, relations)
    }

    /// Adds a node with relations under `id`, as [`Graph::append_node`]
    /// adds a node.
    pub fn rappend<T: Wrappable>(
        &mut self,
        name: &str,
        id: u64,
        value: T,
        relations: Vec<u64>,
    ) -> (r: Result<(), GraphError>)
        requires
            old(self).wf(),
            id < u64::MAX,
        ensures
            final(self).wf(),
            match r {
                Ok(_) => first_missing(
                    old(self)@.insert(name@, value.wrapped(), id).nodes,
                    relations@,
                ) is None && final(self)@ == old(self)@.place(
                    name@,
                    value.wrapped(),
                    id,
                    relations@,
                ),
                Err(e) => first_missing(
                    old(self)@.insert(name@, value.wrapped(), id).nodes,
                    relations@,
                ) == Some(e->InvalidReference_0) && e is InvalidReference && final(self)@ == old(
                    self,
                )@,
            },
            old(self)@.linked() ==> final(self)@.linked(),
    {
        self.place(name, value.wrap(), id, relations)
    }

    /// Adds a node with relations under the next free identifier and
    /// returns that identifier. Every relation has to name a node of the
    /// graph or the new node itself: otherwise nothing changes and the
    /// error names the first that does not.
    pub fn assumed_rappend<T: Wrappable>(&mut self, name: &str, value: T, relations: Vec<u64>) -> (r:
        Result<u64, GraphError>)
        requires
            old(self).wf(),
            old(self)@.counter < u64::MAX,
        ensures
            final(self).wf(),
            match r {
                Ok(id) => id == old(self)@.counter && first_missing(
                    old(self)@.insert(name@, value.wrapped(), id).nodes,
                    relations@,
                ) is None && final(self)@ == old(self)@.place(
                    name@,
                    value.wrapped(),
                    id,
                    relations@,
                ),
                Err(e) => first_missing(
                    old(self)@.insert(name@, value.wrapped(), old(self)@.counter as u64).nodes,
                    relations@,
                ) == Some(e->InvalidReference_0) && e is InvalidReference && final(self)@ == old(
                    self,
                )@,
            },
            old(self)@.linked() ==> final(self)@.linked(),
    {
        let id = self.counter;
        match self.place(name, value.wrap(), id, relations) {
            Ok(_) => Ok(id),
            Err(e) => Err(e),
        }
    }

    /// Adds a node under the next free identifier, as [`Graph::append`] does.
    pub fn assumed_append<T: Wrappable>(&mut self, name: &str, value: T) -> (id: u64)
        requires
            old(self).wf(),
            old(self)@.counter < u64::MAX,
        ensures
            final(self).wf(),
            id == old(self)@.counter,
            !old(self)@.has(id),
            final(self)@ == old(self)@.append(name@, value.wrapped()),
            final(self)@.counter == id + 1,
            old(self)@.linked() ==> final(self)@.linked(),
    {
        self.append(name, value)
    }

    /// Takes node `id` out of the graph and returns it, as
    /// [`Graph::delete`] does.
    pub fn pop_id(&mut self, id: u64) -> (r: Option<Node>)
        requires
            old(self).wf(),
        ensures
            final(self).wf(),
            final(self)@ == old(self)@.delete(id),
            match r {
                Some(node) => old(self)@.has(id) && node@ == old(self)@.nodes[id],
                None => !old(self)@.has(id),
            },
            !final(self)@.has(id),
            old(self)@.linked() ==> final(self)@.linked(),
    {
        self.delete(id)
    }

    /// Gives node `id` the name `name`, as [`Graph::set_name`] does.
    pub fn change_name(&mut self, id: u64, name: &str) -> (r: Result<(), GraphError>)
        requires
            old(self).wf(),
        ensures
            final(self).wf(),
            match r {
                Ok(_) => old(self)@.has(id) && final(self)@ == old(self)@.set_name(id, name@),
                Err(e) => e == GraphError::NotFound && !old(self)@.has(id) && final(self)@ == old(
                    self,
                )@,
            },
            old(self)@.linked() ==> final(self)@.linked(),
    {
        self.set_name(id, name)
    }

    /// Gives node `id` the value `value`, as [`Graph::set_value`] does.
    pub fn change_value<T: Wrappable>(&mut self, id: u64, value: T) -> (r: Result<(), GraphError>)
        requires
            old(self).wf(),
        ensures
            final(self).wf(),
            match r {
                Ok(_) => old(self)@.has(id) && final(self)@ == old(self)@.set_value(
                    id,
                    value.wrapped(),
                ),
                Err(e) => e == GraphError::NotFound && !old(self)@.has(id) && final(self)@ == old(
                    self,
                )@,
            },
            old(self)@.linked() ==> final(self)@.linked(),
    {
        self.set_value(id, value)
    }

    /// Replaces the relations of node `id`, as [`Graph::set_relations`] does.
    pub fn change_relations(&mut self, id: u64, relations: Vec<u64>) -> (r: Result<
        (),
        GraphError,
    >)
        requires
            old(self).wf(),
        ensures
            final(self).wf(),
            match r {
                Ok(_) => old(self)@.has(id) && first_missing(old(self)@.nodes, relations@)
                    is None && final(self)@ == old(self)@.set_relations(id, relations@),
                Err(GraphError::NotFound) => !old(self)@.has(id) && final(self)@ == old(self)@,
                Err(GraphError::InvalidReference(t)) => old(self)@.has(id) && first_missing(
                    old(self)@.nodes,
                    relations@,
                ) == Some(t) && final(self)@ == old(self)@,
            },
            old(self)@.linked() ==> final(self)@.linked(),
    {
        self.set_relations(id, relations)
    }
}

} // verus!
