//! Reading the graph: the nodes of a name, of a value, behind the relations
//! and the backlinks of a node; all of them, or the first few by identifier.

use vstd::prelude::*;
use crate::graph::Graph;
use crate::model::{lemma_backlinks_present, lemma_named_exact, lemma_pick_some_len};
use crate::model::{lemma_present, lemma_valued_exact};
use crate::node::{Node, NodeView};
use crate::order::{first_n, keep_first, lemma_ordered, ordered, sort_ids, Orders};
use crate::value::Wrappable;

verus! {

/// What each of the nodes stands for.
pub open spec fn views(nodes: Seq<&Node>) -> Seq<NodeView> {
    Seq::new(nodes.len(), |i: int| nodes[i]@)
}

/// The smaller of a count asked for and a count at hand.
pub open spec fn at_most(amount: int, at_hand: int) -> int {
    if amount <= at_hand {
        amount
    } else {
        at_hand
    }
}

impl Graph {
    /// Those of `ids` that are identifiers of nodes.
    fn present_ids(&self, ids: &Vec<u64>) -> (r: Vec<u64>)
        ensures
            r@ == self@.present(ids@),
    {
        let mut out: Vec<u64> = Vec::new();
        let mut i: usize = 0;
        while i < ids.len()
            invariant
                i <= ids.len(),
                out@ == self@.present(ids@.subrange(0, i as int)),
            decreases ids.len() - i,
        {
            let ghost before = ids@.subrange(0, i as int);
            if self.contains(ids[i]) {
                out.push(ids[i]);
            }
            i += 1;
            assert(ids@.subrange(0, i as int).drop_last() =~= before);
        }
        assert(ids@.subrange(0, i as int) =~= ids@);
        out
    }

    /// The nodes under `ids`, which all are identifiers of nodes.
    fn fetch(&self, ids: &Vec<u64>) -> (r: Vec<&Node>)
        requires
            forall|i: int| 0 <= i < ids@.len() ==> self@.has(#[trigger] ids@[i]),
        ensures
            views(r@) == self@.lookup(ids@),
    {
        let mut out: Vec<&Node> = Vec::new();
        let mut i: usize = 0;
        while i < ids.len()
            invariant
                i <= ids.len(),
                out@.len() == i,
                forall|k: int| 0 <= k < ids@.len() ==> self@.has(#[trigger] ids@[k]),
                forall|k: int| 0 <= k < i ==> (#[trigger] out@[k])@ == self@.nodes[ids@[k]],
            decreases ids.len() - i,
        {
            assert(self@.has(ids@[i as int]));
            match self.select_by_id(ids[i]) {
                Some(node) => {
                    out.push(node);
                },
                None => {},
            }
            i += 1;
        }
        assert(views(out@) =~= self@.lookup(ids@));
        out
    }

    /// The nodes that `ids` names, passing over identifiers without a node.
    fn gather(&self, ids: &Vec<u64>) -> (r: Vec<&Node>)
        ensures
            views(r@) == self@.pick(ids@),
    {
        let found = self.present_ids(ids);
        proof {
            lemma_present(self@, ids@);
        }
        self.fetch(&found)
    }

    /// At most `amount` of the nodes that `ids` names, by identifier.
    fn gather_some(&self, ids: &Vec<u64>, amount: usize, ordering: Orders) -> (r: Vec<&Node>)
        ensures
            views(r@) == self@.pick_some(ids@, amount as int, ordering),
            r@.len() == at_most(amount as int, self@.pick(ids@).len() as int),
    {
        let found = self.present_ids(ids);
        let sorted = sort_ids(&found, ordering);
        let chosen = keep_first(&sorted, amount);
        proof {
            lemma_present(self@, ids@);
            lemma_ordered(found@, ordering);
            lemma_pick_some_len(self@, ids@, amount as int, ordering);
            assert forall|i: int| 0 <= i < chosen@.len() implies self@.has(#[trigger] chosen@[i]) by {
                assert(sorted@[i] == chosen@[i]);
                assert(sorted@.contains(chosen@[i]));
                assert(found@.contains(chosen@[i]));
            }
        }
        let r = self.fetch(&chosen);
        assert(r@.len() == views(r@).len());
        r
    }

    /// The identifier of the node that has the name `name` longest; none
    /// where no node has it.
    pub fn id_by_name(&self, name: &str) -> (r: Option<u64>)
        requires
            self.wf(),
        ensures
            r == if self@.named(name@).len() > 0 {
                Some(self@.named(name@)[0])
            } else {
                None
            },
            r matches Some(id) ==> self@.has(id) && self@.nodes[id].name == name@,
            r is None ==> forall|id: u64| #[trigger]
                self@.has(id) ==> self@.nodes[id].name != name@,
    {
        let ids = self.ids_by_name(name);
        proof {
            lemma_named_exact(self@, name@);
            if ids@.len() > 0 {
                assert(self@.named(name@).contains(ids@[0]));
            } else {
                assert forall|id: u64| #[trigger] self@.has(id) implies self@.nodes[id].name
                    != name@ by {
                    if self@.nodes[id].name == name@ {
                        assert(self@.named(name@).contains(id));
                    }
                }
            }
        }
        if ids.len() > 0 {
            Some(ids[0])
        } else {
            None
        }
    }

    /// All nodes named `name`, in the order in which they took the name.
    pub fn select_by_name(&self, name: &str) -> (r: Vec<&Node>)
        requires
            self.wf(),
        ensures
            views(r@) == self@.lookup(self@.named(name@)),
            self@.named(name@).no_duplicates(),
            forall|id: u64| #[trigger]
                self@.named(name@).contains(id) <==> self@.has(id) && self@.nodes[id].name
                    == name@,
    {
        proof {
            lemma_named_exact(self@, name@);
        }
        self.gather(&self.ids_by_name(name))
    }

    /// At most `amount` of the nodes named `name`: those with the smallest
    /// identifiers, smallest first, or those with the largest, largest
    /// first. As many as asked for, or all of them where they are fewer.
    pub fn select_amount_by_name(&self, name: &str, amount: usize, ordering: Orders) -> (r: Vec<
        &Node,
    >)
        requires
            self.wf(),
        ensures
            views(r@) == self@.lookup(
                first_n(ordered(self@.named(name@), ordering), amount as int),
            ),
            r@.len() == at_most(amount as int, self@.named(name@).len() as int),
    {
        proof {
            lemma_named_exact(self@, name@);
        }
        self.gather_some(&self.ids_by_name(name), amount, ordering)
    }

    /// All nodes whose value is `value`, of the same kind and content, in
    /// the order in which they took the value.
    pub fn select_by_value<T: Wrappable>(&self, value: T) -> (r: Vec<&Node>)
        requires
            self.wf(),
        ensures
            views(r@) == self@.lookup(self@.valued(value.wrapped())),
            self@.valued(value.wrapped()).no_duplicates(),
            forall|id: u64| #[trigger]
                self@.valued(value.wrapped()).contains(id) <==> self@.has(id)
                    && self@.nodes[id].value == value.wrapped(),
    {
        proof {
            lemma_valued_exact(self@, value.wrapped());
        }
        let value = value.wrap();
        self.gather(&self.ids_by_value(&value))
    }

    /// At most `amount` of the nodes whose value is `value`, by identifier
    /// as in [`Graph::select_amount_by_name`].
    pub fn select_amount_by_value<T: Wrappable>(
        &self,
        value: T,
        amount: usize,
        ordering: Orders,
    ) -> (r: Vec<&Node>)
        requires
            self.wf(),
        ensures
            views(r@) == self@.lookup(
                first_n(ordered(self@.valued(value.wrapped()), ordering), amount as int),
            ),
            r@.len() == at_most(amount as int, self@.valued(value.wrapped()).len() as int),
    {
        proof {
            lemma_valued_exact(self@, value.wrapped());
        }
        let value = value.wrap();
        self.gather_some(&self.ids_by_value(&value), amount, ordering)
    }

    /// The nodes that point at node `id`, in the order in which they came to
    /// do so; none where there is no such node.
    pub fn select_backlinks(&self, id: u64) -> (r: Vec<&Node>)
        requires
            self.wf(),
        ensures
            views(r@) == self@.lookup(self@.backlinks_of(id)),
    {
        proof {
            lemma_backlinks_present(self@, id);
        }
        match self.select_by_id(id) {
            Some(node) => self.gather(&node.backlinks),
            None => self.gather(&Vec::new()),
        }
    }

    /// At most `amount` of the nodes that point at node `id`, by identifier
    /// as in [`Graph::select_amount_by_name`].
    pub fn select_amount_backlinks(&self, id: u64, amount: usize, ordering: Orders) -> (r: Vec<
        &Node,
    >)
        requires
            self.wf(),
        ensures
            views(r@) == self@.lookup(
                first_n(ordered(self@.backlinks_of(id), ordering), amount as int),
            ),
            r@.len() == at_most(amount as int, self@.backlinks_of(id).len() as int),
    {
        proof {
            lemma_backlinks_present(self@, id);
        }
        match self.select_by_id(id) {
            Some(node) => self.gather_some(&node.backlinks, amount, ordering),
            None => self.gather_some(&Vec::new(), amount, ordering),
        }
    }

    /// The nodes that node `id` points at, in the order of its relations,
    /// one for each relation; none where there is no such node. A relation
    /// whose target was deleted is passed over.
    pub fn select_link(&self, id: u64) -> (r: Vec<&Node>)
        ensures
            views(r@) == self@.pick(self@.relations_of(id)),
    {
        match self.select_by_id(id) {
            Some(node) => self.gather(&node.relations),
            None => self.gather(&Vec::new()),
        }
    }

    /// At most `amount` of the nodes that node `id` points at, by
    /// identifier as in [`Graph::select_amount_by_name`]. A relation whose
    /// target was deleted is passed over.
    pub fn select_amount_link(&self, id: u64, amount: usize, ordering: Orders) -> (r: Vec<&Node>)
        ensures
            views(r@) == self@.pick_some(self@.relations_of(id), amount as int, ordering),
            r@.len() == at_most(amount as int, self@.pick(self@.relations_of(id)).len() as int),
    {
        match self.select_by_id(id) {
            Some(node) => self.gather_some(&node.relations, amount, ordering),
            None => self.gather_some(&Vec::new(), amount, ordering),
        }
    }
}

} // verus!
