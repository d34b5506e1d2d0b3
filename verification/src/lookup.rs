//! The secondary indices as they are kept in memory: buckets of identifiers
//! under a text, under a number, and under a value of any kind.

use std::collections::HashMap;
use vstd::hash_map::StringHashMap;
use vstd::prelude::*;
use crate::idlist::discard;
use crate::index::{enter, ids_under, leave};
use crate::node::clone_ids;
use crate::value::{Val, ValView};

verus! {

broadcast use vstd::std_specs::hash::group_hash_axioms;

/// Buckets of identifiers, each under a text.
pub struct TextIndex {
    buckets: StringHashMap<Vec<u64>>,
}

impl View for TextIndex {
    type V = Map<Seq<char>, Seq<u64>>;

    closed spec fn view(&self) -> Map<Seq<char>, Seq<u64>> {
        Map::new(
            |k: Seq<char>| self.buckets@.contains_key(k),
            |k: Seq<char>| self.buckets@[k]@,
        )
    }
}

impl TextIndex {
    /// An index without buckets.
    pub fn new() -> (r: TextIndex)
        ensures
            r@ == Map::<Seq<char>, Seq<u64>>::empty(),
    {
        let r = TextIndex { buckets: StringHashMap::new() };
        assert(r@ =~= Map::<Seq<char>, Seq<u64>>::empty());
        r
    }

    /// The identifiers filed under `key`.
    pub fn ids(&self, key: &str) -> (r: Vec<u64>)
        ensures
            r@ == ids_under(self@, key@),
    {
        match self.buckets.get(key) {
            Some(bucket) => clone_ids(bucket),
            None => Vec::new(),
        }
    }

    /// Files `id` under `key`, behind what stands there.
    pub fn enter(&mut self, key: &str, id: u64)
        ensures
            final(self)@ == enter(old(self)@, key@, id),
    {
        let mut bucket = self.ids(key);
        bucket.push(id);
        self.buckets.insert(key.to_owned(), bucket);
        assert(self@ =~= enter(old(self)@, key@, id));
    }

    /// Takes `id` from under `key`.
    pub fn leave(&mut self, key: &str, id: u64)
        ensures
            final(self)@ == leave(old(self)@, key@, id),
    {
        let mut bucket = self.ids(key);
        discard(&mut bucket, id);
        if bucket.len() == 0 {
            self.buckets.remove(key);
        } else {
            self.buckets.insert(key.to_owned(), bucket);
        }
        assert(self@ =~= leave(old(self)@, key@, id));
    }
}

/// Buckets of identifiers, each under a number.
pub struct NumIndex {
    buckets: HashMap<i64, Vec<u64>>,
}

impl View for NumIndex {
    type V = Map<i64, Seq<u64>>;

    closed spec fn view(&self) -> Map<i64, Seq<u64>> {
        Map::new(|k: i64| self.buckets@.contains_key(k), |k: i64| self.buckets@[k]@)
    }
}

impl NumIndex {
    /// An index without buckets.
    pub fn new() -> (r: NumIndex)
        ensures
            r@ == Map::<i64, Seq<u64>>::empty(),
    {
        let r = NumIndex { buckets: HashMap::new() };
        assert(r@ =~= Map::<i64, Seq<u64>>::empty());
        r
    }

    /// The identifiers filed under `key`.
    pub fn ids(&self, key: i64) -> (r: Vec<u64>)
        ensures
            r@ == ids_under(self@, key),
    {
        match self.buckets.get(&key) {
            Some(bucket) => clone_ids(bucket),
            None => Vec::new(),
        }
    }

    /// Files `id` under `key`, behind what stands there.
    pub fn enter(&mut self, key: i64, id: u64)
        ensures
            final(self)@ == enter(old(self)@, key, id),
    {
        let mut bucket = match self.buckets.remove(&key) {
            Some(bucket) => bucket,
            None => Vec::new(),
        };
        bucket.push(id);
        self.buckets.insert(key, bucket);
        assert(self@ =~= enter(old(self)@, key, id));
    }

    /// Takes `id` from under `key`.
    pub fn leave(&mut self, key: i64, id: u64)
        ensures
            final(self)@ == leave(old(self)@, key, id),
    {
        match self.buckets.remove(&key) {
            Some(mut bucket) => {
                discard(&mut bucket, id);
                if bucket.len() > 0 {
                    self.buckets.insert(key, bucket);
                }
            },
            None => {},
        }
        assert(self@ =~= leave(old(self)@, key, id));
    }
}

/// Buckets of identifiers, each under a value: one bucket for the empty
/// value and one for each boolean, and an index each for numbers and texts.
pub struct ValueIndex {
    nothing: Vec<u64>,
    falses: Vec<u64>,
    trues: Vec<u64>,
    nums: NumIndex,
    texts: TextIndex,
}

impl View for ValueIndex {
    type V = Map<ValView, Seq<u64>>;

    closed spec fn view(&self) -> Map<ValView, Seq<u64>> {
        Map::new(
            |v: ValView|
                match v {
                    ValView::Nothing => self.nothing@.len() > 0,
                    ValView::Num(x) => self.nums@.contains_key(x),
                    ValView::Txt(t) => self.texts@.contains_key(t),
                    ValView::Bool(b) => if b {
                        self.trues@.len() > 0
                    } else {
                        self.falses@.len() > 0
                    },
                },
            |v: ValView|
                match v {
                    ValView::Nothing => self.nothing@,
                    ValView::Num(x) => self.nums@[x],
                    ValView::Txt(t) => self.texts@[t],
                    ValView::Bool(b) => if b {
                        self.trues@
                    } else {
                        self.falses@
                    },
                },
        )
    }
}

impl ValueIndex {
    /// An index without buckets.
    pub fn new() -> (r: ValueIndex)
        ensures
            r@ == Map::<ValView, Seq<u64>>::empty(),
    {
        let r = ValueIndex {
            nothing: Vec::new(),
            falses: Vec::new(),
            trues: Vec::new(),
            nums: NumIndex::new(),
            texts: TextIndex::new(),
        };
        assert(r@ =~= Map::<ValView, Seq<u64>>::empty());
        r
    }

    /// The identifiers filed under `key`.
    pub fn ids(&self, key: &Val) -> (r: Vec<u64>)
        ensures
            r@ == ids_under(self@, key@),
    {
        let r = match key {
            Val::Nothing => clone_ids(&self.nothing),
            Val::Num(x) => self.nums.ids(*x),
            Val::Txt(t) => self.texts.ids(t.as_str()),
            Val::Bool(b) => if *b {
                clone_ids(&self.trues)
            } else {
                clone_ids(&self.falses)
            },
        };
        assert(r@ =~= ids_under(self@, key@));
        r
    }

    /// Files `id` under `key`, behind what stands there.
    pub fn enter(&mut self, key: &Val, id: u64)
        ensures
            final(self)@ == enter(old(self)@, key@, id),
    {
        match key {
            Val::Nothing => {
                self.nothing.push(id);
            },
            Val::Num(x) => {
                self.nums.enter(*x, id);
            },
            Val::Txt(t) => {
                self.texts.enter(t.as_str(), id);
            },
            Val::Bool(b) => {
                if *b {
                    self.trues.push(id);
                } else {
                    self.falses.push(id);
                }
            },
        }
        assert(self@ =~~= enter(old(self)@, key@, id));
    }

    /// Takes `id` from under `key`.
    pub fn leave(&mut self, key: &Val, id: u64)
        ensures
            final(self)@ == leave(old(self)@, key@, id),
    {
        match key {
            Val::Nothing => {
                discard(&mut self.nothing, id);
            },
            Val::Num(x) => {
                self.nums.leave(*x, id);
            },
            Val::Txt(t) => {
                self.texts.leave(t.as_str(), id);
            },
            Val::Bool(b) => {
                if *b {
                    discard(&mut self.trues, id);
                } else {
                    discard(&mut self.falses, id);
                }
            },
        }
        assert(self@ =~= leave(old(self)@, key@, id));
    }
}

} // verus!
