//! The shape of a secondary index: for each key the identifiers filed under
//! it, in the order in which they were filed.

use vstd::prelude::*;
use crate::idlist::{lemma_push_contains, lemma_without, without};

verus! {

/// The identifiers filed under `key`; none where the index lacks the key.
pub open spec fn ids_under<K>(index: Map<K, Seq<u64>>, key: K) -> Seq<u64> {
    if index.contains_key(key) {
        index[key]
    } else {
        Seq::empty()
    }
}

/// The index after `id` was filed under `key`, behind what stood there.
pub open spec fn enter<K>(index: Map<K, Seq<u64>>, key: K, id: u64) -> Map<K, Seq<u64>> {
    index.insert(key, ids_under(index, key).push(id))
}

/// The index after `id` was taken from under `key`. A key with nothing left
/// under it leaves the index.
pub open spec fn leave<K>(index: Map<K, Seq<u64>>, key: K, id: u64) -> Map<K, Seq<u64>> {
    if without(ids_under(index, key), id).len() == 0 {
        index.remove(key)
    } else {
        index.insert(key, without(ids_under(index, key), id))
    }
}

/// The index files exactly the identifiers of `keys`, each once and under
/// its key, and holds no key with nothing under it.
pub open spec fn files<K>(index: Map<K, Seq<u64>>, keys: Map<u64, K>) -> bool {
    &&& forall|k: K| #[trigger]
        index.contains_key(k) ==> index[k].len() > 0 && index[k].no_duplicates()
    &&& forall|k: K, id: u64|
        index.contains_key(k) && #[trigger] index[k].contains(id) ==> keys.contains_key(id)
            && keys[id] == k
    &&& forall|id: u64| #[trigger]
        keys.contains_key(id) ==> index.contains_key(keys[id]) && index[keys[id]].contains(id)
}

/// Under a key stand exactly the identifiers that have this key.
pub proof fn lemma_files_exact<K>(index: Map<K, Seq<u64>>, keys: Map<u64, K>, key: K, id: u64)
    requires
        files(index, keys),
    ensures
        ids_under(index, key).contains(id) <==> keys.contains_key(id) && keys[id] == key,
        ids_under(index, key).no_duplicates(),
{
}

/// Filing a new identifier keeps the index exact.
pub proof fn lemma_enter_files<K>(index: Map<K, Seq<u64>>, keys: Map<u64, K>, key: K, id: u64)
    requires
        files(index, keys),
        !keys.contains_key(id),
    ensures
        files(enter(index, key, id), keys.insert(id, key)),
{
    let old_ids = ids_under(index, key);
    let index2 = enter(index, key, id);
    let keys2 = keys.insert(id, key);
    lemma_push_contains(old_ids, id);
    assert(!old_ids.contains(id));
    assert forall|k: K| #[trigger] index2.contains_key(k) implies index2[k].len() > 0
        && index2[k].no_duplicates() by {
        if k != key {
            assert(index.contains_key(k));
        }
    }
    assert forall|k: K, x: u64|
        index2.contains_key(k) && #[trigger] index2[k].contains(x) implies keys2.contains_key(x)
        && keys2[x] == k by {
        if k == key {
            if x != id {
                assert(old_ids.contains(x));
                assert(index.contains_key(k) && index[k].contains(x));
            }
        } else {
            assert(index.contains_key(k) && index[k].contains(x));
        }
    }
    assert forall|x: u64| #[trigger] keys2.contains_key(x) implies index2.contains_key(keys2[x])
        && index2[keys2[x]].contains(x) by {
        if x != id {
            assert(keys.contains_key(x));
            if keys[x] == key {
                assert(old_ids.contains(x));
            }
        }
    }
}

/// Taking a filed identifier out keeps the index exact.
pub proof fn lemma_leave_files<K>(index: Map<K, Seq<u64>>, keys: Map<u64, K>, id: u64)
    requires
        files(index, keys),
        keys.contains_key(id),
    ensures
        files(leave(index, keys[id], id), keys.remove(id)),
{
    let key = keys[id];
    let old_ids = ids_under(index, key);
    let rest = without(old_ids, id);
    let index2 = leave(index, key, id);
    let keys2 = keys.remove(id);
    lemma_without(old_ids, id);
    assert(index.contains_key(key));
    assert forall|k: K| #[trigger] index2.contains_key(k) implies index2[k].len() > 0
        && index2[k].no_duplicates() by {
        if k != key {
            assert(index.contains_key(k));
        }
    }
    assert forall|k: K, x: u64|
        index2.contains_key(k) && #[trigger] index2[k].contains(x) implies keys2.contains_key(x)
        && keys2[x] == k by {
        if k == key {
            assert(x != id);
            assert(old_ids.contains(x));
            assert(index[k].contains(x));
        } else {
            assert(index.contains_key(k) && index[k].contains(x));
            assert(x != id);
        }
    }
    assert forall|x: u64| #[trigger] keys2.contains_key(x) implies index2.contains_key(keys2[x])
        && index2[keys2[x]].contains(x) by {
        assert(keys.contains_key(x));
        if keys[x] == key {
            assert(old_ids.contains(x));
            assert(rest.contains(x));
            assert(rest.len() > 0);
        }
    }
}

} // verus!
