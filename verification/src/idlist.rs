//! Lists of identifiers: the buckets of the indices, and the backlinks of a node.

use vstd::prelude::*;

verus! {

/// `s` with every occurrence of `id` taken out, the rest in their order.
pub open spec fn without(s: Seq<u64>, id: u64) -> Seq<u64>
    decreases s.len(),
{
    if s.len() == 0 {
        s
    } else if s.last() == id {
        without(s.drop_last(), id)
    } else {
        without(s.drop_last(), id).push(s.last())
    }
}

/// `s` with `id` at its end, unless `s` has it already.
pub open spec fn with_id(s: Seq<u64>, id: u64) -> Seq<u64> {
    if s.contains(id) {
        s
    } else {
        s.push(id)
    }
}

/// What `without` keeps and what it drops.
pub proof fn lemma_without(s: Seq<u64>, id: u64)
    ensures
        !without(s, id).contains(id),
        forall|x: u64| x != id ==> (#[trigger] without(s, id).contains(x) <==> s.contains(x)),
        without(s, id).len() <= s.len(),
        s.no_duplicates() ==> without(s, id).no_duplicates(),
        !s.contains(id) ==> without(s, id) == s,
    decreases s.len(),
{
    if s.len() == 0 {
    } else {
        let init = s.drop_last();
        let last = s.last();
        lemma_without(init, id);
        let w = without(init, id);
        assert(s =~= init.push(last));
        assert forall|x: u64| s.contains(x) <==> (init.contains(x) || x == last) by {
            if s.contains(x) {
                let i = choose|i: int| 0 <= i < s.len() && s[i] == x;
                if i < s.len() - 1 {
                    assert(init[i] == x);
                }
            }
            if init.contains(x) {
                let i = choose|i: int| 0 <= i < init.len() && init[i] == x;
                assert(s[i] == x);
            }
            if x == last {
                assert(s[s.len() - 1] == x);
            }
        }
        if last == id {
        } else {
            let r = w.push(last);
            assert forall|x: u64| r.contains(x) <==> (w.contains(x) || x == last) by {
                if r.contains(x) {
                    let i = choose|i: int| 0 <= i < r.len() && r[i] == x;
                    if i < w.len() {
                        assert(w[i] == x);
                    }
                }
                if w.contains(x) {
                    let i = choose|i: int| 0 <= i < w.len() && w[i] == x;
                    assert(r[i] == x);
                }
                if x == last {
                    assert(r[r.len() - 1] == x);
                }
            }
            if s.no_duplicates() {
                assert(init.no_duplicates());
                assert(!init.contains(last)) by {
                    if init.contains(last) {
                        let i = choose|i: int| 0 <= i < init.len() && init[i] == last;
                        assert(s[i] == s[s.len() - 1]);
                    }
                }
                assert(!w.contains(last));
                lemma_push_contains(w, last);
            }
            if !s.contains(id) {
                assert(r =~= s);
            }
        }
        if !s.contains(id) && last == id {
            assert(s[s.len() - 1] == id);
        }
    }
}

/// `with_id` adds at most `id`, and keeps a list free of repetitions so.
pub proof fn lemma_with_id(s: Seq<u64>, id: u64)
    ensures
        with_id(s, id).contains(id),
        forall|x: u64| x != id ==> (#[trigger] with_id(s, id).contains(x) <==> s.contains(x)),
        s.no_duplicates() ==> with_id(s, id).no_duplicates(),
{
    lemma_push_contains(s, id);
}

/// What a list holds after a push.
pub proof fn lemma_push_contains(s: Seq<u64>, id: u64)
    ensures
        forall|x: u64| #[trigger] s.push(id).contains(x) <==> (s.contains(x) || x == id),
        s.no_duplicates() && !s.contains(id) ==> s.push(id).no_duplicates(),
{
    let r = s.push(id);
    assert forall|x: u64| #[trigger] r.contains(x) <==> (s.contains(x) || x == id) by {
        if r.contains(x) {
            let i = choose|i: int| 0 <= i < r.len() && r[i] == x;
            if i < s.len() {
                assert(s[i] == x);
            }
        }
        if s.contains(x) {
            let i = choose|i: int| 0 <= i < s.len() && s[i] == x;
            assert(r[i] == x);
        }
        if x == id {
            assert(r[r.len() - 1] == x);
        }
    }
}

/// Whether `id` occurs in `v`.
pub fn holds(v: &Vec<u64>, id: u64) -> (found: bool)
    ensures
        found == v@.contains(id),
{
    let mut i: usize = 0;
    while i < v.len()
        invariant
            i <= v.len(),
            forall|j: int| 0 <= j < i ==> v@[j] != id,
        decreases v.len() - i,
    {
        if v[i] == id {
            return true;
        }
        i += 1;
    }
    false
}

/// Takes every occurrence of `id` out of `v`.
pub fn discard(v: &mut Vec<u64>, id: u64)
    ensures
        final(v)@ == without(old(v)@, id),
{
    let mut out: Vec<u64> = Vec::new();
    let mut i: usize = 0;
    while i < v.len()
        invariant
            i <= v.len(),
            *v == *old(v),
            out@ == without(v@.subrange(0, i as int), id),
        decreases v.len() - i,
    {
        let ghost before = v@.subrange(0, i as int);
        if v[i] != id {
            out.push(v[i]);
        }
        i += 1;
        assert(v@.subrange(0, i as int).drop_last() =~= before);
    }
    assert(v@.subrange(0, i as int) =~= v@);
    *v = out;
}

/// Puts `id` at the end of `v`, unless `v` has it already.
pub fn add_id(v: &mut Vec<u64>, id: u64)
    ensures
        final(v)@ == with_id(old(v)@, id),
{
    if !holds(v, id) {
        v.push(id);
    }
}

} // verus!
