//! Putting identifiers in order, upwards or downwards, and keeping the first few.

use vstd::prelude::*;
use vstd::relations::{sorted_by, total_ordering};
use vstd::seq_lib::{group_to_multiset_ensures, lemma_multiset_commutative, lemma_sorted_unique};

verus! {

/// The direction of a bounded selection.
#[derive(Clone, Copy, Debug, PartialEq, Eq, Structural)]
pub enum Orders {
    /// Smallest identifiers first.
    First,
    /// Largest identifiers first.
    Last,
}

/// `a` may stand before `b` where the smallest comes first.
pub open spec fn upwards() -> spec_fn(u64, u64) -> bool {
    |a: u64, b: u64| a <= b
}

/// `a` may stand before `b` where the largest comes first.
pub open spec fn downwards() -> spec_fn(u64, u64) -> bool {
    |a: u64, b: u64| a >= b
}

impl Orders {
    /// Whether the first identifier may stand before the second in this direction.
    pub open spec fn rule(self) -> spec_fn(u64, u64) -> bool {
        match self {
            Orders::First => upwards(),
            Orders::Last => downwards(),
        }
    }

    /// Whether `a` may stand before `b` in this direction.
    pub fn admits(&self, a: u64, b: u64) -> (r: bool)
        ensures
            r == (self.rule())(a, b),
    {
        match self {
            Orders::First => a <= b,
            Orders::Last => a >= b,
        }
    }
}

/// Both directions order the identifiers totally.
pub proof fn lemma_rule_total(ordering: Orders)
    ensures
        total_ordering(ordering.rule()),
{
    let r = ordering.rule();
    assert(vstd::relations::reflexive(r));
    assert(vstd::relations::antisymmetric(r));
    assert(vstd::relations::transitive(r));
    assert(vstd::relations::strongly_connected(r));
}

/// `s` in the given direction: the same identifiers, as often as in `s`, each
/// before those it may stand before.
pub open spec fn ordered(s: Seq<u64>, ordering: Orders) -> Seq<u64> {
    s.sort_by(ordering.rule())
}

/// The first `n` of `s`, or all of `s` where it has fewer.
pub open spec fn first_n(s: Seq<u64>, n: int) -> Seq<u64> {
    if n <= 0 {
        Seq::empty()
    } else if n >= s.len() {
        s
    } else {
        s.subrange(0, n)
    }
}

/// What `ordered` returns is in order and holds what `s` holds.
pub proof fn lemma_ordered(s: Seq<u64>, ordering: Orders)
    ensures
        sorted_by(ordered(s, ordering), ordering.rule()),
        ordered(s, ordering).to_multiset() == s.to_multiset(),
        ordered(s, ordering).len() == s.len(),
        forall|x: u64| ordered(s, ordering).contains(x) <==> s.contains(x),
{
    broadcast use group_to_multiset_ensures;

    lemma_rule_total(ordering);
    s.lemma_sort_by_ensures(ordering.rule());
    vstd::seq_lib::to_multiset_len(s);
    vstd::seq_lib::to_multiset_len(ordered(s, ordering));
    assert forall|x: u64| ordered(s, ordering).contains(x) <==> s.contains(x) by {
        assert(ordered(s, ordering).to_multiset().count(x) == s.to_multiset().count(x));
    }
}

/// Merges two lists that are in order into one.
fn merge(left: &Vec<u64>, right: &Vec<u64>, ordering: Orders) -> (out: Vec<u64>)
    requires
        sorted_by(left@, ordering.rule()),
        sorted_by(right@, ordering.rule()),
        left.len() + right.len() <= usize::MAX,
    ensures
        sorted_by(out@, ordering.rule()),
        out@.to_multiset() == left@.to_multiset().add(right@.to_multiset()),
        out.len() == left.len() + right.len(),
{
    broadcast use group_to_multiset_ensures;
    broadcast use vstd::multiset::group_multiset_axioms;

    let mut out: Vec<u64> = Vec::new();
    let mut i: usize = 0;
    let mut j: usize = 0;
    let ghost rule = ordering.rule();
    proof {
        lemma_rule_total(ordering);
        assert(left@.subrange(0, 0) =~= Seq::<u64>::empty());
        assert(right@.subrange(0, 0) =~= Seq::<u64>::empty());
        assert(out@.to_multiset() =~= left@.subrange(0, 0).to_multiset().add(
            right@.subrange(0, 0).to_multiset(),
        ));
    }
    while i < left.len() || j < right.len()
        invariant
            i <= left.len(),
            j <= right.len(),
            out.len() == i + j,
            left.len() + right.len() <= usize::MAX,
            rule == ordering.rule(),
            total_ordering(rule),
            sorted_by(left@, rule),
            sorted_by(right@, rule),
            sorted_by(out@, rule),
            out@.to_multiset() == left@.subrange(0, i as int).to_multiset().add(
                right@.subrange(0, j as int).to_multiset(),
            ),
            forall|a: int, k: int| 0 <= a < out@.len() && i <= k < left@.len() ==> #[trigger] rule(out@[a], left@[k]),
            forall|a: int, k: int| 0 <= a < out@.len() && j <= k < right@.len() ==> #[trigger] rule(out@[a], right@[k]),
        decreases left.len() - i + (right.len() - j),
    {
        let ghost before = out@;
        let take_left = if i >= left.len() {
            false
        } else if j >= right.len() {
            true
        } else {
            ordering.admits(left[i], right[j])
        };
        if take_left {
            let x = left[i];
            out.push(x);
            proof {
                assert(left@.subrange(0, i + 1) =~= left@.subrange(0, i as int).push(x));
                vstd::seq_lib::to_multiset_build(before, x);
                vstd::seq_lib::to_multiset_build(left@.subrange(0, i as int), x);
                assert(out@ == before.push(x));
                assert(out@.to_multiset() =~= left@.subrange(0, i + 1).to_multiset().add(
                    right@.subrange(0, j as int).to_multiset(),
                ));
                assert forall|a: int, k: int| 0 <= a < out@.len() && i + 1 <= k < left@.len()
                    implies #[trigger] rule(out@[a], left@[k]) by {
                    if a == before.len() {
                        assert(rule(left@[i as int], left@[k]));
                    } else {
                        assert(rule(before[a], left@[k]));
                    }
                }
                assert forall|a: int, k: int| 0 <= a < out@.len() && j <= k < right@.len()
                    implies #[trigger] rule(out@[a], right@[k]) by {
                    if a == before.len() {
                        assert(rule(left@[i as int], right@[j as int]));
                        if k > j {
                            assert(rule(right@[j as int], right@[k]));
                        }
                    } else {
                        assert(rule(before[a], right@[k]));
                    }
                }
                assert forall|a: int, b: int| 0 <= a < b < out@.len() implies #[trigger] rule(
                    out@[a],
                    out@[b],
                ) by {
                    if b == before.len() {
                        assert(rule(before[a], left@[i as int]));
                    } else {
                        assert(rule(before[a], before[b]));
                    }
                }
            }
            i += 1;
        } else {
            let x = right[j];
            out.push(x);
            proof {
                assert(right@.subrange(0, j + 1) =~= right@.subrange(0, j as int).push(x));
                vstd::seq_lib::to_multiset_build(before, x);
                vstd::seq_lib::to_multiset_build(right@.subrange(0, j as int), x);
                assert(out@ == before.push(x));
                assert(out@.to_multiset() =~= left@.subrange(0, i as int).to_multiset().add(
                    right@.subrange(0, j + 1).to_multiset(),
                ));
                assert forall|a: int, k: int| 0 <= a < out@.len() && j + 1 <= k < right@.len()
                    implies #[trigger] rule(out@[a], right@[k]) by {
                    if a == before.len() {
                        assert(rule(right@[j as int], right@[k]));
                    } else {
                        assert(rule(before[a], right@[k]));
                    }
                }
                assert forall|a: int, k: int| 0 <= a < out@.len() && i <= k < left@.len()
                    implies #[trigger] rule(out@[a], left@[k]) by {
                    if a == before.len() {
                        assert(!rule(left@[i as int], right@[j as int]));
                        assert(rule(right@[j as int], left@[i as int]));
                        if k > i {
                            assert(rule(left@[i as int], left@[k]));
                        }
                    } else {
                        assert(rule(before[a], left@[k]));
                    }
                }
                assert forall|a: int, b: int| 0 <= a < b < out@.len() implies #[trigger] rule(
                    out@[a],
                    out@[b],
                ) by {
                    if b == before.len() {
                        assert(rule(before[a], right@[j as int]));
                    } else {
                        assert(rule(before[a], before[b]));
                    }
                }
            }
            j += 1;
        }
    }
    proof {
        assert(left@.subrange(0, i as int) =~= left@);
        assert(right@.subrange(0, j as int) =~= right@);
    }
    out
}

/// Puts `v[lo..hi]` in order: halves it, orders each half, merges the two.
fn sort_range(v: &Vec<u64>, lo: usize, hi: usize, ordering: Orders) -> (out: Vec<u64>)
    requires
        lo <= hi <= v.len(),
    ensures
        sorted_by(out@, ordering.rule()),
        out@.to_multiset() == v@.subrange(lo as int, hi as int).to_multiset(),
        out.len() == hi - lo,
    decreases hi - lo,
{
    broadcast use group_to_multiset_ensures;

    if hi - lo <= 1 {
        let mut out: Vec<u64> = Vec::new();
        if hi > lo {
            out.push(v[lo]);
        }
        assert(out@ =~= v@.subrange(lo as int, hi as int));
        out
    } else {
        let mid = lo + (hi - lo) / 2;
        let left = sort_range(v, lo, mid, ordering);
        let right = sort_range(v, mid, hi, ordering);
        let out = merge(&left, &right, ordering);
        proof {
            let a = v@.subrange(lo as int, mid as int);
            let b = v@.subrange(mid as int, hi as int);
            assert(a + b =~= v@.subrange(lo as int, hi as int));
            lemma_multiset_commutative(a, b);
        }
        out
    }
}

/// The identifiers of `v` in the given direction.
pub fn sort_ids(v: &Vec<u64>, ordering: Orders) -> (out: Vec<u64>)
    ensures
        out@ == ordered(v@, ordering),
{
    let out = sort_range(v, 0, v.len(), ordering);
    proof {
        assert(v@.subrange(0, v.len() as int) =~= v@);
        lemma_rule_total(ordering);
        v@.lemma_sort_by_ensures(ordering.rule());
        lemma_sorted_unique(out@, ordered(v@, ordering), ordering.rule());
    }
    out
}

/// The first `n` of `v`, or all of `v` where it has fewer.
pub fn keep_first(v: &Vec<u64>, n: usize) -> (out: Vec<u64>)
    ensures
        out@ == first_n(v@, n as int),
{
    let end = if n >= v.len() {
        v.len()
    } else {
        n
    };
    let mut out: Vec<u64> = Vec::new();
    let mut i: usize = 0;
    while i < end
        invariant
            i <= end <= v.len(),
            out@ == v@.subrange(0, i as int),
        decreases end - i,
    {
        out.push(v[i]);
        i += 1;
        assert(out@ =~= v@.subrange(0, i as int));
    }
    assert(out@ =~= first_n(v@, n as int));
    out
}

/// Putting a list without repetitions in order leaves it without repetitions.
pub proof fn lemma_ordered_distinct(s: Seq<u64>, ordering: Orders)
    requires
        s.no_duplicates(),
    ensures
        ordered(s, ordering).no_duplicates(),
{
    lemma_ordered(s, ordering);
    s.lemma_multiset_has_no_duplicates();
    ordered(s, ordering).lemma_multiset_has_no_duplicates_conv();
}

/// Two lists in order that hold the same identifiers, each once, are one list.
pub proof fn lemma_order_unique(a: Seq<u64>, b: Seq<u64>, ordering: Orders)
    requires
        sorted_by(a, ordering.rule()),
        sorted_by(b, ordering.rule()),
        a.no_duplicates(),
        b.no_duplicates(),
        forall|x: u64| a.contains(x) <==> b.contains(x),
    ensures
        a == b,
{
    broadcast use group_to_multiset_ensures;

    lemma_rule_total(ordering);
    a.lemma_multiset_has_no_duplicates();
    b.lemma_multiset_has_no_duplicates();
    assert forall|x: u64| a.to_multiset().count(x) == b.to_multiset().count(x) by {
        assert(a.contains(x) <==> b.contains(x));
    }
    assert(a.to_multiset() =~= b.to_multiset());
    lemma_sorted_unique(a, b, ordering.rule());
}

} // verus!
