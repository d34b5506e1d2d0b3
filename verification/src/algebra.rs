//! Set operations on result lists: union, intersection and symmetric
//! difference, each keeping the order of its arguments.

use vstd::laws_eq::obeys_view_eq;
use vstd::pervasive::cloned;
use vstd::prelude::*;
use crate::value::Val;

verus! {

/// `a`, then each element of `b` that did not stand before it, in the order of `b`.
pub open spec fn union_of<A>(a: Seq<A>, b: Seq<A>) -> Seq<A>
    decreases b.len(),
{
    if b.len() == 0 {
        a
    } else if union_of(a, b.drop_last()).contains(b.last()) {
        union_of(a, b.drop_last())
    } else {
        union_of(a, b.drop_last()).push(b.last())
    }
}

/// The elements of `a` that `b` has, or, with `shared` false, those that
/// `b` lacks; in the order of `a`, as often as `a` has them.
pub open spec fn sift<A>(a: Seq<A>, b: Seq<A>, shared: bool) -> Seq<A>
    decreases a.len(),
{
    if a.len() == 0 {
        a
    } else if b.contains(a.last()) == shared {
        sift(a.drop_last(), b, shared).push(a.last())
    } else {
        sift(a.drop_last(), b, shared)
    }
}

/// The elements of `a` that `b` has too, in the order of `a`.
pub open spec fn intersection_of<A>(a: Seq<A>, b: Seq<A>) -> Seq<A> {
    sift(a, b, true)
}

/// The elements that only `a` has, in the order of `a`, then those that
/// only `b` has, in the order of `b`.
pub open spec fn difference_of<A>(a: Seq<A>, b: Seq<A>) -> Seq<A> {
    sift(a, b, false) + sift(b, a, false)
}

/// `s` without repetitions: of each element the first occurrence, in order.
pub open spec fn distinct<A>(s: Seq<A>) -> Seq<A>
    decreases s.len(),
{
    if s.len() == 0 {
        s
    } else if distinct(s.drop_last()).contains(s.last()) {
        distinct(s.drop_last())
    } else {
        distinct(s.drop_last()).push(s.last())
    }
}

/// What a list holds that ends with `x`.
proof fn lemma_push_has<A>(s: Seq<A>, x: A)
    ensures
        forall|y: A| #[trigger] s.push(x).contains(y) <==> (s.contains(y) || y == x),
{
    let r = s.push(x);
    assert forall|y: A| #[trigger] r.contains(y) <==> (s.contains(y) || y == x) by {
        if r.contains(y) {
            let i = choose|i: int| 0 <= i < r.len() && r[i] == y;
            if i < s.len() {
                assert(s[i] == y);
            }
        }
        if s.contains(y) {
            let i = choose|i: int| 0 <= i < s.len() && s[i] == y;
            assert(r[i] == y);
        }
        if y == x {
            assert(r[r.len() - 1] == y);
        }
    }
}

/// What a list holds, by its last element and the rest.
proof fn lemma_last_has<A>(s: Seq<A>)
    requires
        s.len() > 0,
    ensures
        forall|y: A| #[trigger] s.contains(y) <==> (s.drop_last().contains(y) || y == s.last()),
{
    assert(s =~= s.drop_last().push(s.last()));
    lemma_push_has(s.drop_last(), s.last());
}

/// What a sifted list holds.
pub proof fn lemma_sift_has<A>(a: Seq<A>, b: Seq<A>, shared: bool)
    ensures
        forall|x: A| #[trigger]
            sift(a, b, shared).contains(x) <==> a.contains(x) && b.contains(x) == shared,
    decreases a.len(),
{
    if a.len() > 0 {
        lemma_sift_has(a.drop_last(), b, shared);
        lemma_last_has(a);
        lemma_push_has(sift(a.drop_last(), b, shared), a.last());
    }
}

/// What a union holds, and how it starts.
pub proof fn lemma_union_has<A>(a: Seq<A>, b: Seq<A>)
    ensures
        forall|x: A| #[trigger] union_of(a, b).contains(x) <==> a.contains(x) || b.contains(x),
        union_of(a, b).len() >= a.len(),
        union_of(a, b).subrange(0, a.len() as int) == a,
    decreases b.len(),
{
    if b.len() > 0 {
        lemma_union_has(a, b.drop_last());
        lemma_last_has(b);
        let u = union_of(a, b.drop_last());
        lemma_push_has(u, b.last());
        assert(union_of(a, b).subrange(0, a.len() as int) =~= u.subrange(0, a.len() as int));
    } else {
        assert(a.subrange(0, a.len() as int) =~= a);
    }
}

/// The elements that two lists share are the same whichever list comes first.
pub proof fn lemma_intersection_commutes<A>(a: Seq<A>, b: Seq<A>)
    ensures
        intersection_of(a, b).to_set() == intersection_of(b, a).to_set(),
{
    lemma_sift_has(a, b, true);
    lemma_sift_has(b, a, true);
    assert(intersection_of(a, b).to_set() =~= intersection_of(b, a).to_set());
}

/// What a concatenation holds.
proof fn lemma_concat_has<A>(s: Seq<A>, t: Seq<A>)
    ensures
        forall|y: A| #[trigger] (s + t).contains(y) <==> (s.contains(y) || t.contains(y)),
{
    let r = s + t;
    assert forall|y: A| #[trigger] r.contains(y) <==> (s.contains(y) || t.contains(y)) by {
        if r.contains(y) {
            let i = choose|i: int| 0 <= i < r.len() && r[i] == y;
            if i < s.len() {
                assert(s[i] == y);
            } else {
                assert(t[i - s.len()] == y);
            }
        }
        if s.contains(y) {
            let i = choose|i: int| 0 <= i < s.len() && s[i] == y;
            assert(r[i] == y);
        }
        if t.contains(y) {
            let i = choose|i: int| 0 <= i < t.len() && t[i] == y;
            assert(r[s.len() + i] == y);
        }
    }
}

/// What a symmetric difference holds: what exactly one of the lists has.
pub proof fn lemma_difference_has<A>(a: Seq<A>, b: Seq<A>)
    ensures
        forall|x: A| #[trigger]
            difference_of(a, b).contains(x) <==> (a.contains(x) != b.contains(x)),
{
    lemma_sift_has(a, b, false);
    lemma_sift_has(b, a, false);
    lemma_concat_has(sift(a, b, false), sift(b, a, false));
}

/// The symmetric difference holds the same elements whichever list comes first.
pub proof fn lemma_difference_commutes<A>(a: Seq<A>, b: Seq<A>)
    ensures
        difference_of(a, b).to_set() == difference_of(b, a).to_set(),
{
    lemma_difference_has(a, b);
    lemma_difference_has(b, a);
    assert(difference_of(a, b).to_set() =~= difference_of(b, a).to_set());
}

/// The union of a list with itself is the list.
pub proof fn lemma_union_with_itself<A>(a: Seq<A>)
    ensures
        union_of(a, a) == a,
{
    lemma_union_absorbs(a, a);
}

/// A list takes nothing from a list whose elements it has.
proof fn lemma_union_absorbs<A>(a: Seq<A>, b: Seq<A>)
    requires
        forall|i: int| 0 <= i < b.len() ==> a.contains(#[trigger] b[i]),
    ensures
        union_of(a, b) == a,
    decreases b.len(),
{
    if b.len() > 0 {
        assert forall|i: int| 0 <= i < b.drop_last().len() implies a.contains(
            #[trigger] b.drop_last()[i],
        ) by {
            assert(b.drop_last()[i] == b[i]);
        }
        lemma_union_absorbs(a, b.drop_last());
        assert(a.contains(b[b.len() - 1]));
    }
}

/// The union of nothing with a list is the list without repetitions.
pub proof fn lemma_union_of_nothing<A>(a: Seq<A>)
    ensures
        union_of(Seq::empty(), a) == distinct(a),
    decreases a.len(),
{
    if a.len() > 0 {
        lemma_union_of_nothing(a.drop_last());
    }
}

/// What `distinct` keeps: every element, once.
pub proof fn lemma_distinct<A>(s: Seq<A>)
    ensures
        distinct(s).no_duplicates(),
        forall|x: A| #[trigger] distinct(s).contains(x) <==> s.contains(x),
        s.no_duplicates() ==> distinct(s) == s,
    decreases s.len(),
{
    if s.len() > 0 {
        let init = s.drop_last();
        lemma_distinct(init);
        lemma_last_has(s);
        lemma_push_has(distinct(init), s.last());
        if s.no_duplicates() {
            assert(init.no_duplicates());
            assert(!init.contains(s.last())) by {
                if init.contains(s.last()) {
                    let i = choose|i: int| 0 <= i < init.len() && init[i] == s.last();
                    assert(s[i] == s[s.len() - 1]);
                }
            }
            assert(distinct(s) =~= s);
        }
    }
}

/// The union of a list without repetitions with itself is that list, and is
/// the list without repetitions.
pub proof fn lemma_union_idempotent<A>(a: Seq<A>)
    requires
        a.no_duplicates(),
    ensures
        union_of(a, a) == distinct(a),
{
    lemma_union_with_itself(a);
    lemma_distinct(a);
}

/// What each of the elements stands for.
pub open spec fn keys<T: View>(v: Seq<T>) -> Seq<T::V> {
    Seq::new(v.len(), |i: int| v[i]@)
}

/// A type whose `==` compares what the values stand for, and whose clones
/// stand for what the values cloned stand for.
pub open spec fn faithful<T: PartialEq + Clone + View>() -> bool {
    &&& obeys_view_eq::<T>()
    &&& forall|x: T, y: T| #[trigger] cloned(x, y) ==> x@ == y@
}

/// Values are faithful.
pub proof fn lemma_val_faithful()
    ensures
        faithful::<Val>(),
{
    reveal(obeys_view_eq);
}

/// Identifiers are faithful.
pub proof fn lemma_id_faithful()
    ensures
        faithful::<u64>(),
{
    reveal(obeys_view_eq);
}

/// Whether `v` has an element equal to `x`.
pub fn has_element<T: PartialEq + Clone + View>(v: &Vec<T>, x: &T) -> (found: bool)
    requires
        faithful::<T>(),
    ensures
        found == keys(v@).contains(x@),
{
    let mut i: usize = 0;
    while i < v.len()
        invariant
            i <= v.len(),
            faithful::<T>(),
            forall|j: int| 0 <= j < i ==> keys(v@)[j] != x@,
        decreases v.len() - i,
    {
        proof {
            reveal(obeys_view_eq);
        }
        if v[i] == *x {
            assert(keys(v@)[i as int] == x@);
            return true;
        }
        i += 1;
    }
    false
}

/// Set operations on result lists.
pub trait QueryingAriths: Sized {
    /// What an element of the list stands for.
    type Item;

    /// What the elements of the list stand for.
    spec fn items(&self) -> Seq<Self::Item>;

    /// Whether the elements can be compared and copied.
    spec fn usable() -> bool;

    /// All of `self`, then the elements of `other` that did not stand
    /// before, in the order of `other`.
    fn union(&self, other: &Self) -> (r: Self)
        requires
            Self::usable(),
        ensures
            r.items() == union_of(self.items(), other.items()),
    ;

    /// The elements of `self` that `other` has too, in the order of `self`.
    fn intersection(&self, other: &Self) -> (r: Self)
        requires
            Self::usable(),
        ensures
            r.items() == intersection_of(self.items(), other.items()),
    ;

    /// The elements that only `self` has, in its order, then those that
    /// only `other` has, in its order.
    fn difference(&self, other: &Self) -> (r: Self)
        requires
            Self::usable(),
        ensures
            r.items() == difference_of(self.items(), other.items()),
    ;
}

/// Appends to `out` copies of the elements of `a` that `b` has, or, with
/// `shared` false, of those that `b` lacks.
fn sift_into<T: PartialEq + Clone + View>(out: &mut Vec<T>, a: &Vec<T>, b: &Vec<T>, shared: bool)
    requires
        faithful::<T>(),
    ensures
        keys(final(out)@) == keys(old(out)@) + sift(keys(a@), keys(b@), shared),
{
    let ghost head = keys(out@);
    let mut i: usize = 0;
    assert(keys(a@).subrange(0, 0) =~= Seq::<T::V>::empty());
    assert(keys(out@) =~= head + sift(keys(a@).subrange(0, 0), keys(b@), shared));
    while i < a.len()
        invariant
            i <= a.len(),
            faithful::<T>(),
            keys(out@) == head + sift(keys(a@).subrange(0, i as int), keys(b@), shared),
        decreases a.len() - i,
    {
        let ghost before = keys(a@).subrange(0, i as int);
        let ghost kept = keys(out@);
        if has_element(b, &a[i]) == shared {
            let x = a[i].clone();
            assert(cloned(a@[i as int], x));
            out.push(x);
            assert(keys(out@) =~= kept.push(a@[i as int]@));
        }
        i += 1;
        proof {
            let now = keys(a@).subrange(0, i as int);
            assert(now.drop_last() =~= before);
            assert(now.last() == a@[i - 1]@);
            assert(keys(out@) =~= head + sift(now, keys(b@), shared));
        }
    }
    assert(keys(a@).subrange(0, i as int) =~= keys(a@));
}

impl<T: PartialEq + Clone + View> QueryingAriths for Vec<T> {
    type Item = T::V;

    open spec fn items(&self) -> Seq<T::V> {
        keys(self@)
    }

    open spec fn usable() -> bool {
        faithful::<T>()
    }

    fn union(&self, other: &Self) -> (r: Self) {
        let mut out: Vec<T> = Vec::new();
        let mut i: usize = 0;
        while i < self.len()
            invariant
                i <= self.len(),
                faithful::<T>(),
                keys(out@) == keys(self@).subrange(0, i as int),
            decreases self.len() - i,
        {
            let ghost kept = keys(out@);
            let x = self[i].clone();
            assert(cloned(self@[i as int], x));
            out.push(x);
            assert(keys(out@) =~= kept.push(self@[i as int]@));
            i += 1;
            assert(keys(out@) =~= keys(self@).subrange(0, i as int));
        }
        assert(keys(self@).subrange(0, i as int) =~= keys(self@));
        let mut j: usize = 0;
        assert(keys(other@).subrange(0, 0) =~= Seq::<T::V>::empty());
        while j < other.len()
            invariant
                j <= other.len(),
                faithful::<T>(),
                keys(out@) == union_of(keys(self@), keys(other@).subrange(0, j as int)),
            decreases other.len() - j,
        {
            let ghost before = keys(other@).subrange(0, j as int);
            let ghost kept = keys(out@);
            if !has_element(&out, &other[j]) {
                let x = other[j].clone();
                assert(cloned(other@[j as int], x));
                out.push(x);
                assert(keys(out@) =~= kept.push(other@[j as int]@));
            }
            j += 1;
            proof {
                let now = keys(other@).subrange(0, j as int);
                assert(now.drop_last() =~= before);
                assert(now.last() == other@[j - 1]@);
            }
        }
        assert(keys(other@).subrange(0, j as int) =~= keys(other@));
        out
    }

    fn intersection(&self, other: &Self) -> (r: Self) {
        let mut out: Vec<T> = Vec::new();
        sift_into(&mut out, self, other, true);
        assert(keys(out@) =~= intersection_of(keys(self@), keys(other@)));
        out
    }

    fn difference(&self, other: &Self) -> (r: Self) {
        let mut out: Vec<T> = Vec::new();
        sift_into(&mut out, self, other, false);
        let ghost first = keys(out@);
        sift_into(&mut out, other, self, false);
        assert(first =~= sift(keys(self@), keys(other@), false));
        out
    }
}

} // verus!
