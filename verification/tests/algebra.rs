use daze::algebra::QueryingAriths;
use daze::order::{keep_first, sort_ids, Orders};
use daze::value::Val;

#[test]
fn union_keeps_the_first_list_and_adds_what_is_new() {
    assert_eq!(vec![1u64, 2, 3].union(&vec![3, 4, 1, 5]), vec![1, 2, 3, 4, 5]);
    assert_eq!(vec![1u64, 1, 2].union(&vec![2, 3, 3]), vec![1, 1, 2, 3]);
    assert_eq!(Vec::<u64>::new().union(&vec![2, 1, 2, 1]), vec![2, 1]);
    assert_eq!(vec![7u64].union(&vec![]), vec![7]);
}

#[test]
fn union_with_itself_is_the_list() {
    let a = vec![3u64, 1, 2];
    assert_eq!(a.union(&a), a);
    let b = vec![1u64, 1];
    assert_eq!(b.union(&b), b);
}

#[test]
fn intersection_keeps_the_order_of_the_first_list() {
    assert_eq!(vec![4u64, 1, 3, 1].intersection(&vec![1, 2, 4]), vec![4, 1, 1]);
    assert_eq!(vec![1u64, 2].intersection(&vec![3]), Vec::<u64>::new());
    assert_eq!(Vec::<u64>::new().intersection(&vec![3]), Vec::<u64>::new());
}

#[test]
fn intersection_holds_the_same_whichever_comes_first() {
    let a = vec![5u64, 1, 2, 2, 9];
    let b = vec![2u64, 9, 7, 5, 5];
    let mut ab = a.intersection(&b);
    let mut ba = b.intersection(&a);
    ab.sort();
    ab.dedup();
    ba.sort();
    ba.dedup();
    assert_eq!(ab, ba);
    assert_eq!(ab, vec![2, 5, 9]);
}

#[test]
fn difference_is_what_only_one_list_has() {
    assert_eq!(vec![1u64, 2, 3, 2].difference(&vec![3, 4, 5, 4]), vec![1, 2, 2, 4, 5, 4]);
    assert_eq!(vec![1u64, 2].difference(&vec![2, 1]), Vec::<u64>::new());
    assert_eq!(Vec::<u64>::new().difference(&vec![1]), vec![1]);
}

#[test]
fn difference_holds_the_same_whichever_comes_first() {
    let a = vec![1u64, 2, 3];
    let b = vec![3u64, 4];
    let mut ab = a.difference(&b);
    let mut ba = b.difference(&a);
    assert_eq!(ab, vec![1, 2, 4]);
    assert_eq!(ba, vec![4, 1, 2]);
    ab.sort();
    ba.sort();
    assert_eq!(ab, ba);
}

#[test]
fn the_operations_work_on_values() {
    let a = vec![Val::Num(1), Val::Txt("x".to_string()), Val::Nothing];
    let b = vec![Val::Txt("x".to_string()), Val::Bool(true)];
    assert_eq!(
        a.union(&b),
        vec![Val::Num(1), Val::Txt("x".to_string()), Val::Nothing, Val::Bool(true)]
    );
    assert_eq!(a.intersection(&b), vec![Val::Txt("x".to_string())]);
    assert_eq!(a.difference(&b), vec![Val::Num(1), Val::Nothing, Val::Bool(true)]);
}

#[test]
fn sorting_goes_both_ways() {
    let v = vec![5u64, 1, 4, 1, u64::MAX, 0];
    assert_eq!(sort_ids(&v, Orders::First), vec![0, 1, 1, 4, 5, u64::MAX]);
    assert_eq!(sort_ids(&v, Orders::Last), vec![u64::MAX, 5, 4, 1, 1, 0]);
    assert_eq!(sort_ids(&vec![], Orders::First), Vec::<u64>::new());
    assert_eq!(sort_ids(&vec![3], Orders::Last), vec![3]);
    let many: Vec<u64> = (0..1000).map(|i| (i * 7919) % 1009).collect();
    let mut expected = many.clone();
    expected.sort();
    assert_eq!(sort_ids(&many, Orders::First), expected);
    expected.reverse();
    assert_eq!(sort_ids(&many, Orders::Last), expected);
}

#[test]
fn keep_first_stops_at_the_end() {
    let v = vec![1u64, 2, 3];
    assert_eq!(keep_first(&v, 0), Vec::<u64>::new());
    assert_eq!(keep_first(&v, 2), vec![1, 2]);
    assert_eq!(keep_first(&v, 3), vec![1, 2, 3]);
    assert_eq!(keep_first(&v, 4), vec![1, 2, 3]);
    assert_eq!(keep_first(&vec![], 4), Vec::<u64>::new());
}

#[test]
fn orders_admit_by_direction() {
    assert!(Orders::First.admits(1, 2));
    assert!(Orders::First.admits(2, 2));
    assert!(!Orders::First.admits(3, 2));
    assert!(Orders::Last.admits(3, 2));
    assert!(Orders::Last.admits(2, 2));
    assert!(!Orders::Last.admits(1, 2));
}
