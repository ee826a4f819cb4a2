use persistent::heap::Heap;
use persistent::heap::LeftistHeap;
use persistent::map::AlreadyPresent;
use persistent::map::FiniteMap;
use persistent::map::PairEntry;
use persistent::map::UnbalancedMap;
use persistent::set::SetOps;
use persistent::set::UnbalancedSet;
use persistent::tree::BinaryTree;
use persistent::tree::complete;
use std::rc::Rc;

#[test]
fn set_scenario_membership_and_sharing() {
    let t = UnbalancedSet::<u8>::empty().insert(2).insert(1).insert(3);
    assert!(t.member(&1));
    assert!(t.member(&2));
    assert!(t.member(&3));
    assert!(!t.member(&4));

    let before = Rc::strong_count(&t.0.0);
    let t2 = t.insert(2);
    assert!(Rc::ptr_eq(&t.0.0, &t2.0.0));
    assert_eq!(Rc::strong_count(&t.0.0), before + 1);
}

#[test]
fn bind_keeps_subtrees_shared() {
    let m = UnbalancedMap::<PairEntry<u8, u8>>::empty()
        .bind(2, 20)
        .bind(1, 10);
    let m2 = m.bind(3, 30);

    // binding a third key rebuilds only the search path: the subtree the
    // path does not touch is the same allocation as before
    let old_left = m.0.left().unwrap();
    let new_left = m2.0.left().unwrap();
    assert!(Rc::ptr_eq(&old_left, &new_left));
    assert_eq!(Some(&10), m2.lookup(&1));
    assert_eq!(Some(&30), m2.lookup(&3));
    assert_eq!(None, m.lookup(&3));
}

#[test]
fn bind_is_idempotent_for_bound_key() {
    let m = UnbalancedMap::<PairEntry<&str, u8>>::empty().bind("one", 1u8);
    let m2 = m.bind("one", 15);

    // the second bind neither overwrites nor copies: same value, same tree
    assert_eq!(Some(&1), m2.lookup(&"one"));
    assert!(Rc::ptr_eq(&m.0, &m2.0));
}

#[test]
fn map_insert_reports_duplicate() {
    let m = UnbalancedMap::<PairEntry<u8, u8>>::empty();
    let m1 = m.insert(PairEntry(1u8, 5u8)).unwrap_or_else(|_| panic!());
    let r = m1.insert(PairEntry(1u8, 7u8));
    assert!(matches!(r, Err(AlreadyPresent)));
    assert_eq!(Some(&5), m1.lookup(&1));
}

#[test]
fn heap_drains_in_sorted_order() {
    let mut h = LeftistHeap::<u8>::empty();
    for x in [5u8, 1, 4, 2, 3] {
        h = h.insert(x);
    }
    let mut drained: Vec<u8> = Vec::new();
    while let Some(m) = h.find_min() {
        drained.push(*m);
        h = h.delete_min();
    }
    assert_eq!(drained, vec![1, 2, 3, 4, 5]);
    assert!(h.is_empty());
}

#[test]
fn merge_takes_the_smaller_minimum() {
    let a = LeftistHeap::<u8>::empty().insert(3).insert(5);
    let b = LeftistHeap::<u8>::empty().insert(7).insert(2);
    assert_eq!(Some(&2), a.merge(&b).find_min());
    assert_eq!(Some(&2), b.merge(&a).find_min());
}

#[test]
fn heap_orders_strings() {
    let h = LeftistHeap::<&str>::empty().insert("pear").insert("apple");
    assert_eq!(Some(&"apple"), h.find_min());
    assert_eq!(Some(&"pear"), h.delete_min().find_min());
}

#[test]
fn set_orders_strings() {
    let s = UnbalancedSet::<&str>::empty().insert("pear").insert("apple");
    assert!(s.member(&"apple"));
    assert!(s.member(&"pear"));
    assert!(!s.member(&"fig"));
}

#[test]
fn complete_shares_both_children() {
    let t = complete(2, ());
    let l = t.left().unwrap();
    let r = t.right().unwrap();
    assert!(Rc::ptr_eq(&l, &r));
}
