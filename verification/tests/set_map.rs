use persistent::map::FiniteMap;
use persistent::map::PairEntry;
use persistent::map::UnbalancedMap;
use persistent::set::SetOps;
use persistent::set::UnbalancedSet;
use persistent::tree::BinaryTree;
use persistent::tree::complete;
use persistent::tree::tree_of;
use persistent::util::iterate;
use std::rc::Rc;

#[test]
fn empty() {
    let t = UnbalancedSet::<u8>::empty();
    assert!(!t.member(&0));
}

#[test]
fn insert_one() {
    let t = UnbalancedSet::<u8>::empty().insert(1);
    assert!(t.member(&1));
}

#[test]
fn insert_several() {
    let t = UnbalancedSet::empty().insert(1).insert(3);
    assert!(t.member(&1));
    assert!(t.member(&3));
}

#[test]
fn insert_many() {
    let t = UnbalancedSet::empty().insert(2).insert(1).insert(3);
    assert!(t.member(&1));
    assert!(t.member(&2));
    assert!(t.member(&3));
    assert_eq!(Rc::strong_count(&t.0.0), 1);

    let t2 = t.insert(2);
    assert!(t2.member(&1));
    assert!(t2.member(&2));
    assert!(t2.member(&3));
    assert_eq!(Rc::strong_count(&t.0.0), 2);
}

#[test]
fn set_iterate_inc() {
    let res = iterate(5, |x| x + 1);
    assert_eq!(vec![5, 6, 7, 8], res.take(4));
}

#[test]
fn set_iterate_powers_of_two() {
    let res = iterate(1, |x| x * 2);
    assert_eq!(vec![1, 2, 4, 8], res.take(4));
}

#[test]
fn complete_one() {
    let t = complete(1, ());
    assert_eq!(1, t.count());
}

#[test]
fn complete_two() {
    let t = complete(2, ());
    assert_eq!(3, t.count());
}

#[test]
fn complete_three() {
    let t = complete(3, ());
    assert_eq!(7, t.count());
}

#[test]
fn tree_of_one() {
    let t = tree_of(1, ());
    println!("{:?}", t);
    assert_eq!(1, t.count());
    assert_eq!(1, t.depth());
}

#[test]
fn tree_of_two() {
    let t = tree_of(2, ());
    println!("{:?}", t);
    assert_eq!(2, t.count());
    assert_eq!(2, t.depth());
}

#[test]
fn tree_of_four() {
    let t = tree_of(4, ());
    println!("{:?}", t);
    assert_eq!(4, t.count());
    assert_eq!(3, t.depth());
    assert_eq!(2, t.left().unwrap().depth());
    assert_eq!(1, t.right().unwrap().depth());
}

#[test]
fn tree_of_ten() {
    let t = tree_of(10, ());
    println!("{:?}", t);
    assert_eq!(10, t.count());
    assert_eq!(4, t.depth());
    assert_eq!(3, t.left().unwrap().depth());
    assert_eq!(3, t.right().unwrap().depth());
}

#[test]
fn map_of_one() {
    let m = UnbalancedMap::<PairEntry<&str, u8>>::empty().bind("zero", 0u8);
    assert_eq!(Some(&0), m.lookup(&"zero"));
}

#[test]
fn map_of_two() {
    let m = UnbalancedMap::<PairEntry<&str, u8>>::empty()
        .bind("zero", 0u8)
        .bind("one", 1u8);
    assert_eq!(Some(&0), m.lookup(&"zero"));
    assert_eq!(Some(&1), m.lookup(&"one"));
}

#[test]
fn map_double_bind() {
    let m = UnbalancedMap::<PairEntry<&str, u8>>::empty()
        .bind("zero", 0u8)
        .bind("one", 1u8);
    let _m1 = m.bind("one", 15);
    assert_eq!(Some(&1), m.lookup(&"one"));
}
