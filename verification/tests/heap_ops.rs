use persistent::heap::Heap;
use persistent::heap::LeftistHeap;

#[test]
fn empty_leftist_heap() {
    let h = LeftistHeap::<&'static str>::empty();
    assert!(h.is_empty());
}

#[test]
fn heap_of_one() {
    let h = LeftistHeap::<u8>::empty().insert(1);
    assert_eq!(Some(&1), h.find_min());
}

#[test]
fn heap_of_two() {
    let h = LeftistHeap::<u8>::empty().insert(3).insert(2);
    assert_eq!(Some(&2), h.find_min());
}

#[test]
fn deleting_from_heap() {
    let h = LeftistHeap::<u8>::empty().insert(5).insert(7);
    assert_eq!(Some(&5), h.find_min());
    let h1 = h.delete_min();
    assert_eq!(Some(&7), h1.find_min());
}
