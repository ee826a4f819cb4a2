//! A priority queue as a leftist heap: a heap-ordered binary tree whose
//! nodes carry a rank, the length of their right spine. Keeping the left
//! child's rank at least the right's bounds the right spine — and so the
//! cost of `merge` — logarithmically. `insert` and `delete_min` are both
//! expressed through `merge`.
use vstd::prelude::*;

verus! {

use std::rc::Rc;
use vstd::multiset::Multiset;
use crate::order::Ordered;
use crate::tree::Tree;

broadcast use vstd::multiset::group_multiset_axioms;

/// A heap node holds its rank beside its value.
type HeapTree<T> = Rc<Tree<(usize, T)>>;

/// The values held, as a multiset: the heap imposes no order on equal
/// elements beyond the heap property.
pub open spec fn contents_of<T>(t: Tree<(usize, T)>) -> Multiset<T>
    decreases t,
{
    match t {
        Tree::E => Multiset::empty(),
        Tree::T(l, p, r) => contents_of(*l).add(contents_of(*r)).insert(p.1),
    }
}

/// Length of the right spine: the chain of right children down to empty.
pub open spec fn spine<T>(t: Tree<(usize, T)>) -> nat
    decreases t,
{
    match t {
        Tree::E => 0,
        Tree::T(_, _, r) => 1 + spine(*r),
    }
}

/// The leftist property: at every node the stored rank is one more than
/// the right child's spine, and the left child's spine is no shorter.
pub open spec fn leftist<T>(t: Tree<(usize, T)>) -> bool
    decreases t,
{
    match t {
        Tree::E => true,
        Tree::T(l, p, r) => leftist(*l) && leftist(*r) && spine(*l) >= spine(*r) && p.0 == spine(
            *r,
        ) + 1,
    }
}

/// Min-heap order: every node's value comes before everything in both
/// of its subtrees.
pub open spec fn heap_ordered<T: Ordered>(t: Tree<(usize, T)>) -> bool
    decreases t,
{
    match t {
        Tree::E => true,
        Tree::T(l, p, r) => {
            &&& heap_ordered(*l)
            &&& heap_ordered(*r)
            &&& forall|y: T| contents_of(*l).count(y) > 0 ==> p.1.le(y)
            &&& forall|y: T| contents_of(*r).count(y) > 0 ==> p.1.le(y)
        },
    }
}

pub open spec fn heap_wf<T: Ordered>(t: Tree<(usize, T)>) -> bool {
    leftist(t) && heap_ordered(t)
}

/// The root's value, which the heap order makes a minimum.
pub open spec fn root_of<T>(t: Tree<(usize, T)>) -> Option<T> {
    match t {
        Tree::E => None,
        Tree::T(_, p, _) => Some(p.1),
    }
}

/// A right spine is never longer than the number of nodes.
proof fn lemma_spine_le_len<T>(t: &Tree<(usize, T)>)
    ensures
        spine(*t) <= contents_of(*t).len(),
    decreases *t,
{
    match t {
        Tree::E => {},
        Tree::T(l, p, r) => {
            lemma_spine_le_len(&**r);
        },
    }
}

/// Under the heap order, the root is a minimum of the whole tree.
proof fn lemma_root_is_min<T: Ordered>(t: &Tree<(usize, T)>, x: T)
    requires
        heap_ordered(*t),
        root_of(*t) == Some(x),
    ensures
        contents_of(*t).count(x) > 0,
        forall|y: T| contents_of(*t).count(y) > 0 ==> x.le(y),
{
    T::lemma_total(x, x);
    assert forall|y: T| contents_of(*t).count(y) > 0 implies x.le(y) by {
        if y != x {
            assert(*t matches Tree::T(l, q, r) && (contents_of(*l).count(y) > 0 || contents_of(
                *r,
            ).count(y) > 0));
        }
    }
}

/// Successive minima ascend: the minimum removed by one `delete_min` comes
/// before the minimum of the heap that remains. Repeated
/// `find_min`/`delete_min` therefore drains a heap in sorted order.
pub proof fn lemma_delete_min_ascends<T: Ordered>(
    before: LeftistHeap<T>,
    after: LeftistHeap<T>,
    x: T,
    y: T,
)
    requires
        before.sound(),
        after.sound(),
        before.peek() == Some(x),
        after.peek() == Some(y),
        after.contents() == before.contents().remove(x),
    ensures
        x.le(y),
{
    lemma_root_is_min(&*before.0, x);
    lemma_root_is_min(&*after.0, y);
    if y != x {
        assert(before.contents().count(y) > 0);
    } else {
        T::lemma_total(x, x);
    }
}

/// A persistent min-priority queue. All operations return new heaps and
/// leave their arguments untouched; `merge` takes O(log n).
pub trait Heap: Sized {
    type Item: Ordered;

    spec fn sound(self) -> bool;

    spec fn contents(self) -> Multiset<Self::Item>;

    /// The root: what `find_min` returns and `delete_min` removes.
    spec fn peek(self) -> Option<Self::Item>;

    fn empty() -> (h: Self)
        ensures
            h.sound(),
            h.contents() == Multiset::<Self::Item>::empty(),
    ;

    fn is_empty(&self) -> (b: bool)
        ensures
            b == (self.contents().len() == 0),
    ;

    fn insert(&self, x: Self::Item) -> (h: Self)
        requires
            self.sound(),
            self.contents().len() < usize::MAX,
        ensures
            h.sound(),
            h.contents() == self.contents().insert(x),
    ;

    fn merge(&self, other: &Self) -> (h: Self)
        requires
            self.sound(),
            other.sound(),
            self.contents().len() + other.contents().len() <= usize::MAX,
        ensures
            h.sound(),
            h.contents() == self.contents().add(other.contents()),
            self.contents().len() == 0 ==> h == *other,
            other.contents().len() == 0 ==> h == *self,
            self.peek() matches Some(x) ==> other.peek() matches Some(y) ==> h.peek() == Some(
                if x.le(y) {
                    x
                } else {
                    y
                },
            ),
    ;

    fn find_min(&self) -> (r: Option<&Self::Item>)
        requires
            self.sound(),
        ensures
            match r {
                None => self.contents().len() == 0 && self.peek() is None,
                Some(x) => {
                    &&& self.peek() == Some(*x)
                    &&& self.contents().count(*x) > 0
                    &&& forall|y: Self::Item|
                        (#[trigger] self.contents().count(y)) > 0 ==> (*x).le(y)
                },
            },
    ;

    fn delete_min(&self) -> (h: Self)
        requires
            self.sound(),
        ensures
            h.sound(),
            self.contents().len() == 0 ==> h == *self,
            self.peek() matches Some(x) ==> h.contents() == self.contents().remove(x),
    ;
}

/// A leftist heap over a shared persistent tree of rank/value pairs.
#[derive(Clone, Debug)]
pub struct LeftistHeap<T: Ordered>(pub HeapTree<T>);

/// The rank stored at the root, which under the leftist invariant is the
/// length of the right spine.
pub fn rank<T>(node: &HeapTree<T>) -> (n: usize)
    requires
        leftist(**node),
    ensures
        n == spine(**node),
{
    match &**node {
        Tree::E => 0,
        Tree::T(_, p, _) => p.0,
    }
}

/// Joins two heaps under a new root holding `x`, giving the child of
/// larger rank to the left and recomputing the root's rank, which
/// restores the leftist property at this level.
fn make_t<T: Ordered>(x: &T, a: &HeapTree<T>, b: &HeapTree<T>) -> (t: HeapTree<T>)
    requires
        heap_wf(**a),
        heap_wf(**b),
        forall|y: T| contents_of(**a).count(y) > 0 ==> (*x).le(y),
        forall|y: T| contents_of(**b).count(y) > 0 ==> (*x).le(y),
        contents_of(**a).len() + contents_of(**b).len() + 1 <= usize::MAX,
    ensures
        heap_wf(*t),
        contents_of(*t) == contents_of(**a).add(contents_of(**b)).insert(*x),
        root_of(*t) == Some(*x),
{
    let ra = rank(a);
    let rb = rank(b);
    proof {
        lemma_spine_le_len(&**a);
        lemma_spine_le_len(&**b);
    }
    if ra >= rb {
        Tree::node(a, (rb + 1, *x), b)
    } else {
        let t = Tree::node(b, (ra + 1, *x), a);
        proof {
            assert(contents_of(*t) =~= contents_of(**a).add(contents_of(**b)).insert(*x));
        }
        t
    }
}

fn merge_rec<T: Ordered>(h1: &HeapTree<T>, h2: &HeapTree<T>) -> (m: HeapTree<T>)
    requires
        heap_wf(**h1),
        heap_wf(**h2),
        contents_of(**h1).len() + contents_of(**h2).len() <= usize::MAX,
    ensures
        heap_wf(*m),
        contents_of(*m) == contents_of(**h1).add(contents_of(**h2)),
        (**h1) is E ==> *m == **h2,
        (**h2) is E ==> *m == **h1,
        root_of(**h1) matches Some(x) ==> root_of(**h2) matches Some(y) ==> root_of(*m) == Some(
            if x.le(y) {
                x
            } else {
                y
            },
        ),
    decreases (**h1).size() + (**h2).size(),
{
    match (&**h1, &**h2) {
        (Tree::E, _) => {
            proof {
                assert(contents_of(**h2) =~= contents_of(**h1).add(contents_of(**h2)));
            }
            Rc::clone(h2)
        },
        (_, Tree::E) => {
            proof {
                assert(contents_of(**h1) =~= contents_of(**h1).add(contents_of(**h2)));
            }
            Rc::clone(h1)
        },
        (Tree::T(a1, p1, b1), Tree::T(a2, p2, b2)) => {
            let x = &p1.1;
            let y = &p2.1;
            if x.le_exec(y) {
                let merged = merge_rec(b1, h2);
                proof {
                    assert forall|z: T| contents_of(*merged).count(z) > 0 implies p1.1.le(z) by {
                        if contents_of(**b1).count(z) > 0 {
                        } else {
                            assert(contents_of(**h2).count(z) > 0);
                            if z == p2.1 {
                            } else {
                                assert(contents_of(**a2).count(z) > 0 || contents_of(**b2).count(z)
                                    > 0);
                                T::lemma_transitive(p1.1, p2.1, z);
                            }
                        }
                    }
                }
                let t = make_t(x, a1, &merged);
                proof {
                    assert(contents_of(*t) =~= contents_of(**h1).add(contents_of(**h2)));
                }
                t
            } else {
                proof {
                    T::lemma_total(p1.1, p2.1);
                }
                let merged = merge_rec(h1, b2);
                proof {
                    assert forall|z: T| contents_of(*merged).count(z) > 0 implies p2.1.le(z) by {
                        if contents_of(**b2).count(z) > 0 {
                        } else {
                            assert(contents_of(**h1).count(z) > 0);
                            if z == p1.1 {
                            } else {
                                assert(contents_of(**a1).count(z) > 0 || contents_of(**b1).count(z)
                                    > 0);
                                T::lemma_transitive(p2.1, p1.1, z);
                            }
                        }
                    }
                }
                let t = make_t(y, a2, &merged);
                proof {
                    assert(contents_of(*t) =~= contents_of(**h1).add(contents_of(**h2)));
                }
                t
            }
        },
    }
}

impl<T: Ordered> Heap for LeftistHeap<T> {
    type Item = T;

    open spec fn sound(self) -> bool {
        heap_wf(*self.0) && contents_of(*self.0).len() <= usize::MAX
    }

    open spec fn contents(self) -> Multiset<T> {
        contents_of(*self.0)
    }

    open spec fn peek(self) -> Option<T> {
        root_of(*self.0)
    }

    fn empty() -> (h: Self) {
        LeftistHeap(Tree::empty())
    }

    fn is_empty(&self) -> (b: bool) {
        match &*self.0 {
            Tree::E => true,
            Tree::T(..) => false,
        }
    }

    fn insert(&self, x: T) -> (h: Self) {
        let single = LeftistHeap(Tree::leaf((1usize, x)));
        proof {
            assert(spine(Tree::<(usize, T)>::E) == 0);
            assert(leftist(Tree::<(usize, T)>::E));
            assert(heap_ordered(Tree::<(usize, T)>::E));
            assert(contents_of(Tree::<(usize, T)>::E) =~= Multiset::<T>::empty());
            assert(contents_of(*single.0) =~= Multiset::<T>::empty().insert(x));
            assert(leftist(*single.0));
            assert(heap_ordered(*single.0));
            assert(self.contents().insert(x) =~= self.contents().add(contents_of(*single.0)));
        }
        self.merge(&single)
    }

    fn merge(&self, other: &Self) -> (h: Self) {
        LeftistHeap(merge_rec(&self.0, &other.0))
    }

    fn find_min(&self) -> (r: Option<&T>) {
        match &*self.0 {
            Tree::E => None,
            Tree::T(_, p, _) => {
                proof {
                    lemma_root_is_min(&*self.0, p.1);
                }
                Some(&p.1)
            },
        }
    }

    fn delete_min(&self) -> (h: Self) {
        match &*self.0 {
            Tree::E => LeftistHeap(Rc::clone(&self.0)),
            Tree::T(a, p, b) => {
                let m = merge_rec(a, b);
                proof {
                    assert(contents_of(*m) =~= self.contents().remove(p.1));
                }
                LeftistHeap(m)
            },
        }
    }
}

} // verus!
