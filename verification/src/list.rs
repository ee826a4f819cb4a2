//! A persistent cons list. `cons`, `first` and `rest` are O(1) and share
//! structure; `update` and `concat` rebuild only the prefix they touch and
//! share the rest with the original list.
use vstd::prelude::*;

verus! {

use std::rc::Rc;
use vstd::pervasive::cloned;

/// Returned by `update` when the position is past the end of the list.
#[derive(Debug)]
pub struct IndexOutOfRange;

/// A persistent sequence.
///
/// Elements the operations copy are described through [`cloned`]: for a
/// type whose `clone` returns its argument (every `Copy` type does), the
/// copied elements are equal to the originals.
pub trait Sequence<E: Clone>: Sized {
    spec fn model(&self) -> Seq<E>;

    fn is_empty(&self) -> (b: bool)
        ensures
            b == (self.model().len() == 0),
    ;

    fn cons(&self, el: E) -> (r: Self)
        ensures
            r.model() == seq![el] + self.model(),
    ;

    fn first(&self) -> (r: Option<&E>)
        ensures
            match r {
                Some(e) => self.model().len() > 0 && *e == self.model()[0],
                None => self.model().len() == 0,
            },
    ;

    fn rest(&self) -> (r: Self)
        ensures
            self.model().len() == 0 ==> r.model() == self.model(),
            self.model().len() > 0 ==> r.model() == self.model().skip(1),
    ;

    /// Replaces the element at `index`, or appends when `index` is the
    /// length; the elements before `index` are cloned, those after it are
    /// shared with the original list.
    fn update(&self, index: usize, val: E) -> (r: Result<Self, IndexOutOfRange>)
        ensures
            match r {
                Ok(nl) => {
                    &&& index <= self.model().len()
                    &&& nl.model().len() == (if index < self.model().len() {
                        self.model().len() as int
                    } else {
                        self.model().len() as int + 1
                    })
                    &&& nl.model()[index as int] == val
                    &&& forall|j: int|
                        0 <= j < index ==> cloned::<E>(
                            self.model()[j],
                            #[trigger] nl.model()[j],
                        )
                    &&& forall|j: int|
                        index < j < self.model().len() ==> nl.model()[j] == self.model()[j]
                },
                Err(_) => index > self.model().len(),
            },
    ;

    /// The elements of `self` followed by those of `other`; `other`'s
    /// spine is shared, `self`'s elements are cloned onto it.
    fn concat(&self, other: &Self) -> (r: Self)
        ensures
            r.model().len() == self.model().len() + other.model().len(),
            forall|j: int|
                0 <= j < self.model().len() ==> cloned::<E>(
                    self.model()[j],
                    #[trigger] r.model()[j],
                ),
            forall|j: int|
                self.model().len() <= j < r.model().len() ==> r.model()[j] == other.model()[j
                    - self.model().len()],
    ;
}

/// A cons cell; the tail is reference-counted and shared, never copied.
#[derive(Debug, PartialEq)]
pub enum List<E> {
    Nil,
    Cons(E, Rc<List<E>>),
}

impl<E> List<E> {
    /// The elements front to back.
    pub open spec fn elems(self) -> Seq<E>
        decreases self,
    {
        match self {
            List::Nil => Seq::empty(),
            List::Cons(e, rest) => seq![e] + (*rest).elems(),
        }
    }

    pub fn new() -> (l: Rc<Self>)
        ensures
            *l == List::<E>::Nil,
            (*l).elems() == Seq::<E>::empty(),
    {
        Rc::new(List::Nil)
    }
}

impl<E: Clone> Sequence<E> for Rc<List<E>> {
    open spec fn model(&self) -> Seq<E> {
        (**self).elems()
    }

    fn is_empty(&self) -> (b: bool) {
        match &**self {
            List::Nil => true,
            List::Cons(_, _) => false,
        }
    }

    fn cons(&self, el: E) -> (r: Self) {
        Rc::new(List::Cons(el, Rc::clone(self)))
    }

    fn first(&self) -> (r: Option<&E>) {
        match &**self {
            List::Nil => None,
            List::Cons(e, _) => Some(e),
        }
    }

    fn rest(&self) -> (r: Self) {
        match &**self {
            List::Nil => Rc::clone(self),
            List::Cons(_, rest) => {
                proof {
                    assert(self.model().skip(1) =~= (**rest).elems());
                }
                Rc::clone(rest)
            },
        }
    }

    fn update(&self, index: usize, val: E) -> (r: Result<Self, IndexOutOfRange>)
        decreases (**self).elems().len(),
    {
        if index == 0 {
            let nl = self.rest().cons(val);
            proof {
                if self.model().len() > 0 {
                    assert forall|j: int| 0 < j < self.model().len() implies nl.model()[j]
                        == self.model()[j] by {
                        assert(nl.model()[j] == self.model().skip(1)[j - 1]);
                    }
                }
            }
            Ok(nl)
        } else {
            match &**self {
                List::Nil => Err(IndexOutOfRange),
                List::Cons(head, rest) => {
                    match rest.update(index - 1, val) {
                        Ok(sub) => {
                            let hc = head.clone();
                            proof {
                                assert(cloned::<E>(*head, hc));
                            }
                            let nl = sub.cons(hc);
                            proof {
                                assert(self.model() == seq![*head] + rest.model());
                                assert forall|j: int| 0 <= j < index implies cloned::<E>(
                                    self.model()[j],
                                    #[trigger] nl.model()[j],
                                ) by {
                                    if j > 0 {
                                        assert(nl.model()[j] == sub.model()[j - 1]);
                                        assert(self.model()[j] == rest.model()[j - 1]);
                                    }
                                }
                                assert forall|j: int|
                                    index < j < self.model().len() implies nl.model()[j]
                                    == self.model()[j] by {
                                    assert(nl.model()[j] == sub.model()[j - 1]);
                                    assert(self.model()[j] == rest.model()[j - 1]);
                                }
                            }
                            Ok(nl)
                        },
                        Err(e) => Err(e),
                    }
                },
            }
        }
    }

    fn concat(&self, other: &Self) -> (r: Self)
        decreases (**self).elems().len(),
    {
        match &**self {
            List::Nil => Rc::clone(other),
            List::Cons(head, rest) => {
                let sub = rest.concat(other);
                let hc = head.clone();
                proof {
                    assert(cloned::<E>(*head, hc));
                }
                let nl = sub.cons(hc);
                proof {
                    assert(self.model() == seq![*head] + rest.model());
                    assert forall|j: int| 0 <= j < self.model().len() implies cloned::<E>(
                        self.model()[j],
                        #[trigger] nl.model()[j],
                    ) by {
                        if j > 0 {
                            assert(nl.model()[j] == sub.model()[j - 1]);
                            assert(self.model()[j] == rest.model()[j - 1]);
                        }
                    }
                    assert forall|j: int|
                        self.model().len() <= j < nl.model().len() implies nl.model()[j]
                        == other.model()[j - self.model().len()] by {
                        assert(nl.model()[j] == sub.model()[j - 1]);
                    }
                }
                nl
            },
        }
    }
}

/// Every suffix of `list`, longest first, ending with the empty list.
/// Each suffix is shared with `list` itself, so the whole result costs
/// one new cell per suffix.
pub fn suffixes<E: Clone>(list: &Rc<List<E>>) -> (r: Rc<List<Rc<List<E>>>>)
    ensures
        (*r).elems().len() == (**list).elems().len() + 1,
        forall|i: int|
            0 <= i <= (**list).elems().len() ==> (*#[trigger] (*r).elems()[i]).elems() == (
            **list).elems().skip(i),
    decreases (**list).elems().len(),
{
    if list.is_empty() {
        let r = List::new().cons(Rc::clone(list));
        proof {
            assert((**list).elems().skip(0) =~= (**list).elems());
        }
        r
    } else {
        let tail = list.rest();
        let sub = suffixes(&tail);
        let r = sub.cons(Rc::clone(list));
        proof {
            assert((**list).elems().skip(0) =~= (**list).elems());
            assert forall|i: int|
                0 < i <= (**list).elems().len() implies (*#[trigger] (*r).elems()[i]).elems() == (
            **list).elems().skip(i) by {
                assert((*r).elems()[i] == (*sub).elems()[i - 1]);
                assert((*(*sub).elems()[i - 1]).elems() == (*tail).elems().skip(i - 1));
                assert((**list).elems().skip(1).skip(i - 1) =~= (**list).elems().skip(i));
            }
        }
        r
    }
}

} // verus!
