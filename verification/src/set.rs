//! A persistent set: a thin adapter over the finite map with self-keyed
//! entries, so the element is both the key and the value.
use vstd::prelude::*;

verus! {

use std::rc::Rc;
use crate::order::Ordered;
use crate::order::key_eq;
use crate::map::FiniteMap;
use crate::map::MapEntry;
use crate::map::SelfKeyedEntry;
use crate::map::UnbalancedMap;

/// A persistent set over a totally ordered element type.
///
/// `insert` silently absorbs a duplicate: it returns a set that shares its
/// entire tree with the original rather than copying anything.
pub trait SetOps<E: Ordered>: Sized {
    spec fn valid(self) -> bool;

    spec fn has(self, x: E) -> bool;

    fn member(&self, val: &E) -> (b: bool)
        ensures
            b == self.has(*val),
    ;

    fn insert(&self, val: E) -> (s: Self)
        requires
            self.valid(),
        ensures
            s.valid(),
            self.has(val) ==> s == *self,
            !self.has(val) ==> forall|y: E| (#[trigger] s.has(y)) == (self.has(y) || key_eq(
                y,
                val,
            )),
    ;
}

/// A persistent set backed by an unbalanced binary search tree.
pub struct UnbalancedSet<E: Ordered>(pub UnbalancedMap<SelfKeyedEntry<E>>);

impl<E: Ordered> UnbalancedSet<E> {
    pub fn empty() -> (s: Self)
        ensures
            s.valid(),
            forall|y: E| !(#[trigger] s.has(y)),
    {
        UnbalancedSet(UnbalancedMap::empty())
    }
}

impl<E: Ordered> SetOps<E> for UnbalancedSet<E> {
    open spec fn valid(self) -> bool {
        self.0.valid()
    }

    open spec fn has(self, x: E) -> bool {
        self.0.find(x) is Some
    }

    fn member(&self, val: &E) -> (b: bool) {
        let r = self.0.lookup(val);
        r.is_some()
    }

    fn insert(&self, val: E) -> (s: Self) {
        match self.0.insert(SelfKeyedEntry(val)) {
            Ok(m) => {
                let s = UnbalancedSet(m);
                proof {
                    assert(SelfKeyedEntry(val).key() == val);
                    assert forall|y: E| (#[trigger] s.has(y)) == (self.has(y) || key_eq(y, val)) by {
                        assert(m.find(y) == (if key_eq(y, val) {
                            Some(SelfKeyedEntry(val).value())
                        } else {
                            self.0.find(y)
                        }));
                    }
                }
                s
            },
            Err(_) => UnbalancedSet(UnbalancedMap(Rc::clone(&(self.0).0))),
        }
    }
}

} // verus!
