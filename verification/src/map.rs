//! A persistent finite map over an unbalanced binary search tree.
//!
//! The map is generic over the *shape* of its entries: an entry is anything
//! exchangeable for a key and a value. A pair entry carries both; a
//! self-keyed entry is its own key, which is how the set is built on top
//! of this module.
//!
//! Insertion path-copies: it reallocates only the nodes along the search
//! path and shares every other subtree with the original map. A duplicate
//! key is detected with a "closest candidate key" carried down the search,
//! so the duplicate is recognised at the leaf without a second comparison
//! pass, and nothing is allocated for it.
use vstd::prelude::*;

verus! {

use std::rc::Rc;
use crate::order::Ordered;
use crate::order::key_lt;
use crate::order::key_eq;
use crate::order::lemma_le_lt;
use crate::order::lemma_lt_le;
use crate::order::lemma_lt_trans;
use crate::tree::Tree;

/// A capability exchangeable for a key and a value.
///
/// `admits` says which key/value pairs the entry shape can hold: a pair
/// entry admits every pair, a self-keyed entry only pairs whose key and
/// value coincide.
pub trait MapEntry: Sized + Copy {
    type Key: Ordered;

    type Value;

    spec fn key(self) -> Self::Key;

    spec fn value(self) -> Self::Value;

    spec fn admits(k: Self::Key, v: Self::Value) -> bool;

    fn make(k: Self::Key, v: Self::Value) -> (e: Self)
        requires
            Self::admits(k, v),
        ensures
            e.key() == k,
            e.value() == v,
    ;

    fn key_ref(&self) -> (k: &Self::Key)
        ensures
            *k == self.key(),
    ;

    fn value_ref(&self) -> (v: &Self::Value)
        ensures
            *v == self.value(),
    ;
}

/// An entry that is its own key: the degenerate shape that powers the set.
#[derive(Clone, Copy)]
pub struct SelfKeyedEntry<T>(pub T);

impl<T: Ordered> MapEntry for SelfKeyedEntry<T> {
    type Key = T;

    type Value = T;

    open spec fn key(self) -> T {
        self.0
    }

    open spec fn value(self) -> T {
        self.0
    }

    open spec fn admits(k: T, v: T) -> bool {
        k == v
    }

    fn make(k: T, v: T) -> (e: Self) {
        SelfKeyedEntry(k)
    }

    fn key_ref(&self) -> (k: &T) {
        &self.0
    }

    fn value_ref(&self) -> (v: &T) {
        &self.0
    }
}

/// An entry with a key and a distinct value.
#[derive(Clone, Copy)]
pub struct PairEntry<K, V>(pub K, pub V);

impl<K: Ordered, V: Copy> MapEntry for PairEntry<K, V> {
    type Key = K;

    type Value = V;

    open spec fn key(self) -> K {
        self.0
    }

    open spec fn value(self) -> V {
        self.1
    }

    open spec fn admits(k: K, v: V) -> bool {
        true
    }

    fn make(k: K, v: V) -> (e: Self) {
        PairEntry(k, v)
    }

    fn key_ref(&self) -> (k: &K) {
        &self.0
    }

    fn value_ref(&self) -> (v: &V) {
        &self.1
    }
}

/// Every key in `t` is strictly below `b`.
pub open spec fn keys_below<E: MapEntry>(t: Tree<E>, b: E::Key) -> bool
    decreases t,
{
    match t {
        Tree::E => true,
        Tree::T(l, e, r) => key_lt(e.key(), b) && keys_below(*l, b) && keys_below(*r, b),
    }
}

/// Every key in `t` is strictly above `b`.
pub open spec fn keys_above<E: MapEntry>(t: Tree<E>, b: E::Key) -> bool
    decreases t,
{
    match t {
        Tree::E => true,
        Tree::T(l, e, r) => key_lt(b, e.key()) && keys_above(*l, b) && keys_above(*r, b),
    }
}

/// Binary-search-tree ordering: at every node, the left subtree's keys
/// are strictly below the node's key and the right subtree's strictly
/// above it. In particular no two entries share a key.
pub open spec fn search_wf<E: MapEntry>(t: Tree<E>) -> bool
    decreases t,
{
    match t {
        Tree::E => true,
        Tree::T(l, e, r) => search_wf(*l) && search_wf(*r) && keys_below(*l, e.key())
            && keys_above(*r, e.key()),
    }
}

/// The value bound to `k`: the binding whose key is order-equivalent to
/// `k` on the search path, if any.
pub open spec fn search<E: MapEntry>(t: Tree<E>, k: E::Key) -> Option<E::Value>
    decreases t,
{
    match t {
        Tree::E => None,
        Tree::T(l, e, r) => if key_lt(k, e.key()) {
            search(*l, k)
        } else if key_lt(e.key(), k) {
            search(*r, k)
        } else {
            Some(e.value())
        },
    }
}

/// A persistent finite map. `find` is the mathematical content; `bind`
/// never overwrites: binding an already-bound key returns the map
/// unchanged, sharing its whole tree with the original.
pub trait FiniteMap: Sized {
    type Key: Ordered;

    type Value;

    spec fn valid(self) -> bool;

    spec fn find(self, k: Self::Key) -> Option<Self::Value>;

    spec fn compatible(k: Self::Key, v: Self::Value) -> bool;

    fn empty() -> (m: Self)
        ensures
            m.valid(),
            forall|k: Self::Key| m.find(k) is None,
    ;

    fn bind(&self, k: Self::Key, v: Self::Value) -> (m: Self)
        requires
            self.valid(),
            Self::compatible(k, v),
        ensures
            m.valid(),
            self.find(k) is Some ==> m == *self,
            self.find(k) is None ==> forall|k2: Self::Key|
                m.find(k2) == (if key_eq(k2, k) {
                    Some(v)
                } else {
                    self.find(k2)
                }),
    ;

    fn lookup(&self, k: &Self::Key) -> (r: Option<&Self::Value>)
        ensures
            match r {
                Some(v) => self.find(*k) == Some(*v),
                None => self.find(*k) is None,
            },
    ;
}

spec fn items_of<E>(t: &Tree<E>) -> Seq<E> {
    (*t).items()
}

proof fn lemma_below_items<E: MapEntry>(t: &Tree<E>, b: E::Key)
    requires
        keys_below(*t, b),
    ensures
        forall|i: int| 0 <= i < (*t).items().len() ==> key_lt((#[trigger] (*t).items()[i]).key(), b),
    decreases *t,
{
    match t {
        Tree::E => {},
        Tree::T(l, e, r) => {
            lemma_below_items(&**l, b);
            lemma_below_items(&**r, b);
            let li = items_of(&**l);
            let ri = items_of(&**r);
            assert((*t).items() == li + seq![*e] + ri);
            assert forall|i: int| 0 <= i < (*t).items().len() implies key_lt(
                (#[trigger] (*t).items()[i]).key(),
                b,
            ) by {
                if i < li.len() {
                    assert((*t).items()[i] == li[i]);
                } else if i == li.len() {
                    assert((*t).items()[i] == *e);
                } else {
                    assert((*t).items()[i] == ri[i - li.len() - 1]);
                }
            }
        },
    }
}

proof fn lemma_above_items<E: MapEntry>(t: &Tree<E>, b: E::Key)
    requires
        keys_above(*t, b),
    ensures
        forall|i: int| 0 <= i < (*t).items().len() ==> key_lt(b, (#[trigger] (*t).items()[i]).key()),
    decreases *t,
{
    match t {
        Tree::E => {},
        Tree::T(l, e, r) => {
            lemma_above_items(&**l, b);
            lemma_above_items(&**r, b);
            let li = items_of(&**l);
            let ri = items_of(&**r);
            assert((*t).items() == li + seq![*e] + ri);
            assert forall|i: int| 0 <= i < (*t).items().len() implies key_lt(
                b,
                (#[trigger] (*t).items()[i]).key(),
            ) by {
                if i < li.len() {
                    assert((*t).items()[i] == li[i]);
                } else if i == li.len() {
                    assert((*t).items()[i] == *e);
                } else {
                    assert((*t).items()[i] == ri[i - li.len() - 1]);
                }
            }
        },
    }
}

/// The binary-search-tree invariant read off the in-order traversal: in a
/// well-formed tree the entries appear with strictly increasing keys. Every
/// map operation keeps `search_wf`, so every map this module builds
/// satisfies this.
pub proof fn lemma_wf_inorder_sorted<E: MapEntry>(t: &Tree<E>)
    requires
        search_wf(*t),
    ensures
        forall|i: int, j: int|
            0 <= i < j < (*t).items().len() ==> key_lt(
                (#[trigger] (*t).items()[i]).key(),
                (#[trigger] (*t).items()[j]).key(),
            ),
    decreases *t,
{
    match t {
        Tree::E => {},
        Tree::T(l, e, r) => {
            lemma_wf_inorder_sorted(&**l);
            lemma_wf_inorder_sorted(&**r);
            lemma_below_items(&**l, (*e).key());
            lemma_above_items(&**r, (*e).key());
            let li = items_of(&**l);
            let ri = items_of(&**r);
            assert((*t).items() == li + seq![*e] + ri);
            assert forall|i: int, j: int| 0 <= i < j < (*t).items().len() implies key_lt(
                (#[trigger] (*t).items()[i]).key(),
                (#[trigger] (*t).items()[j]).key(),
            ) by {
                if i < li.len() {
                    assert((*t).items()[i] == li[i]);
                } else if i == li.len() {
                    assert((*t).items()[i] == *e);
                } else {
                    assert((*t).items()[i] == ri[i - li.len() - 1]);
                }
                if j < li.len() {
                    assert((*t).items()[j] == li[j]);
                } else if j == li.len() {
                    assert((*t).items()[j] == *e);
                } else {
                    assert((*t).items()[j] == ri[j - li.len() - 1]);
                }
                if i < li.len() && j > li.len() {
                    lemma_lt_trans(li[i].key(), (*e).key(), ri[j - li.len() - 1].key());
                }
            }
        },
    }
}

/// Returned by `insert` on a key that is already bound; the map is left
/// unchanged and nothing was allocated.
pub struct AlreadyPresent;

/// A finite map as an unbalanced binary search tree of entries.
pub struct UnbalancedMap<E: MapEntry>(pub Rc<Tree<E>>);

fn lookup_rec<'a, E: MapEntry>(t: &'a Rc<Tree<E>>, k: &E::Key) -> (r: Option<&'a E::Value>)
    ensures
        match r {
            Some(v) => search(**t, *k) == Some(*v),
            None => search(**t, *k) is None,
        },
    decreases **t,
{
    match &**t {
        Tree::E => None,
        Tree::T(l, e, r) => {
            let yk = e.key_ref();
            if k.le_exec(yk) {
                if yk.le_exec(k) {
                    Some(e.value_ref())
                } else {
                    lookup_rec(l, k)
                }
            } else {
                proof {
                    // the key is not below this node's, so the search goes right
                    <E::Key as Ordered>::lemma_total(*k, (*e).key());
                }
                lookup_rec(r, k)
            }
        },
    }
}

fn insert_rec<E: MapEntry>(t: &Rc<Tree<E>>, e: E, cand: Option<&E::Key>) -> (r: Result<
    Rc<Tree<E>>,
    AlreadyPresent,
>)
    requires
        search_wf(**t),
        cand matches Some(c) ==> (*c).le(e.key()) && keys_above(**t, *c),
    ensures
        match r {
            Ok(nt) => {
                &&& search_wf(*nt)
                &&& search(**t, e.key()) is None
                &&& !(cand matches Some(c) && key_eq(*c, e.key()))
                &&& forall|k2: E::Key|
                    search(*nt, k2) == (if key_eq(k2, e.key()) {
                        Some(e.value())
                    } else {
                        search(**t, k2)
                    })
                &&& (*nt).size() == (**t).size() + 1
                &&& forall|b: E::Key|
                    keys_below(**t, b) && key_lt(e.key(), b) ==> keys_below(*nt, b)
                &&& forall|b: E::Key|
                    keys_above(**t, b) && key_lt(b, e.key()) ==> keys_above(*nt, b)
            },
            Err(_) => search(**t, e.key()) is Some || (cand matches Some(c) && key_eq(
                *c,
                e.key(),
            )),
        },
    decreases **t,
{
    match &**t {
        Tree::E => {
            let dup = match cand {
                Some(c) => e.key_ref().le_exec(c),
                None => false,
            };
            if dup {
                Err(AlreadyPresent)
            } else {
                let nt = Tree::leaf(e);
                proof {
                    let k = e.key();
                    assert forall|k2: E::Key|
                        search(*nt, k2) == (if key_eq(k2, k) {
                            Some(e.value())
                        } else {
                            search(**t, k2)
                        }) by {
                        assert(search(Tree::<E>::E, k2) is None);
                    }
                    assert forall|b: E::Key| key_lt(k, b) implies keys_below(*nt, b) by {
                        assert(keys_below(Tree::<E>::E, b));
                    }
                    assert forall|b: E::Key| key_lt(b, k) implies keys_above(*nt, b) by {
                        assert(keys_above(Tree::<E>::E, b));
                    }
                    assert(search_wf(Tree::<E>::E));
                    assert(keys_below(Tree::<E>::E, k));
                    assert(keys_above(Tree::<E>::E, k));
                }
                Ok(nt)
            }
        },
        Tree::T(l, y, r) => {
            let yk = y.key_ref();
            let ek = e.key_ref();
            if !yk.le_exec(ek) {
                // the new key is strictly below this node's: descend left
                match insert_rec(l, e, cand) {
                    Ok(nl) => {
                        let nt = Tree::node(&nl, *y, r);
                        proof {
                            let k = e.key();
                            let ykk = y.key();
                            assert(keys_below(*nl, ykk));
                            assert forall|k2: E::Key|
                                search(*nt, k2) == (if key_eq(k2, k) {
                                    Some(e.value())
                                } else {
                                    search(**t, k2)
                                }) by {
                                if key_lt(k2, ykk) {
                                    assert(search(*nt, k2) == search(*nl, k2));
                                    assert(search(**t, k2) == search(**l, k2));
                                } else if key_lt(ykk, k2) {
                                    // both trees search the untouched right child
                                    assert(search(*nt, k2) == search(**r, k2));
                                    assert(search(**t, k2) == search(**r, k2));
                                    if key_eq(k2, k) {
                                        lemma_lt_le(ykk, k2, k);
                                        <E::Key as Ordered>::lemma_total(k, ykk);
                                        assert(false);
                                    }
                                } else {
                                    // order-equivalent to this node's key
                                    assert(search(*nt, k2) == Some((*y).value()));
                                    assert(search(**t, k2) == Some((*y).value()));
                                    if key_eq(k2, k) {
                                        <E::Key as Ordered>::lemma_transitive(ykk, k2, k);
                                        assert(false);
                                    }
                                }
                            }
                            assert forall|b: E::Key|
                                keys_below(**t, b) && key_lt(k, b) implies keys_below(*nt, b) by {
                                assert(keys_below(**l, b));
                                assert(keys_below(*nl, b));
                            }
                            assert forall|b: E::Key|
                                keys_above(**t, b) && key_lt(b, k) implies keys_above(*nt, b) by {
                                assert(keys_above(**l, b));
                                assert(keys_above(*nl, b));
                            }
                        }
                        Ok(nt)
                    },
                    Err(a) => Err(a),
                }
            } else {
                // the node's key comes before (or ties) the new one: descend
                // right, remembering this key as the closest candidate
                match insert_rec(r, e, Some(yk)) {
                    Ok(nr) => {
                        let nt = Tree::node(l, *y, &nr);
                        proof {
                            let k = e.key();
                            let ykk = y.key();
                            // the recursion rules out a tie with the candidate,
                            // so the node's key is strictly below the new one
                            assert(!key_eq(ykk, k));
                            assert(key_lt(ykk, k));
                            assert(keys_above(*nr, ykk));
                            match cand {
                                Some(c) => {
                                    if key_eq(*c, k) {
                                        lemma_le_lt(k, *c, ykk);
                                        assert(false);
                                    }
                                },
                                None => {},
                            }
                            assert forall|k2: E::Key|
                                search(*nt, k2) == (if key_eq(k2, k) {
                                    Some(e.value())
                                } else {
                                    search(**t, k2)
                                }) by {
                                if key_lt(k2, ykk) {
                                    // both trees search the untouched left child
                                    assert(search(*nt, k2) == search(**l, k2));
                                    assert(search(**t, k2) == search(**l, k2));
                                    if key_eq(k2, k) {
                                        lemma_le_lt(k, k2, ykk);
                                        assert(false);
                                    }
                                } else if key_lt(ykk, k2) {
                                    assert(search(*nt, k2) == search(*nr, k2));
                                    assert(search(**t, k2) == search(**r, k2));
                                } else {
                                    // order-equivalent to this node's key
                                    assert(search(*nt, k2) == Some((*y).value()));
                                    assert(search(**t, k2) == Some((*y).value()));
                                    if key_eq(k2, k) {
                                        <E::Key as Ordered>::lemma_transitive(k, k2, ykk);
                                        assert(false);
                                    }
                                }
                            }
                            assert forall|b: E::Key|
                                keys_below(**t, b) && key_lt(k, b) implies keys_below(*nt, b) by {
                                assert(keys_below(**r, b));
                                assert(keys_below(*nr, b));
                            }
                            assert forall|b: E::Key|
                                keys_above(**t, b) && key_lt(b, k) implies keys_above(*nt, b) by {
                                assert(keys_above(**r, b));
                                assert(keys_above(*nr, b));
                            }
                        }
                        Ok(nt)
                    },
                    Err(a) => Err(a),
                }
            }
        },
    }
}

impl<E: MapEntry> UnbalancedMap<E> {
    /// Entries held, counted over the whole tree.
    pub open spec fn entry_count(self) -> nat {
        (*self.0).size()
    }

    /// O(depth) path-copying insert: on a fresh key only the nodes along
    /// the search path are new and every other subtree is shared with
    /// `self`; on an already-bound key, signals [`AlreadyPresent`] and
    /// allocates nothing.
    pub fn insert(&self, e: E) -> (r: Result<Self, AlreadyPresent>)
        requires
            self.valid(),
        ensures
            match r {
                Ok(m) => {
                    &&& self.find(e.key()) is None
                    &&& m.valid()
                    &&& forall|k2: E::Key|
                        m.find(k2) == (if key_eq(k2, e.key()) {
                            Some(e.value())
                        } else {
                            self.find(k2)
                        })
                    &&& m.entry_count() == self.entry_count() + 1
                },
                Err(_) => self.find(e.key()) is Some,
            },
    {
        match insert_rec(&self.0, e, None) {
            Ok(nt) => Ok(UnbalancedMap(nt)),
            Err(a) => Err(a),
        }
    }
}

impl<E: MapEntry> FiniteMap for UnbalancedMap<E> {
    type Key = E::Key;

    type Value = E::Value;

    open spec fn valid(self) -> bool {
        search_wf(*self.0)
    }

    open spec fn find(self, k: E::Key) -> Option<E::Value> {
        search(*self.0, k)
    }

    open spec fn compatible(k: E::Key, v: E::Value) -> bool {
        E::admits(k, v)
    }

    fn empty() -> (m: Self) {
        let m = UnbalancedMap(Tree::empty());
        proof {
            assert(search_wf(Tree::<E>::E));
            assert(forall|k: E::Key| search(Tree::<E>::E, k) is None);
        }
        m
    }

    fn bind(&self, k: E::Key, v: E::Value) -> (m: Self) {
        let e = E::make(k, v);
        match self.insert(e) {
            Ok(m) => m,
            Err(_) => UnbalancedMap(Rc::clone(&self.0)),
        }
    }

    fn lookup(&self, k: &E::Key) -> (r: Option<&E::Value>) {
        lookup_rec(&self.0, k)
    }
}

} // verus!
