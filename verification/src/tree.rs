//! The persistent binary tree shared by every structure in this crate.
//!
//! Constructors return reference-counted nodes; `node` takes two existing
//! subtrees by reference and clones only the handles, so trees built from
//! common subtrees share them instead of copying.
use vstd::prelude::*;

verus! {

use std::rc::Rc;
use vstd::arithmetic::power2::pow2;

/// A persistent binary tree: empty, or a node with two shared subtrees.
#[derive(Debug)]
pub enum Tree<E> {
    E,
    T(Rc<Tree<E>>, E, Rc<Tree<E>>),
}

impl<E> Tree<E> {
    /// Number of nodes.
    pub open spec fn size(self) -> nat
        decreases self,
    {
        match self {
            Tree::E => 0,
            Tree::T(l, _, r) => 1 + (*l).size() + (*r).size(),
        }
    }

    /// Number of levels: one more than the taller child's height.
    pub open spec fn height(self) -> nat
        decreases self,
    {
        match self {
            Tree::E => 0,
            Tree::T(l, _, r) => 1 + if (*l).height() >= (*r).height() {
                (*l).height()
            } else {
                (*r).height()
            },
        }
    }

    /// The values in left-to-right (in-order) order.
    pub open spec fn items(self) -> Seq<E>
        decreases self,
    {
        match self {
            Tree::E => Seq::empty(),
            Tree::T(l, x, r) => (*l).items() + seq![x] + (*r).items(),
        }
    }

    /// Every value in the tree is `v`.
    pub open spec fn uniform(self, v: E) -> bool
        decreases self,
    {
        match self {
            Tree::E => true,
            Tree::T(l, x, r) => x == v && (*l).uniform(v) && (*r).uniform(v),
        }
    }

    /// At every node the children's sizes differ by at most one,
    /// the left child never being the smaller.
    pub open spec fn balanced(self) -> bool
        decreases self,
    {
        match self {
            Tree::E => true,
            Tree::T(l, _, r) => (*l).balanced() && (*r).balanced() && ((*l).size() == (*r).size()
                || (*l).size() == (*r).size() + 1),
        }
    }

    pub fn empty() -> (t: Rc<Self>)
        ensures
            *t == Tree::<E>::E,
    {
        Rc::new(Tree::E)
    }

    pub fn leaf(x: E) -> (t: Rc<Self>)
        ensures
            (*t) matches Tree::T(l, v, r) && *l == Tree::<E>::E && v == x && *r == Tree::<E>::E,
            (*t).size() == 1,
            (*t).items() == seq![x],
    {
        let t = Rc::new(Tree::T(Tree::empty(), x, Tree::empty()));
        proof {
            assert(Tree::<E>::E.items() == Seq::<E>::empty());
            assert(Tree::<E>::E.size() == 0);
            assert((*t).items() =~= seq![x]);
        }
        t
    }

    pub fn node(left: &Rc<Self>, x: E, right: &Rc<Self>) -> (t: Rc<Self>)
        ensures
            (*t) matches Tree::T(l, v, r) && l == *left && v == x && r == *right,
            (*t).size() == 1 + (**left).size() + (**right).size(),
            (*t).items() == (**left).items() + seq![x] + (**right).items(),
    {
        Rc::new(Tree::T(Rc::clone(left), x, Rc::clone(right)))
    }
}

/// Read access to a tree: the root value, the two children, and the
/// tree's node count and height.
pub trait BinaryTree: Sized {
    type Item;

    /// `None` for an empty tree, the root value otherwise.
    spec fn root_value(self) -> Option<Self::Item>;

    /// `None` for an empty tree, the left subtree otherwise.
    spec fn left_child(self) -> Option<Self>;

    /// `None` for an empty tree, the right subtree otherwise.
    spec fn right_child(self) -> Option<Self>;

    spec fn node_count(self) -> nat;

    spec fn height_of(self) -> nat;

    fn value(&self) -> (r: Option<&Self::Item>)
        ensures
            match r {
                Some(v) => self.root_value() == Some(*v),
                None => self.root_value() is None,
            },
    ;

    fn left(&self) -> (r: Option<Rc<Self>>)
        ensures
            match r {
                Some(l) => self.left_child() == Some(*l),
                None => self.left_child() is None,
            },
    ;

    fn right(&self) -> (r: Option<Rc<Self>>)
        ensures
            match r {
                Some(l) => self.right_child() == Some(*l),
                None => self.right_child() is None,
            },
    ;

    fn count(&self) -> (n: usize)
        requires
            self.node_count() <= usize::MAX,
        ensures
            n == self.node_count(),
    ;

    fn depth(&self) -> (n: usize)
        requires
            self.height_of() <= usize::MAX,
        ensures
            n == self.height_of(),
    ;
}

fn count_rec<E>(t: &Tree<E>) -> (n: usize)
    requires
        t.size() <= usize::MAX,
    ensures
        n == t.size(),
    decreases *t,
{
    match t {
        Tree::E => 0,
        Tree::T(l, _, r) => {
            let a = count_rec(&**l);
            let b = count_rec(&**r);
            1 + a + b
        },
    }
}

fn depth_rec<E>(t: &Tree<E>) -> (n: usize)
    requires
        t.height() <= usize::MAX,
    ensures
        n == t.height(),
    decreases *t,
{
    match t {
        Tree::E => 0,
        Tree::T(l, _, r) => {
            let a = depth_rec(&**l);
            let b = depth_rec(&**r);
            if a >= b {
                a + 1
            } else {
                b + 1
            }
        },
    }
}

impl<E> BinaryTree for Tree<E> {
    type Item = E;

    open spec fn root_value(self) -> Option<E> {
        match self {
            Tree::E => None,
            Tree::T(_, x, _) => Some(x),
        }
    }

    open spec fn left_child(self) -> Option<Tree<E>> {
        match self {
            Tree::E => None,
            Tree::T(l, _, _) => Some(*l),
        }
    }

    open spec fn right_child(self) -> Option<Tree<E>> {
        match self {
            Tree::E => None,
            Tree::T(_, _, r) => Some(*r),
        }
    }

    open spec fn node_count(self) -> nat {
        self.size()
    }

    open spec fn height_of(self) -> nat {
        self.height()
    }

    fn value(&self) -> (r: Option<&E>) {
        match self {
            Tree::E => None,
            Tree::T(_, x, _) => Some(x),
        }
    }

    fn left(&self) -> (r: Option<Rc<Self>>) {
        match self {
            Tree::E => None,
            Tree::T(l, _, _) => Some(Rc::clone(l)),
        }
    }

    fn right(&self) -> (r: Option<Rc<Self>>) {
        match self {
            Tree::E => None,
            Tree::T(_, _, r) => Some(Rc::clone(r)),
        }
    }

    fn count(&self) -> (n: usize) {
        count_rec(self)
    }

    fn depth(&self) -> (n: usize) {
        depth_rec(self)
    }
}

/// The tree of height `d` in which every level is full and every value is `v`.
pub open spec fn is_complete<E>(t: Tree<E>, d: nat, v: E) -> bool
    decreases t,
{
    match t {
        Tree::E => d == 0,
        Tree::T(l, x, r) => d > 0 && x == v && is_complete(*l, (d - 1) as nat, v)
            && is_complete(*r, (d - 1) as nat, v),
    }
}

/// A complete tree of height `d` holds the value at every node, reaches
/// exactly that height, and has `2^d - 1` nodes.
pub proof fn lemma_complete_measures<E>(t: &Tree<E>, d: nat, v: E)
    requires
        is_complete(*t, d, v),
    ensures
        (*t).height() == d,
        (*t).size() == pow2(d) - 1,
        (*t).uniform(v),
    decreases *t,
{
    match t {
        Tree::E => {
            assert(pow2(0) == 1) by {
                vstd::arithmetic::power2::lemma_pow2_unfold(1);
                vstd::arithmetic::power2::lemma_pow2_pos(1);
                assert(pow2(1) == 2 * pow2(0));
                vstd::arithmetic::power2::lemma_pow2(0);
                vstd::arithmetic::power::lemma_pow0(2);
            }
        },
        Tree::T(l, e, r) => {
            lemma_complete_measures(&**l, (d - 1) as nat, v);
            lemma_complete_measures(&**r, (d - 1) as nat, v);
            vstd::arithmetic::power2::lemma_pow2_unfold(d);
            vstd::arithmetic::power2::lemma_pow2_pos((d - 1) as nat);
        },
    }
}

/// Builds a complete tree of height `depth`, every node holding `value`,
/// in `depth` doubling steps: each level reuses the previous tree as both
/// children, so only `depth` nodes are allocated.
pub fn complete<E: Copy>(depth: usize, value: E) -> (t: Rc<Tree<E>>)
    requires
        depth >= 1,
    ensures
        is_complete(*t, depth as nat, value),
        (*t).height() == depth,
        (*t).size() == pow2(depth as nat) - 1,
        (*t).uniform(value),
{
    let mut t = Tree::leaf(value);
    let mut i: usize = 1;
    proof {
        assert(is_complete(Tree::<E>::E, 0, value));
        assert(is_complete(*t, 1, value));
    }
    while i < depth
        invariant
            1 <= i <= depth,
            is_complete(*t, i as nat, value),
        decreases depth - i,
    {
        t = Tree::node(&t, value, &t);
        i = i + 1;
    }
    proof {
        lemma_complete_measures(&*t, depth as nat, value);
    }
    t
}

/// Builds a tree with exactly `size` nodes, balanced to within one node
/// at every level, every node holding `value`. An odd split shares one
/// subtree as both children; an even split builds subtrees of `m + 1`
/// and `m` nodes where `m = (size - 1) / 2`.
pub fn tree_of<E: Copy>(size: usize, value: E) -> (t: Rc<Tree<E>>)
    ensures
        (*t).size() == size,
        (*t).balanced(),
        (*t).uniform(value),
    decreases size,
{
    if size == 0 {
        let t = Tree::empty();
        proof {
            assert(Tree::<E>::E.balanced() && Tree::<E>::E.uniform(value));
        }
        t
    } else if size == 1 {
        let t = Tree::leaf(value);
        proof {
            assert(Tree::<E>::E.balanced() && Tree::<E>::E.uniform(value));
            assert((*t).balanced() && (*t).uniform(value));
        }
        t
    } else if size % 2 == 0 {
        let m = (size - 1) / 2;
        let larger = tree_of(m + 1, value);
        let smaller = tree_of(m, value);
        let t = Tree::node(&larger, value, &smaller);
        proof {
            assert(m + 1 + m + 1 == size);
            assert((*t).balanced() && (*t).uniform(value));
        }
        t
    } else {
        let m = (size - 1) / 2;
        let sub = tree_of(m, value);
        let t = Tree::node(&sub, value, &sub);
        proof {
            assert(m + m + 1 == size);
            assert((*t).balanced() && (*t).uniform(value));
        }
        t
    }
}

} // verus!
