//! A total order as a capability: the search tree, the map and the heap
//! compare keys only through this trait, and their invariants rest on the
//! order laws it demands.
use vstd::prelude::*;

verus! {

/// A totally ordered, freely copyable key type.
///
/// `le` is the mathematical order; `le_exec` decides it. The two proof
/// obligations make `le` a total preorder; implementors need not relate
/// the order to spec equality, so two distinct values may compare as
/// equivalent (see [`key_eq`]).
pub trait Ordered: Sized + Copy {
    spec fn le(self, other: Self) -> bool;

    proof fn lemma_total(x: Self, y: Self)
        ensures
            x.le(y) || y.le(x),
    ;

    proof fn lemma_transitive(x: Self, y: Self, z: Self)
        requires
            x.le(y),
            y.le(z),
        ensures
            x.le(z),
    ;

    fn le_exec(&self, other: &Self) -> (r: bool)
        ensures
            r == self.le(*other),
    ;
}

/// Strictly below: `b` does not come before `a`.
pub open spec fn key_lt<K: Ordered>(a: K, b: K) -> bool {
    !b.le(a)
}

/// Equivalent under the order (each comes before the other).
pub open spec fn key_eq<K: Ordered>(a: K, b: K) -> bool {
    a.le(b) && b.le(a)
}

pub proof fn lemma_lt_implies_le<K: Ordered>(a: K, b: K)
    requires
        key_lt(a, b),
    ensures
        a.le(b),
        !key_eq(a, b),
{
    K::lemma_total(a, b);
}

/// `a <= b < c` implies `a < c`.
pub proof fn lemma_le_lt<K: Ordered>(a: K, b: K, c: K)
    requires
        a.le(b),
        key_lt(b, c),
    ensures
        key_lt(a, c),
{
    if c.le(a) {
        K::lemma_transitive(c, a, b);
    }
}

/// `a < b <= c` implies `a < c`.
pub proof fn lemma_lt_le<K: Ordered>(a: K, b: K, c: K)
    requires
        key_lt(a, b),
        b.le(c),
    ensures
        key_lt(a, c),
{
    if c.le(a) {
        K::lemma_transitive(b, c, a);
    }
}

pub proof fn lemma_lt_trans<K: Ordered>(a: K, b: K, c: K)
    requires
        key_lt(a, b),
        key_lt(b, c),
    ensures
        key_lt(a, c),
{
    lemma_lt_implies_le(a, b);
    lemma_le_lt(a, b, c);
}

impl Ordered for u8 {
    open spec fn le(self, other: Self) -> bool {
        self <= other
    }

    proof fn lemma_total(x: Self, y: Self) {
    }

    proof fn lemma_transitive(x: Self, y: Self, z: Self) {
    }

    fn le_exec(&self, other: &Self) -> (r: bool) {
        *self <= *other
    }
}

impl Ordered for u64 {
    open spec fn le(self, other: Self) -> bool {
        self <= other
    }

    proof fn lemma_total(x: Self, y: Self) {
    }

    proof fn lemma_transitive(x: Self, y: Self, z: Self) {
    }

    fn le_exec(&self, other: &Self) -> (r: bool) {
        *self <= *other
    }
}

/// Lexicographic order on character sequences, by code point.
pub open spec fn lex_le(a: Seq<char>, b: Seq<char>) -> bool
    decreases a.len(),
{
    if a.len() == 0 {
        true
    } else if b.len() == 0 {
        false
    } else if a[0] == b[0] {
        lex_le(a.skip(1), b.skip(1))
    } else {
        (a[0] as int) < (b[0] as int)
    }
}

proof fn lemma_lex_total(a: Seq<char>, b: Seq<char>)
    ensures
        lex_le(a, b) || lex_le(b, a),
    decreases a.len(),
{
    if a.len() == 0 {
    } else if b.len() == 0 {
    } else if a[0] == b[0] {
        lemma_lex_total(a.skip(1), b.skip(1));
    }
}

proof fn lemma_lex_trans(a: Seq<char>, b: Seq<char>, c: Seq<char>)
    requires
        lex_le(a, b),
        lex_le(b, c),
    ensures
        lex_le(a, c),
    decreases a.len(),
{
    if a.len() == 0 {
    } else {
        if a[0] == b[0] && b[0] == c[0] {
            lemma_lex_trans(a.skip(1), b.skip(1), c.skip(1));
        }
    }
}

/// Relies on `str`'s comparison operators: strings are documented to be
/// ordered lexicographically by their UTF-8 byte values, which coincides
/// with lexicographic order over their code points.
#[verifier::external_body]
fn str_le(a: &str, b: &str) -> (r: bool)
    ensures
        r == lex_le(a@, b@),
{
    a <= b
}

impl<'a> Ordered for &'a str {
    open spec fn le(self, other: Self) -> bool {
        lex_le(self@, other@)
    }

    proof fn lemma_total(x: Self, y: Self) {
        lemma_lex_total(x@, y@);
    }

    proof fn lemma_transitive(x: Self, y: Self, z: Self) {
        lemma_lex_trans(x@, y@, z@);
    }

    fn le_exec(&self, other: &Self) -> (r: bool) {
        str_le(*self, *other)
    }
}

impl Ordered for i32 {
    open spec fn le(self, other: Self) -> bool {
        self <= other
    }

    proof fn lemma_total(x: Self, y: Self) {
    }

    proof fn lemma_transitive(x: Self, y: Self, z: Self) {
    }

    fn le_exec(&self, other: &Self) -> (r: bool) {
        *self <= *other
    }
}

impl Ordered for i64 {
    open spec fn le(self, other: Self) -> bool {
        self <= other
    }

    proof fn lemma_total(x: Self, y: Self) {
    }

    proof fn lemma_transitive(x: Self, y: Self, z: Self) {
    }

    fn le_exec(&self, other: &Self) -> (r: bool) {
        *self <= *other
    }
}

} // verus!
