use vstd::prelude::*;

verus! {

/// A strict total order on values, usable both in contracts and in compiled code.
///
/// `a.below(b)` reads "a sorts strictly before b", that is, b outranks a. The
/// three proof functions are the laws every implementation has to prove; the
/// two executable methods decide the order and equality at run time.
pub trait Ranked: Sized {
    /// The order itself, as a mathematical relation.
    spec fn below(self, other: Self) -> bool;

    /// Nothing sorts before itself.
    proof fn law_irreflexive(a: Self)
        ensures
            !a.below(a),
    ;

    /// The order is transitive.
    proof fn law_transitive(a: Self, b: Self, c: Self)
        requires
            a.below(b),
            b.below(c),
        ensures
            a.below(c),
    ;

    /// Any two distinct values are ordered one way or the other.
    proof fn law_connected(a: Self, b: Self)
        ensures
            a.below(b) || b.below(a) || a == b,
    ;

    /// Decides `below` at run time.
    fn is_below(&self, other: &Self) -> (r: bool)
        ensures
            r == self.below(*other),
    ;

    /// Decides equality at run time.
    fn is_same(&self, other: &Self) -> (r: bool)
        ensures
            r == (*self == *other),
    ;
}

/// In a strict total order no two values sort before each other.
pub proof fn lemma_asymmetric<T: Ranked>(a: T, b: T)
    requires
        a.below(b),
    ensures
        !b.below(a),
        a != b,
{
    T::law_irreflexive(a);
    if b.below(a) {
        T::law_transitive(a, b, a);
    }
}

impl Ranked for u32 {
    open spec fn below(self, other: Self) -> bool {
        self < other
    }

    proof fn law_irreflexive(a: Self) {
    }

    proof fn law_transitive(a: Self, b: Self, c: Self) {
    }

    proof fn law_connected(a: Self, b: Self) {
    }

    fn is_below(&self, other: &Self) -> (r: bool) {
        *self < *other
    }

    fn is_same(&self, other: &Self) -> (r: bool) {
        *self == *other
    }
}

impl Ranked for u64 {
    open spec fn below(self, other: Self) -> bool {
        self < other
    }

    proof fn law_irreflexive(a: Self) {
    }

    proof fn law_transitive(a: Self, b: Self, c: Self) {
    }

    proof fn law_connected(a: Self, b: Self) {
    }

    fn is_below(&self, other: &Self) -> (r: bool) {
        *self < *other
    }

    fn is_same(&self, other: &Self) -> (r: bool) {
        *self == *other
    }
}

impl Ranked for usize {
    open spec fn below(self, other: Self) -> bool {
        self < other
    }

    proof fn law_irreflexive(a: Self) {
    }

    proof fn law_transitive(a: Self, b: Self, c: Self) {
    }

    proof fn law_connected(a: Self, b: Self) {
    }

    fn is_below(&self, other: &Self) -> (r: bool) {
        *self < *other
    }

    fn is_same(&self, other: &Self) -> (r: bool) {
        *self == *other
    }
}

impl Ranked for i32 {
    open spec fn below(self, other: Self) -> bool {
        self < other
    }

    proof fn law_irreflexive(a: Self) {
    }

    proof fn law_transitive(a: Self, b: Self, c: Self) {
    }

    proof fn law_connected(a: Self, b: Self) {
    }

    fn is_below(&self, other: &Self) -> (r: bool) {
        *self < *other
    }

    fn is_same(&self, other: &Self) -> (r: bool) {
        *self == *other
    }
}

impl Ranked for i64 {
    open spec fn below(self, other: Self) -> bool {
        self < other
    }

    proof fn law_irreflexive(a: Self) {
    }

    proof fn law_transitive(a: Self, b: Self, c: Self) {
    }

    proof fn law_connected(a: Self, b: Self) {
    }

    fn is_below(&self, other: &Self) -> (r: bool) {
        *self < *other
    }

    fn is_same(&self, other: &Self) -> (r: bool) {
        *self == *other
    }
}

} // verus!
