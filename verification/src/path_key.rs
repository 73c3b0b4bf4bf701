//! What a type must offer to serve as one segment of a tree path.

use vstd::prelude::*;

verus! {

/// Outcome of comparing two keys.
#[derive(Clone, Copy, Debug, PartialEq, Eq, Structural)]
pub enum KeyOrder {
    Less,
    Equal,
    Greater,
}

/// A key of the path tree: a value with a mathematical identity (its view)
/// and a strict total order on those identities.
///
/// Two keys denote the same tree edge exactly when their views are equal.
pub trait PathKey: View + Sized {
    /// The strict order by which sibling nodes are arranged.
    spec fn key_lt(a: Self::V, b: Self::V) -> bool;

    /// No key precedes itself.
    proof fn lemma_key_lt_irreflexive(a: Self::V)
        ensures
            !Self::key_lt(a, a),
    ;

    /// The order is transitive.
    proof fn lemma_key_lt_transitive(a: Self::V, b: Self::V, c: Self::V)
        requires
            Self::key_lt(a, b),
            Self::key_lt(b, c),
        ensures
            Self::key_lt(a, c),
    ;

    /// Any two distinct keys are ordered one way or the other.
    proof fn lemma_key_lt_total(a: Self::V, b: Self::V)
        ensures
            Self::key_lt(a, b) || a == b || Self::key_lt(b, a),
    ;

    /// Three-way comparison agreeing with `key_lt`.
    fn compare(&self, other: &Self) -> (o: KeyOrder)
        ensures
            o == KeyOrder::Less <==> Self::key_lt(self@, other@),
            o == KeyOrder::Equal <==> self@ == other@,
            o == KeyOrder::Greater <==> Self::key_lt(other@, self@),
    ;

    /// A fresh key with the same identity.
    fn duplicate(&self) -> (r: Self)
        ensures
            r@ == self@,
    ;
}

/// The identities of a sequence of keys.
pub open spec fn key_views<K: View>(path: Seq<K>) -> Seq<K::V> {
    path.map_values(|k: K| k@)
}

impl PathKey for usize {
    open spec fn key_lt(a: usize, b: usize) -> bool {
        a < b
    }

    proof fn lemma_key_lt_irreflexive(a: usize) {
    }

    proof fn lemma_key_lt_transitive(a: usize, b: usize, c: usize) {
    }

    proof fn lemma_key_lt_total(a: usize, b: usize) {
    }

    fn compare(&self, other: &Self) -> (o: KeyOrder) {
        if *self < *other {
            KeyOrder::Less
        } else if *self == *other {
            KeyOrder::Equal
        } else {
            KeyOrder::Greater
        }
    }

    fn duplicate(&self) -> (r: Self) {
        *self
    }
}

} // verus!
