//! Maps from paths to values: the part below a path, replacing the part
//! below a path, and the order of paths.

use vstd::prelude::*;
use crate::path_key::PathKey;

verus! {

/// The entries of `m` below `at`, addressed relative to `at`.
pub open spec fn subtree<A, V>(m: Map<Seq<A>, V>, at: Seq<A>) -> Map<Seq<A>, V> {
    Map::new(|q: Seq<A>| m.dom().contains(at + q), |q: Seq<A>| m[at + q])
}

/// `m` with everything at and below `at` replaced by the entries of `sub`.
pub open spec fn graft<A, V>(m: Map<Seq<A>, V>, at: Seq<A>, sub: Map<Seq<A>, V>) -> Map<
    Seq<A>,
    V,
> {
    Map::new(
        |p: Seq<A>|
            if at.is_prefix_of(p) {
                sub.dom().contains(p.skip(at.len() as int))
            } else {
                m.dom().contains(p)
            },
        |p: Seq<A>|
            if at.is_prefix_of(p) {
                sub[p.skip(at.len() as int)]
            } else {
                m[p]
            },
    )
}

/// Grafting at the empty path replaces everything.
pub proof fn lemma_graft_root<A, V>(m: Map<Seq<A>, V>, sub: Map<Seq<A>, V>)
    ensures
        graft(m, Seq::empty(), sub) == sub,
{
    let e = Seq::<A>::empty();
    assert forall|p: Seq<A>| e.is_prefix_of(p) && #[trigger] p.skip(0) == p by {}
}

/// Grafting what is there already changes nothing.
pub proof fn lemma_graft_same<A, V>(m: Map<Seq<A>, V>, p: Seq<A>)
    ensures
        graft(m, p, subtree(m, p)) == m,
{
    let g = graft(m, p, subtree(m, p));
    assert forall|r: Seq<A>| #[trigger] g.dom().contains(r) == m.dom().contains(r) && (
    g.dom().contains(r) ==> g[r] == m[r]) by {
        if p.is_prefix_of(r) {
            assert(p + r.skip(p.len() as int) =~= r);
        }
    }
}

/// Of two grafts at the same path the later one counts.
pub proof fn lemma_graft_twice<A, V>(
    m: Map<Seq<A>, V>,
    p: Seq<A>,
    x: Map<Seq<A>, V>,
    y: Map<Seq<A>, V>,
)
    ensures
        graft(graft(m, p, x), p, y) == graft(m, p, y),
{
}

/// Grafting below a graft is one graft at the joined path.
pub proof fn lemma_graft_nested<A, V>(
    m: Map<Seq<A>, V>,
    p: Seq<A>,
    q: Seq<A>,
    x: Map<Seq<A>, V>,
)
    ensures
        graft(m, p, graft(subtree(m, p), q, x)) == graft(m, p + q, x),
{
    let inner = graft(subtree(m, p), q, x);
    let lhs = graft(m, p, inner);
    let rhs = graft(m, p + q, x);
    assert forall|r: Seq<A>| #[trigger] lhs.dom().contains(r) == rhs.dom().contains(r) && (
    lhs.dom().contains(r) ==> lhs[r] == rhs[r]) by {
        if p.is_prefix_of(r) {
            let r1 = r.skip(p.len() as int);
            assert(p + r1 =~= r);
            if q.is_prefix_of(r1) {
                assert((p + q).is_prefix_of(r)) by {}
                assert(r1.skip(q.len() as int) =~= r.skip((p + q).len() as int));
            } else {
                if (p + q).is_prefix_of(r) {
                    assert forall|i: int| 0 <= i < q.len() implies q[i] == r1.subrange(
                        0,
                        q.len() as int,
                    )[i] by {
                        assert(q[i] == (p + q)[p.len() + i]);
                    }
                }
            }
        }
    }
}

/// Grafting a tree that differs from what was there in its own value
/// alone is setting one entry.
pub proof fn lemma_graft_value<A, V>(m: Map<Seq<A>, V>, p: Seq<A>, sub: Map<Seq<A>, V>, v: V)
    requires
        sub.dom().contains(Seq::empty()),
        sub[Seq::empty()] == v,
        forall|q: Seq<A>|
            q.len() > 0 ==> (#[trigger] sub.dom().contains(q) == m.dom().contains(p + q)) && (
            sub.dom().contains(q) ==> sub[q] == m[p + q]),
    ensures
        graft(m, p, sub) == m.insert(p, v),
{
    let lhs = graft(m, p, sub);
    let rhs = m.insert(p, v);
    assert forall|r: Seq<A>| #[trigger] lhs.dom().contains(r) == rhs.dom().contains(r) && (
    lhs.dom().contains(r) ==> lhs[r] == rhs[r]) by {
        if p.is_prefix_of(r) {
            let q = r.skip(p.len() as int);
            assert(p + q =~= r);
            if q.len() == 0 {
                assert(q =~= Seq::<A>::empty());
            }
        }
    }
}

/// The order of paths: key by key, with a path before every longer path
/// that begins with it.
pub open spec fn path_lt<K: PathKey>(a: Seq<K::V>, b: Seq<K::V>) -> bool
    decreases a.len(),
{
    if b.len() == 0 {
        false
    } else if a.len() == 0 {
        true
    } else if a[0] != b[0] {
        K::key_lt(a[0], b[0])
    } else {
        path_lt::<K>(a.drop_first(), b.drop_first())
    }
}

/// A path comes before every longer path that begins with it.
pub proof fn lemma_prefix_comes_first<K: PathKey>(a: Seq<K::V>, b: Seq<K::V>)
    requires
        a.is_prefix_of(b),
        a.len() < b.len(),
    ensures
        path_lt::<K>(a, b),
    decreases a.len(),
{
    if a.len() > 0 {
        lemma_prefix_comes_first::<K>(a.drop_first(), b.drop_first());
    }
}

/// Two paths that agree up to a position where their keys differ are
/// ordered as those keys are.
pub proof fn lemma_first_difference_decides<K: PathKey>(a: Seq<K::V>, b: Seq<K::V>, n: int)
    requires
        0 <= n < a.len(),
        n < b.len(),
        forall|t: int| 0 <= t < n ==> a[t] == b[t],
        K::key_lt(a[n], b[n]),
    ensures
        path_lt::<K>(a, b),
    decreases n,
{
    K::lemma_key_lt_irreflexive(a[n]);
    if n > 0 {
        assert forall|t: int| 0 <= t < n - 1 implies a.drop_first()[t] == b.drop_first()[t] by {}
        lemma_first_difference_decides::<K>(a.drop_first(), b.drop_first(), n - 1);
    }
}

/// No path comes before itself.
pub proof fn lemma_path_lt_irreflexive<K: PathKey>(a: Seq<K::V>)
    ensures
        !path_lt::<K>(a, a),
    decreases a.len(),
{
    if a.len() > 0 {
        lemma_path_lt_irreflexive::<K>(a.drop_first());
    }
}

} // verus!
