//! The record of the names that a resolution pass could not resolve.

use vstd::prelude::*;
use crate::global_ident::{
    ident_lt, lemma_ident_lt_irreflexive, lemma_ident_lt_transitive, GlobalIdent,
};
use crate::ident_set::{increasing, IdentSet};
use crate::model::UnresolvedCtx;
use crate::path_key::KeyOrder;

verus! {

/// The model of an `UnresolvedCtx`: the scopes in which a name was looked
/// for, and the declarations that asked for it.
pub struct UnresolvedCtxView {
    pub scopes: Set<Seq<Seq<char>>>,
    pub requestors: Set<Seq<Seq<char>>>,
}

impl View for UnresolvedCtx {
    type V = UnresolvedCtxView;

    open spec fn view(&self) -> UnresolvedCtxView {
        UnresolvedCtxView { scopes: self.scopes.set(), requestors: self.requestors.set() }
    }
}

/// The model of the record: who failed on each name that was not resolved.
pub type UnresolvedView = Map<Seq<Seq<char>>, UnresolvedCtxView>;

/// The record `m` after `requestor`, looking in `scope`, failed on `key`.
pub open spec fn recorded(
    m: UnresolvedView,
    key: Seq<Seq<char>>,
    scope: Seq<Seq<char>>,
    requestor: Seq<Seq<char>>,
) -> UnresolvedView {
    let before = if m.dom().contains(key) {
        m[key]
    } else {
        UnresolvedCtxView { scopes: Set::empty(), requestors: Set::empty() }
    };
    m.insert(
        key,
        UnresolvedCtxView {
            scopes: before.scopes.insert(scope),
            requestors: before.requestors.insert(requestor),
        },
    )
}

/// The order in which failures are recorded does not matter.
pub proof fn lemma_recorded_commutes(
    m: UnresolvedView,
    k1: Seq<Seq<char>>,
    s1: Seq<Seq<char>>,
    r1: Seq<Seq<char>>,
    k2: Seq<Seq<char>>,
    s2: Seq<Seq<char>>,
    r2: Seq<Seq<char>>,
)
    ensures
        recorded(recorded(m, k1, s1, r1), k2, s2, r2) == recorded(
            recorded(m, k2, s2, r2),
            k1,
            s1,
            r1,
        ),
{
    let a = recorded(recorded(m, k1, s1, r1), k2, s2, r2);
    let b = recorded(recorded(m, k2, s2, r2), k1, s1, r1);
    assert forall|k: Seq<Seq<char>>| a.dom().contains(k) implies a[k] == b[k] by {
        assert(a[k].scopes =~= b[k].scopes);
        assert(a[k].requestors =~= b[k].requestors);
    }
}

/// Recording the same failure twice is recording it once.
pub proof fn lemma_recorded_idempotent(
    m: UnresolvedView,
    k: Seq<Seq<char>>,
    s: Seq<Seq<char>>,
    r: Seq<Seq<char>>,
)
    ensures
        recorded(recorded(m, k, s, r), k, s, r) == recorded(m, k, s, r),
{
    let a = recorded(recorded(m, k, s, r), k, s, r);
    let b = recorded(m, k, s, r);
    assert(a[k].scopes =~= b[k].scopes);
    assert(a[k].requestors =~= b[k].requestors);
}

/// The names that were not resolved, each with who failed on it, kept in
/// the order of the names.
#[derive(Debug)]
pub struct UnresolvedMap {
    keys: Vec<GlobalIdent>,
    ctxs: Vec<UnresolvedCtx>,
}

/// The names held by a sequence of identifiers.
pub open spec fn names(s: Seq<GlobalIdent>) -> Seq<Seq<Seq<char>>> {
    s.map_values(|g: GlobalIdent| g@)
}

impl UnresolvedMap {
    #[verifier::type_invariant]
    spec fn ordered(&self) -> bool {
        &&& self.keys@.len() == self.ctxs@.len()
        &&& increasing(names(self.keys@))
    }

    /// The names on record, smallest first.
    pub closed spec fn key_seq(&self) -> Seq<Seq<Seq<char>>> {
        names(self.keys@)
    }

    /// What is on record for the name at position `i`.
    pub closed spec fn ctx_at(&self, i: int) -> UnresolvedCtxView {
        self.ctxs@[i]@
    }

    /// The record as a map from names to who failed on them.
    pub open spec fn view(&self) -> UnresolvedView {
        Map::new(
            |k: Seq<Seq<char>>| self.key_seq().contains(k),
            |k: Seq<Seq<char>>| self.ctx_at(self.key_seq().index_of(k)),
        )
    }

    /// The empty record.
    pub fn new() -> (r: UnresolvedMap)
        ensures
            r@ == Map::<Seq<Seq<char>>, UnresolvedCtxView>::empty(),
    {
        let r = UnresolvedMap { keys: Vec::new(), ctxs: Vec::new() };
        r
    }

    /// The number of names on record.
    pub fn len(&self) -> (r: usize)
        ensures
            r == self.key_seq().len(),
    {
        self.keys.len()
    }

    /// The names on record, smallest first.
    pub fn keys(&self) -> (r: &[GlobalIdent])
        ensures
            names(r@) == self.key_seq(),
            increasing(self.key_seq()),
    {
        proof {
            use_type_invariant(self);
        }
        self.keys.as_slice()
    }

    /// Where `key` stands in the record, or where it would have to go.
    fn locate(&self, key: &GlobalIdent) -> (r: (bool, usize))
        ensures
            increasing(self.key_seq()),
            self.keys@.len() == self.ctxs@.len(),
            r.1 <= self.keys@.len(),
            r.0 == self.key_seq().contains(key@),
            r.0 ==> r.1 < self.keys@.len() && self.key_seq()[r.1 as int] == key@
                && self.key_seq().index_of(key@) == r.1,
            !r.0 ==> forall|j: int| 0 <= j < r.1 ==> ident_lt(#[trigger] self.key_seq()[j], key@),
            !r.0 ==> forall|j: int|
                r.1 <= j < self.keys@.len() ==> ident_lt(key@, #[trigger] self.key_seq()[j]),
    {
        proof {
            use_type_invariant(self);
        }
        let ghost ks = self.key_seq();
        let mut i: usize = 0;
        while i < self.keys.len()
            invariant
                ks == self.key_seq(),
                increasing(ks),
                self.keys@.len() == self.ctxs@.len(),
                0 <= i <= self.keys@.len(),
                forall|j: int| 0 <= j < i ==> ident_lt(#[trigger] ks[j], key@),
            decreases self.keys@.len() - i,
        {
            assert(ks[i as int] == self.keys@[i as int]@);
            match self.keys[i].compare(key) {
                KeyOrder::Less => {},
                KeyOrder::Equal => {
                    proof {
                        lemma_distinct(ks);
                    }
                    return (true, i);
                },
                KeyOrder::Greater => {
                    proof {
                        lemma_ident_lt_irreflexive(key@);
                        assert forall|j: int| i <= j < ks.len() implies ident_lt(
                            key@,
                            #[trigger] ks[j],
                        ) by {
                            if j > i {
                                lemma_ident_lt_transitive(key@, ks[i as int], ks[j]);
                            }
                        }
                    }
                    return (false, i);
                },
            }
            i += 1;
        }
        proof {
            lemma_ident_lt_irreflexive(key@);
        }
        (false, i)
    }

    /// What is on record for `key`, if anything.
    pub fn get(&self, key: &GlobalIdent) -> (r: Option<&UnresolvedCtx>)
        ensures
            r is Some <==> self@.dom().contains(key@),
            r matches Some(c) ==> c@ == self@[key@],
    {
        let (found, idx) = self.locate(key);
        if found {
            Some(&self.ctxs[idx])
        } else {
            None
        }
    }

    /// Puts on record that `requestor`, looking in `scope`, failed on
    /// `key`.
    pub fn record(&mut self, key: GlobalIdent, scope: GlobalIdent, requestor: GlobalIdent)
        ensures
            final(self)@ == recorded(old(self)@, key@, scope@, requestor@),
    {
        let (found, idx) = self.locate(&key);
        let ghost before = *self;
        let ghost ks = self.key_seq();
        let mut taken = UnresolvedMap::new();
        std::mem::swap(self, &mut taken);
        let UnresolvedMap { mut keys, mut ctxs } = taken;
        if !found {
            keys.insert(idx, key);
            ctxs.insert(idx, UnresolvedCtx { scopes: IdentSet::new(), requestors: IdentSet::new() });
            proof {
                assert(names(keys@) =~= ks.insert(idx as int, key@));
                assert(ctxs@[idx as int]@.scopes =~= Set::empty());
                assert(ctxs@[idx as int]@.requestors =~= Set::empty());
            }
        }
        let ctx = &mut ctxs[idx];
        ctx.scopes.insert(scope);
        ctx.requestors.insert(requestor);
        *self = UnresolvedMap { keys, ctxs };
        proof {
            let target = recorded(before@, key@, scope@, requestor@);
            let now = self.key_seq();
            lemma_distinct(now);
            lemma_distinct(ks);
            assert(now[idx as int] == key@);
            assert forall|k: Seq<Seq<char>>| #[trigger]
                self@.dom().contains(k) == target.dom().contains(k) by {
                if !found {
                    if ks.contains(k) {
                        let j = ks.index_of(k);
                        if j < idx {
                            assert(now[j] == k);
                        } else {
                            assert(now[j + 1] == k);
                        }
                    }
                }
            }
        }
    }
}

/// In a strictly increasing sequence every name has one position.
pub proof fn lemma_distinct(s: Seq<Seq<Seq<char>>>)
    requires
        increasing(s),
    ensures
        forall|i: int, j: int| 0 <= i < s.len() && 0 <= j < s.len() && #[trigger] s[i] == #[trigger] s[j] ==> i == j,
        forall|i: int| 0 <= i < s.len() ==> s.index_of(#[trigger] s[i]) == i,
{
    assert forall|i: int, j: int|
        0 <= i < s.len() && 0 <= j < s.len() && #[trigger] s[i] == #[trigger] s[j] implies i
        == j by {
        lemma_ident_lt_irreflexive(s[i]);
    }
    assert forall|i: int| 0 <= i < s.len() implies s.index_of(#[trigger] s[i]) == i by {}
}

} // verus!
