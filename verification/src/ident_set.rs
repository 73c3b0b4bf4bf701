//! Ordered sets of qualified names.

use vstd::prelude::*;
use crate::global_ident::{
    ident_lt, lemma_ident_lt_irreflexive, lemma_ident_lt_transitive, GlobalIdent,
};
use crate::path_key::KeyOrder;

verus! {

/// Whether the names of `s` stand in strictly increasing order.
pub open spec fn increasing(s: Seq<Seq<Seq<char>>>) -> bool {
    forall|i: int, j: int| 0 <= i < j < s.len() ==> ident_lt(#[trigger] s[i], #[trigger] s[j])
}

/// The increasing sequence `s` with `x` put in its place, unless it is
/// there already.
pub open spec fn sorted_insert(s: Seq<Seq<Seq<char>>>, x: Seq<Seq<char>>) -> Seq<Seq<Seq<char>>>
    decreases s.len(),
{
    if s.len() == 0 {
        seq![x]
    } else if s.last() == x {
        s
    } else if ident_lt(s.last(), x) {
        s.push(x)
    } else {
        sorted_insert(s.drop_last(), x).push(s.last())
    }
}

/// Inserting a new name at the position that the order gives it is
/// `sorted_insert`.
proof fn lemma_sorted_insert_at(s: Seq<Seq<Seq<char>>>, x: Seq<Seq<char>>, idx: int)
    requires
        increasing(s),
        0 <= idx <= s.len(),
        forall|j: int| 0 <= j < idx ==> ident_lt(#[trigger] s[j], x),
        forall|j: int| idx <= j < s.len() ==> ident_lt(x, #[trigger] s[j]),
    ensures
        sorted_insert(s, x) == s.insert(idx, x),
    decreases s.len(),
{
    lemma_ident_lt_irreflexive(x);
    if s.len() == 0 {
    } else if idx == s.len() {
    } else {
        let last = s.last();
        if ident_lt(last, x) {
            lemma_ident_lt_transitive(x, last, x);
        }
        let front = s.drop_last();
        assert forall|j: int| 0 <= j < idx implies ident_lt(#[trigger] front[j], x) by {}
        assert forall|j: int| idx <= j < front.len() implies ident_lt(x, #[trigger] front[j]) by {}
        lemma_sorted_insert_at(front, x, idx);
    }
}

/// Inserting a name that is there changes nothing.
proof fn lemma_sorted_insert_present(s: Seq<Seq<Seq<char>>>, x: Seq<Seq<char>>, idx: int)
    requires
        increasing(s),
        0 <= idx < s.len(),
        s[idx] == x,
    ensures
        sorted_insert(s, x) == s,
    decreases s.len(),
{
    if idx != s.len() - 1 {
        let last = s.last();
        lemma_ident_lt_irreflexive(x);
        if ident_lt(last, x) {
            lemma_ident_lt_transitive(x, last, x);
        }
        let front = s.drop_last();
        lemma_sorted_insert_present(front, x, idx);
    }
}

/// The names held by a sequence of identifiers.
pub open spec fn ident_views(s: Seq<GlobalIdent>) -> Seq<Seq<Seq<char>>> {
    s.map_values(|g: GlobalIdent| g@)
}

/// A set of qualified names, kept in increasing order.
#[derive(Debug)]
pub struct IdentSet {
    items: Vec<GlobalIdent>,
}

impl View for IdentSet {
    type V = Seq<Seq<Seq<char>>>;

    /// The names of the set, smallest first.
    closed spec fn view(&self) -> Seq<Seq<Seq<char>>> {
        ident_views(self.items@)
    }
}

impl IdentSet {
    /// The invariant of the set: its names stand in strictly increasing
    /// order, so that none occurs twice.
    #[verifier::type_invariant]
    spec fn ordered(&self) -> bool {
        increasing(ident_views(self.items@))
    }

    /// Whether the set holds `name`.
    pub open spec fn has(&self, name: Seq<Seq<char>>) -> bool {
        self@.contains(name)
    }

    /// The names of the set, as a mathematical set.
    pub open spec fn set(&self) -> Set<Seq<Seq<char>>> {
        self@.to_set()
    }

    /// The empty set.
    pub fn new() -> (r: IdentSet)
        ensures
            r@.len() == 0,
    {
        IdentSet { items: Vec::new() }
    }

    /// The number of names in the set.
    pub fn len(&self) -> (r: usize)
        ensures
            r == self@.len(),
    {
        self.items.len()
    }

    /// Whether the set is empty.
    pub fn is_empty(&self) -> (r: bool)
        ensures
            r == (self@.len() == 0),
    {
        self.items.len() == 0
    }

    /// The names of the set, smallest first.
    pub fn as_slice(&self) -> (r: &[GlobalIdent])
        ensures
            ident_views(r@) == self@,
            increasing(self@),
    {
        proof {
            use_type_invariant(self);
        }
        self.items.as_slice()
    }

    /// Where `name` stands in the set, or where it would have to go.
    fn locate(&self, name: &GlobalIdent) -> (r: (bool, usize))
        ensures
            increasing(self@),
            r.1 <= self@.len(),
            r.0 == self.has(name@),
            r.0 ==> r.1 < self@.len() && self@[r.1 as int] == name@,
            !r.0 ==> forall|j: int| 0 <= j < r.1 ==> ident_lt(#[trigger] self@[j], name@),
            !r.0 ==> forall|j: int| r.1 <= j < self@.len() ==> ident_lt(name@, #[trigger] self@[j]),
    {
        proof {
            use_type_invariant(self);
        }
        let mut i: usize = 0;
        while i < self.items.len()
            invariant
                increasing(self@),
                0 <= i <= self.items@.len(),
                forall|j: int| 0 <= j < i ==> ident_lt(#[trigger] self@[j], name@),
            decreases self.items@.len() - i,
        {
            assert(self@[i as int] == self.items@[i as int]@);
            match self.items[i].compare(name) {
                KeyOrder::Less => {},
                KeyOrder::Equal => {
                    return (true, i);
                },
                KeyOrder::Greater => {
                    proof {
                        lemma_ident_lt_irreflexive(name@);
                        assert forall|j: int| i <= j < self@.len() implies ident_lt(
                            name@,
                            #[trigger] self@[j],
                        ) by {
                            if j > i {
                                lemma_ident_lt_transitive(name@, self@[i as int], self@[j]);
                            }
                        }
                    }
                    return (false, i);
                },
            }
            i += 1;
        }
        proof {
            lemma_ident_lt_irreflexive(name@);
        }
        (false, i)
    }

    /// Whether the set holds `name`.
    pub fn contains(&self, name: &GlobalIdent) -> (r: bool)
        ensures
            r == self.has(name@),
    {
        self.locate(name).0
    }

    /// Adds `name` to the set; answers whether it was new.
    pub fn insert(&mut self, name: GlobalIdent) -> (r: bool)
        ensures
            r == !old(self).has(name@),
            final(self)@ == sorted_insert(old(self)@, name@),
            final(self).set() == old(self).set().insert(name@),
            forall|x: Seq<Seq<char>>| final(self).has(x) <==> old(self).has(x) || x == name@,
            final(self)@.len() == old(self)@.len() + (if r {
                1int
            } else {
                0int
            }),
    {
        let (found, idx) = self.locate(&name);
        if found {
            proof {
                lemma_sorted_insert_present(self@, name@, idx as int);
            }
            return false;
        }
        let ghost before = self@;
        let mut items: Vec<GlobalIdent> = Vec::new();
        std::mem::swap(&mut items, &mut self.items);
        items.insert(idx, name);
        proof {
            assert(ident_views(items@) =~= before.insert(idx as int, name@));
        }
        self.items = items;
        proof {
            assert forall|x: Seq<Seq<char>>| self.has(x) <==> before.contains(x) || x == name@ by {
                if before.contains(x) {
                    let j = choose|j: int| 0 <= j < before.len() && before[j] == x;
                    if j < idx {
                        assert(self@[j] == x);
                    } else {
                        assert(self@[j + 1] == x);
                    }
                }
                if x == name@ {
                    assert(self@[idx as int] == x);
                }
            }
            lemma_sorted_insert_at(before, name@, idx as int);
        }
        true
    }

    /// A copy of the set.
    pub fn duplicate(&self) -> (r: IdentSet)
        ensures
            r@ == self@,
    {
        proof {
            use_type_invariant(self);
        }
        let mut items: Vec<GlobalIdent> = Vec::new();
        let mut i: usize = 0;
        while i < self.items.len()
            invariant
                0 <= i <= self.items@.len(),
                items@.len() == i,
                forall|j: int| 0 <= j < i ==> items@[j]@ == self.items@[j]@,
            decreases self.items@.len() - i,
        {
            items.push(self.items[i].clone());
            i += 1;
        }
        assert(ident_views(items@) =~= self@);
        IdentSet { items }
    }
}

} // verus!
