//! An ordered tree addressed by paths of keys.

use vstd::prelude::*;
use crate::path_key::{key_views, KeyOrder, PathKey};
use crate::path_map::{
    graft, lemma_first_difference_decides, lemma_graft_nested, lemma_graft_root, lemma_graft_same,
    lemma_graft_twice, lemma_graft_value, lemma_path_lt_irreflexive, lemma_prefix_comes_first,
    path_lt, subtree,
};

verus! {

/// Renders a path of keys as text.
pub trait PathDisplay: View + Sized {
    /// The text that stands for a path.
    spec fn displayed(path: Seq<Self::V>) -> Seq<char>;

    /// The text that stands for `path`.
    fn display_path(path: &[Self]) -> (r: String)
        ensures
            r@ == Self::displayed(key_views(path@)),
    ;
}

/// A value that can be made for a node of which only the path is known.
pub trait FromPath<K: View>: Sized {
    /// Whether this value is the one made for the node at `path`.
    spec fn made_from(&self, path: Seq<K::V>) -> bool;

    /// The value for the node at `path`.
    fn from_path(path: &[K]) -> (r: Self)
        ensures
            r.made_from(key_views(path@)),
    ;
}

/// Why a tree operation was refused.
#[derive(Debug, PartialEq, Eq)]
pub enum TreeError {
    /// The node to add exists already; the payload is its displayed path.
    DuplicatePath(String),
}

/// A node of the tree: its own full path, its value, and its children
/// ordered by their keys.
#[derive(Debug)]
pub struct NamedNode<K, V> {
    path: Vec<K>,
    value: V,
    children: Vec<NamedNode<K, V>>,
}

impl<K: PathKey, V: Default> Default for NamedNode<K, V> {
    /// A root node holding the default value, without children.
    fn default() -> (r: Self)
        ensures
            r.wf(),
            r.path_view() == Seq::<K::V>::empty(),
            r.child_nodes().len() == 0,
            call_ensures(V::default, (), r.value()),
    {
        let r = NamedNode { path: Vec::new(), value: V::default(), children: Vec::new() };
        r
    }
}

impl<K: PathKey, V> NamedNode<K, V> {
    /// The identities of the keys that lead from the root to this node.
    pub closed spec fn path_view(&self) -> Seq<K::V> {
        key_views(self.path@)
    }

    /// The value stored at this node.
    pub closed spec fn value(&self) -> V {
        self.value
    }

    /// The children, in the order of their keys.
    pub closed spec fn child_nodes(&self) -> Seq<NamedNode<K, V>> {
        self.children@
    }

    /// The key under which this node hangs from its parent.
    pub open spec fn key(&self) -> K::V {
        self.path_view().last()
    }

    /// The structural invariant: every child's path is this node's path
    /// followed by the child's key, siblings stand in strictly increasing
    /// key order, and every child is itself well formed.
    pub closed spec fn wf(&self) -> bool
        decreases self,
    {
        &&& forall|i: int|
            0 <= i < self.children@.len() ==> (#[trigger] self.children@[i]).wf()
        &&& forall|i: int|
            0 <= i < self.children@.len() ==> (#[trigger] self.children@[i]).path_view()
                == self.path_view().push(self.children@[i].key())
        &&& forall|i: int, j: int|
            0 <= i < j < self.children@.len() ==> K::key_lt(
                (#[trigger] self.children@[i]).key(),
                (#[trigger] self.children@[j]).key(),
            )
    }

    /// Whether a child hangs under `k`.
    pub open spec fn has_child(&self, k: K::V) -> bool {
        exists|i: int| 0 <= i < self.child_nodes().len() && (#[trigger] self.child_nodes()[i]).key() == k
    }

    /// The child under `k`, where there is one.
    pub open spec fn child(&self, k: K::V) -> NamedNode<K, V> {
        let i = choose|i: int|
            0 <= i < self.child_nodes().len() && (#[trigger] self.child_nodes()[i]).key() == k;
        self.child_nodes()[i]
    }

    /// Whether following `path` from this node leads to a node.
    pub open spec fn contains(&self, path: Seq<K::V>) -> bool
        decreases path.len(),
    {
        path.len() == 0 || (self.has_child(path[0]) && self.child(path[0]).contains(
            path.drop_first(),
        ))
    }

    /// The node that `path` leads to from this node.
    pub open spec fn node_at(&self, path: Seq<K::V>) -> NamedNode<K, V>
        decreases path.len(),
    {
        if path.len() == 0 {
            *self
        } else {
            self.child(path[0]).node_at(path.drop_first())
        }
    }

    /// The tree as a map from the paths below this node, taken relative to
    /// it, to the values stored there. The empty path is this node itself.
    pub open spec fn view(&self) -> Map<Seq<K::V>, V> {
        Map::new(|p: Seq<K::V>| self.contains(p), |p: Seq<K::V>| self.node_at(p).value())
    }
}

/// Whether `after` is `before` with every missing node on the way to
/// `path` added: nothing that was there changes, the only new paths are
/// prefixes of `path`, and each new value is the one made for its full
/// path (`base` is the full path of the node the maps are relative to).
pub open spec fn materialized<K: PathKey, V: FromPath<K>>(
    before: Map<Seq<K::V>, V>,
    after: Map<Seq<K::V>, V>,
    base: Seq<K::V>,
    path: Seq<K::V>,
) -> bool {
    &&& forall|q: Seq<K::V>| #[trigger]
        after.dom().contains(q) <==> before.dom().contains(q) || q.is_prefix_of(path)
    &&& forall|q: Seq<K::V>| #[trigger]
        before.dom().contains(q) ==> after[q] == before[q]
    &&& forall|q: Seq<K::V>|
        !before.dom().contains(q) && #[trigger] after.dom().contains(q) ==> after[q].made_from(
            base + q,
        )
}

impl<K: PathKey, V> NamedNode<K, V> {
    /// Whether `other` is this node with the child under `k` set to `c`
    /// and nothing else changed.
    pub open spec fn child_set(&self, other: &NamedNode<K, V>, k: K::V, c: NamedNode<K, V>) -> bool {
        &&& other.path_view() == self.path_view()
        &&& other.value() == self.value()
        &&& other.has_child(k)
        &&& other.child(k) == c
        &&& forall|k2: K::V|
            k2 != k ==> (#[trigger] other.has_child(k2) == self.has_child(k2)) && (self.has_child(
                k2,
            ) ==> other.child(k2) == self.child(k2))
    }

    /// In a well-formed node the child at position `i` is the child under
    /// its key.
    pub proof fn lemma_child_at(&self, i: int)
        requires
            self.wf(),
            0 <= i < self.child_nodes().len(),
        ensures
            self.has_child(self.child_nodes()[i].key()),
            self.child(self.child_nodes()[i].key()) == self.child_nodes()[i],
            self.child_nodes()[i].wf(),
            self.child_nodes()[i].path_view() == self.path_view().push(self.child_nodes()[i].key()),
    {
        let k = self.child_nodes()[i].key();
        let j = choose|j: int|
            0 <= j < self.child_nodes().len() && (#[trigger] self.child_nodes()[j]).key() == k;
        K::lemma_key_lt_irreflexive(k);
    }

    /// A child of a well-formed node is well formed, and its path is the
    /// node's path followed by the child's key.
    pub proof fn lemma_child_wf(&self, k: K::V)
        requires
            self.wf(),
            self.has_child(k),
        ensures
            self.child(k).wf(),
            self.child(k).path_view() == self.path_view().push(k),
            self.child(k).key() == k,
    {
        let i = choose|i: int|
            0 <= i < self.child_nodes().len() && (#[trigger] self.child_nodes()[i]).key() == k;
        self.lemma_child_at(i);
    }

    /// Every node reached from a well-formed node is well formed, and its
    /// path is the starting node's path followed by the path walked.
    pub proof fn lemma_node_at_wf(&self, path: Seq<K::V>)
        requires
            self.wf(),
            self.contains(path),
        ensures
            self.node_at(path).wf(),
            self.node_at(path).path_view() == self.path_view() + path,
        decreases path.len(),
    {
        if path.len() != 0 {
            self.lemma_child_wf(path[0]);
            self.child(path[0]).lemma_node_at_wf(path.drop_first());
        }
    }

    /// A path of one key leads to the child under that key.
    pub proof fn lemma_single_step(&self, k: K::V)
        ensures
            self.contains(seq![k]) == self.has_child(k),
            self.node_at(seq![k]) == self.child(k),
    {
        reveal_with_fuel(NamedNode::contains, 2);
        reveal_with_fuel(NamedNode::node_at, 2);
    }

    /// Walking `p` and then `q` is walking `p + q`.
    pub proof fn lemma_node_at_concat(&self, p: Seq<K::V>, q: Seq<K::V>)
        ensures
            self.contains(p + q) == (self.contains(p) && self.node_at(p).contains(q)),
            self.contains(p) ==> self.node_at(p + q) == self.node_at(p).node_at(q),
        decreases p.len(),
    {
        if p.len() != 0 {
            assert((p + q).drop_first() =~= p.drop_first() + q);
            self.child(p[0]).lemma_node_at_concat(p.drop_first(), q);
        }
    }

    /// The paths of a tree are closed under taking prefixes.
    pub proof fn lemma_prefix_closed(&self, p: Seq<K::V>, q: Seq<K::V>)
        requires
            self.contains(q),
            p.is_prefix_of(q),
        ensures
            self.contains(p),
    {
        assert(p + q.skip(p.len() as int) =~= q);
        self.lemma_node_at_concat(p, q.skip(p.len() as int));
    }

    /// The tree below a node reached by `p` is the part of the whole tree
    /// below `p`.
    pub proof fn lemma_subtree_view(&self, p: Seq<K::V>)
        requires
            self.contains(p),
        ensures
            self.node_at(p)@ == subtree(self@, p),
    {
        assert forall|q: Seq<K::V>| #[trigger]
            self.node_at(p)@.dom().contains(q) == subtree(self@, p).dom().contains(q) by {
            self.lemma_node_at_concat(p, q);
        }
        assert forall|q: Seq<K::V>| #[trigger]
            self.node_at(p)@.dom().contains(q) implies self.node_at(p)@[q] == subtree(self@, p)[q] by {
            self.lemma_node_at_concat(p, q);
        }
    }

    /// Setting one child changes the tree exactly at and below that
    /// child's key.
    pub proof fn lemma_child_set_view(&self, other: &NamedNode<K, V>, k: K::V, c: NamedNode<K, V>)
        requires
            self.child_set(other, k, c),
        ensures
            other@ == graft(self@, seq![k], c@),
    {
        let g = graft(self@, seq![k], c@);
        assert forall|p: Seq<K::V>| #[trigger] other@.dom().contains(p) == g.dom().contains(p) && (
        other@.dom().contains(p) ==> other@[p] == g[p]) by {
            if p.len() == 0 {
            } else if p[0] == k {
            } else {
                if seq![k].is_prefix_of(p) {
                    assert(p.subrange(0, 1)[0] == seq![k][0]);
                }
            }
        }
    }
}

impl<K: PathKey, V> NamedNode<K, V> {
    /// A node without children holds its own value and nothing else.
    pub proof fn lemma_leaf_view(&self)
        requires
            self.child_nodes().len() == 0,
        ensures
            self@ == Map::<Seq<K::V>, V>::empty().insert(Seq::empty(), self.value()),
    {
        let m = Map::<Seq<K::V>, V>::empty().insert(Seq::empty(), self.value());
        assert forall|p: Seq<K::V>| #[trigger] self@.dom().contains(p) == m.dom().contains(p) by {
            if p.len() == 0 {
                assert(p =~= Seq::<K::V>::empty());
            }
        }
    }

    /// Two nodes with the same path and children differ by their own
    /// values alone.
    pub proof fn lemma_value_set(&self, other: &NamedNode<K, V>)
        requires
            other.path_view() == self.path_view(),
            other.child_nodes() == self.child_nodes(),
        ensures
            other@ == self@.insert(Seq::empty(), other.value()),
            self.wf() ==> other.wf(),
    {
        let m = self@.insert(Seq::empty(), other.value());
        assert forall|p: Seq<K::V>| #[trigger] other@.dom().contains(p) == m.dom().contains(p) && (
        other@.dom().contains(p) ==> other@[p] == m[p]) by {
            if p.len() == 0 {
                assert(p =~= Seq::<K::V>::empty());
            }
        }
    }

    /// Replacing the child at position `i` by a node of the same path sets
    /// the child under that key.
    proof fn lemma_update_child(&self, other: &NamedNode<K, V>, i: int, c: NamedNode<K, V>)
        requires
            self.wf(),
            0 <= i < self.children@.len(),
            other.path_view() == self.path_view(),
            other.value == self.value,
            other.children@ == self.children@.update(i, c),
            c.path_view() == self.children@[i].path_view(),
        ensures
            self.child_set(other, c.key(), c),
            c.wf() ==> other.wf(),
            c.key() == self.children@[i].key(),
    {
        self.lemma_child_at(i);
        if c.wf() {
            assert forall|j: int| 0 <= j < other.children@.len() implies (#[trigger] other.children@[j]).wf() by {}
        }
        other.lemma_key_positions(self, i, c);
    }

    /// Helper of `lemma_update_child`: children are found under the same
    /// keys before and after.
    proof fn lemma_key_positions(&self, before: &NamedNode<K, V>, i: int, c: NamedNode<K, V>)
        requires
            before.wf(),
            0 <= i < before.children@.len(),
            self.path_view() == before.path_view(),
            self.value == before.value,
            self.children@ == before.children@.update(i, c),
            c.path_view() == before.children@[i].path_view(),
        ensures
            before.child_set(self, c.key(), c),
    {
        let k = c.key();
        assert(self.child_nodes()[i].key() == k);
        // keys are pairwise distinct, before and after
        assert forall|a: int, b: int|
            0 <= a < self.children@.len() && 0 <= b < self.children@.len() && a != b implies (
        #[trigger] self.children@[a]).key() != (#[trigger] self.children@[b]).key() by {
            let ka = before.children@[a].key();
            K::lemma_key_lt_irreflexive(ka);
        }
        let ci = choose|j: int|
            0 <= j < self.child_nodes().len() && (#[trigger] self.child_nodes()[j]).key() == k;
        assert forall|k2: K::V| k2 != k implies (#[trigger] self.has_child(k2) == before.has_child(k2))
            && (before.has_child(k2) ==> self.child(k2) == before.child(k2)) by {
            if before.has_child(k2) {
                let j = choose|j: int|
                    0 <= j < before.child_nodes().len() && (#[trigger] before.child_nodes()[j]).key()
                        == k2;
                assert(self.child_nodes()[j].key() == k2);
                let j2 = choose|j: int|
                    0 <= j < self.child_nodes().len() && (#[trigger] self.child_nodes()[j]).key()
                        == k2;
            }
            if self.has_child(k2) {
                let j = choose|j: int|
                    0 <= j < self.child_nodes().len() && (#[trigger] self.child_nodes()[j]).key()
                        == k2;
            }
        }
    }

    /// Inserting a node at its place among the siblings sets the child
    /// under its key, which was not there before.
    proof fn lemma_insert_child(&self, other: &NamedNode<K, V>, i: int, c: NamedNode<K, V>)
        requires
            self.wf(),
            0 <= i <= self.children@.len(),
            other.path_view() == self.path_view(),
            other.value == self.value,
            other.children@ == self.children@.insert(i, c),
            c.path_view() == self.path_view().push(c.key()),
            forall|j: int| 0 <= j < i ==> K::key_lt((#[trigger] self.children@[j]).key(), c.key()),
            forall|j: int|
                i <= j < self.children@.len() ==> K::key_lt(
                    c.key(),
                    (#[trigger] self.children@[j]).key(),
                ),
        ensures
            !self.has_child(c.key()),
            self.child_set(other, c.key(), c),
            c.wf() ==> other.wf(),
    {
        let k = c.key();
        K::lemma_key_lt_irreflexive(k);
        assert(other.child_nodes()[i] == c);
        if c.wf() {
            assert forall|j: int| 0 <= j < other.children@.len() implies (#[trigger] other.children@[j]).wf() by {}
        }
        // distinct keys after the insertion
        assert forall|a: int, b: int|
            0 <= a < other.children@.len() && 0 <= b < other.children@.len() && a != b implies (
        #[trigger] other.children@[a]).key() != (#[trigger] other.children@[b]).key() by {
            K::lemma_key_lt_irreflexive(other.children@[a].key());
        }
        let ci = choose|j: int|
            0 <= j < other.child_nodes().len() && (#[trigger] other.child_nodes()[j]).key() == k;
        assert forall|k2: K::V| k2 != k implies (#[trigger] other.has_child(k2) == self.has_child(k2))
            && (self.has_child(k2) ==> other.child(k2) == self.child(k2)) by {
            if self.has_child(k2) {
                let j = choose|j: int|
                    0 <= j < self.child_nodes().len() && (#[trigger] self.child_nodes()[j]).key()
                        == k2;
                let j1 = if j < i {
                    j
                } else {
                    j + 1
                };
                assert(other.child_nodes()[j1].key() == k2);
                let j2 = choose|j: int|
                    0 <= j < other.child_nodes().len() && (#[trigger] other.child_nodes()[j]).key()
                        == k2;
            }
            if other.has_child(k2) {
                let j = choose|j: int|
                    0 <= j < other.child_nodes().len() && (#[trigger] other.child_nodes()[j]).key()
                        == k2;
                let j0 = if j < i {
                    j
                } else {
                    j - 1
                };
            }
        }
        if self.has_child(k) {
            let j = choose|j: int|
                0 <= j < self.child_nodes().len() && (#[trigger] self.child_nodes()[j]).key() == k;
        }
        assert(other.child(k) == c);
    }
}

/// A copy of a path of keys.
fn clone_path<K: PathKey>(path: &Vec<K>) -> (r: Vec<K>)
    ensures
        key_views(r@) == key_views(path@),
{
    let mut out: Vec<K> = Vec::new();
    let mut i: usize = 0;
    while i < path.len()
        invariant
            0 <= i <= path.len(),
            out@.len() == i,
            forall|j: int| 0 <= j < i ==> out@[j]@ == path@[j]@,
        decreases path.len() - i,
    {
        out.push(path[i].duplicate());
        i += 1;
    }
    out
}

impl<K: PathKey, V> NamedNode<K, V> {
    /// A root node holding `value`, without children.
    pub fn new(value: V) -> (r: Self)
        ensures
            r.wf(),
            r.path_view() == Seq::<K::V>::empty(),
            r.value() == value,
            r.child_nodes().len() == 0,
            r@ == Map::<Seq<K::V>, V>::empty().insert(Seq::empty(), value),
    {
        let r = NamedNode { path: Vec::new(), value, children: Vec::new() };
        proof {
            r.lemma_leaf_view();
        }
        r
    }

    /// Whether the node has any child.
    pub fn has_children(&self) -> (r: bool)
        ensures
            r == (self.child_nodes().len() > 0),
    {
        self.children.len() > 0
    }

    /// The children, in the order of their keys.
    pub fn children(&self) -> (r: &[NamedNode<K, V>])
        ensures
            r@ == self.child_nodes(),
    {
        self.children.as_slice()
    }

    /// The keys that lead from the root to this node.
    pub fn path(&self) -> (r: &[K])
        ensures
            key_views(r@) == self.path_view(),
    {
        self.path.as_slice()
    }

    /// The value stored at this node.
    pub fn get_value(&self) -> (r: &V)
        ensures
            *r == self.value(),
    {
        &self.value
    }

    /// The value stored at this node, to be changed in place. Path and
    /// children stay as they are.
    pub fn get_value_mut(&mut self) -> (r: &mut V)
        ensures
            *r == old(self).value(),
            final(self).value() == *final(r),
            final(self).path_view() == old(self).path_view(),
            final(self).child_nodes() == old(self).child_nodes(),
            final(self)@ == old(self)@.insert(Seq::empty(), *final(r)),
            old(self).wf() ==> final(self).wf(),
    {
        proof {
            let me = *self;
            assert forall|other: NamedNode<K, V>|
                other.path_view() == me.path_view() && #[trigger] other.child_nodes()
                    == me.child_nodes() implies other@ == me@.insert(Seq::empty(), other.value())
                && (me.wf() ==> other.wf()) by {
                me.lemma_value_set(&other);
            }
        }
        &mut self.value
    }

    /// Replaces the value stored at this node.
    pub fn set_value(&mut self, value: V)
        ensures
            final(self).value() == value,
            final(self).path_view() == old(self).path_view(),
            final(self).child_nodes() == old(self).child_nodes(),
            final(self)@ == old(self)@.insert(Seq::empty(), value),
            old(self).wf() ==> final(self).wf(),
    {
        self.value = value;
        proof {
            old(self).lemma_value_set(self);
        }
    }
}

impl<K: PathKey, V> NamedNode<K, V> {
    /// Whatever well-placed node takes the place of the child at position
    /// `i`, the tree changes at and below that child's key `k` alone.
    proof fn lemma_update_child_any(&self, i: int, k: K::V)
        requires
            self.wf(),
            0 <= i < self.children@.len(),
            k == self.children@[i].key(),
        ensures
            forall|other: NamedNode<K, V>, c: NamedNode<K, V>|
                #![trigger self.child_set(&other, k, c)]
                #![trigger other.view(), c.view()]
                #![trigger other.wf(), c.wf()]
                other.path_view() == self.path_view() && other.value == self.value
                    && other.children@ == self.children@.update(i, c) && c.path_view()
                    == self.children@[i].path_view() ==> self.child_set(&other, k, c) && other@
                    == graft(self@, seq![k], c@) && (c.wf() ==> other.wf()),
    {
        assert forall|other: NamedNode<K, V>, c: NamedNode<K, V>|
            #![trigger self.child_set(&other, k, c)]
            #![trigger other.view(), c.view()]
            #![trigger other.wf(), c.wf()]
            other.path_view() == self.path_view() && other.value == self.value && other.children@
                == self.children@.update(i, c) && c.path_view()
                == self.children@[i].path_view() implies self.child_set(&other, k, c) && other@
            == graft(self@, seq![k], c@) && (c.wf() ==> other.wf()) by {
            self.lemma_update_child(&other, i, c);
            self.lemma_child_set_view(&other, k, c);
        }
    }
}

impl<K: PathKey, V> NamedNode<K, V> {
    /// Where the child under `key` stands among the children, or where it
    /// would have to be inserted.
    fn locate(&self, key: &K) -> (r: (bool, usize))
        requires
            self.wf(),
        ensures
            r.1 <= self.children@.len(),
            r.0 == self.has_child(key@),
            r.0 ==> r.1 < self.children@.len() && self.children@[r.1 as int].key() == key@
                && self.child(key@) == self.children@[r.1 as int],
            !r.0 ==> forall|j: int|
                0 <= j < r.1 ==> K::key_lt((#[trigger] self.children@[j]).key(), key@),
            !r.0 ==> forall|j: int|
                r.1 <= j < self.children@.len() ==> K::key_lt(
                    key@,
                    (#[trigger] self.children@[j]).key(),
                ),
    {
        let mut lo: usize = 0;
        let mut hi: usize = self.children.len();
        while lo < hi
            invariant
                self.wf(),
                0 <= lo <= hi <= self.children@.len(),
                forall|j: int| 0 <= j < lo ==> K::key_lt((#[trigger] self.children@[j]).key(), key@),
                forall|j: int|
                    hi <= j < self.children@.len() ==> K::key_lt(
                        key@,
                        (#[trigger] self.children@[j]).key(),
                    ),
            decreases hi - lo,
        {
            let mid = lo + (hi - lo) / 2;
            let c = &self.children[mid];
            proof {
                self.lemma_child_at(mid as int);
            }
            let ck = &c.path[c.path.len() - 1];
            match ck.compare(key) {
                KeyOrder::Equal => {
                    return (true, mid);
                },
                KeyOrder::Less => {
                    proof {
                        assert forall|j: int| 0 <= j < mid + 1 implies K::key_lt(
                            (#[trigger] self.children@[j]).key(),
                            key@,
                        ) by {
                            if j < mid {
                                K::lemma_key_lt_transitive(self.children@[j].key(), c.key(), key@);
                            }
                        }
                    }
                    lo = mid + 1;
                },
                KeyOrder::Greater => {
                    proof {
                        assert forall|j: int| mid <= j < self.children@.len() implies K::key_lt(
                            key@,
                            (#[trigger] self.children@[j]).key(),
                        ) by {
                            if j > mid {
                                K::lemma_key_lt_transitive(key@, c.key(), self.children@[j].key());
                            }
                        }
                    }
                    hi = mid;
                },
            }
        }
        proof {
            K::lemma_key_lt_irreflexive(key@);
            if self.has_child(key@) {
                let j = choose|j: int|
                    0 <= j < self.child_nodes().len() && (#[trigger] self.child_nodes()[j]).key()
                        == key@;
            }
        }
        (false, lo)
    }

    /// The child under `key`, if there is one.
    pub fn get_child(&self, key: &K) -> (r: Option<&NamedNode<K, V>>)
        requires
            self.wf(),
        ensures
            r is Some <==> self.has_child(key@),
            r matches Some(c) ==> *c == self.child(key@) && c.wf() && c.path_view()
                == self.path_view().push(key@),
    {
        let (found, idx) = self.locate(key);
        if found {
            proof {
                self.lemma_child_wf(key@);
            }
            Some(&self.children[idx])
        } else {
            None
        }
    }

    /// The child under `key`, if there is one, to be changed in place.
    /// As long as the child keeps its path, the tree changes at and below
    /// `key` alone.
    pub fn get_child_mut(&mut self, key: &K) -> (r: Option<&mut NamedNode<K, V>>)
        requires
            old(self).wf(),
        ensures
            r is Some <==> old(self).has_child(key@),
            r is None ==> *final(self) == *old(self),
            r matches Some(c) ==> *c == old(self).child(key@) && c.wf() && c.path_view() == old(self).path_view().push(key@) && (final(c).path_view() == c.path_view() ==> old(self).child_set(final(self), key@, *final(c)) && final(self)@ == graft(
                old(self)@,
                seq![key@],
                final(c)@,
            ) && (final(c).wf() ==> final(self).wf())),
    {
        let (found, idx) = self.locate(key);
        if found {
            proof {
                self.lemma_child_wf(key@);
                self.lemma_update_child_any(idx as int, key@);
            }
            Some(&mut self.children[idx])
        } else {
            None
        }
    }
}

impl<K: PathKey, V> NamedNode<K, V> {
    /// Setting a child that differs from what hung under its key in its
    /// own value alone is setting one entry of the tree.
    pub proof fn lemma_child_value_view(&self, other: &NamedNode<K, V>, k: K::V, c: NamedNode<K, V>)
        requires
            self.child_set(other, k, c),
            forall|q: Seq<K::V>|
                q.len() > 0 ==> (#[trigger] c.contains(q) == self.contains(seq![k] + q)) && (
                c.contains(q) ==> c.node_at(q).value() == self.node_at(seq![k] + q).value()),
        ensures
            other@ == self@.insert(seq![k], c.value()),
    {
        self.lemma_child_set_view(other, k, c);
        lemma_graft_value(self@, seq![k], c@, c.value());
    }

    /// Whatever value the child at position `i` ends up with, the tree
    /// changes in the entry of that child alone.
    proof fn lemma_child_value_any(&self, i: int, k: K::V)
        requires
            self.wf(),
            0 <= i < self.children@.len(),
            k == self.children@[i].key(),
        ensures
            forall|other: NamedNode<K, V>|
                #![trigger other.view()]
                #![trigger other.wf()]
                other.path_view() == self.path_view() && other.value == self.value
                    && other.children@.len() == self.children@.len() && (forall|j: int|
                    0 <= j < self.children@.len() && j != i ==> other.children@[j]
                        == self.children@[j]) && other.children@[i].path_view()
                    == self.children@[i].path_view() && other.children@[i].children@
                    == self.children@[i].children@ ==> other@ == self@.insert(
                    seq![k],
                    other.children@[i].value,
                ) && other.wf(),
    {
        assert forall|other: NamedNode<K, V>|
            #![trigger other.view()]
            #![trigger other.wf()]
            other.path_view() == self.path_view() && other.value == self.value
                && other.children@.len() == self.children@.len() && (forall|j: int|
                0 <= j < self.children@.len() && j != i ==> other.children@[j] == self.children@[j])
                && other.children@[i].path_view() == self.children@[i].path_view()
                && other.children@[i].children@ == self.children@[i].children@ implies other@
            == self@.insert(seq![k], other.children@[i].value) && other.wf() by {
            let c0 = self.children@[i];
            let c = other.children@[i];
            assert(other.children@ =~= self.children@.update(i, c));
            self.lemma_update_child(&other, i, c);
            self.lemma_child_at(i);
            c0.lemma_value_set(&c);
            assert forall|q: Seq<K::V>| q.len() > 0 implies (#[trigger] c.contains(q)
                == self.contains(seq![k] + q)) && (c.contains(q) ==> c.node_at(q).value()
                == self.node_at(seq![k] + q).value()) by {
                self.lemma_node_at_concat(seq![k], q);
                self.lemma_single_step(k);
            }
            self.lemma_child_value_view(&other, k, c);
        }
    }
}

impl<K: PathKey + PathDisplay, V> NamedNode<K, V> {
    /// Hangs a new childless node holding `value` under `key`. Refused,
    /// with the tree left as it is, when a child hangs there already.
    pub fn add_child(&mut self, key: K, value: V) -> (r: Result<(), TreeError>)
        requires
            old(self).wf(),
        ensures
            final(self).wf(),
            final(self).path_view() == old(self).path_view(),
            r is Err <==> old(self).has_child(key@),
            r matches Err(e) ==> *final(self) == *old(self) && (e matches TreeError::DuplicatePath(s)
                && s@ == K::displayed(old(self).path_view().push(key@))),
            r is Ok ==> final(self)@ == old(self)@.insert(seq![key@], value) && old(self).child_set(final(self), key@, final(self).child(key@)) && final(self).child(
                key@,
            ).value() == value && final(self).child(key@).child_nodes().len() == 0,
    {
        let mut path = clone_path(&self.path);
        let ghost before = path@;
        path.push(key.duplicate());
        proof {
            assert(key_views(path@) =~= key_views(before).push(key@));
        }
        let (found, idx) = self.locate(&key);
        if found {
            return Err(TreeError::DuplicatePath(K::display_path(path.as_slice())));
        }
        let node = NamedNode { path, value, children: Vec::new() };
        proof {
            node.lemma_leaf_view();
        }
        self.children.insert(idx, node);
        proof {
            old(self).lemma_insert_child(self, idx as int, node);
            assert forall|q: Seq<K::V>| q.len() > 0 implies (#[trigger] node.contains(q) == old(self).contains(seq![key@] + q)) && (node.contains(q) ==> node.node_at(q).value() == old(self).node_at(seq![key@] + q).value()) by {}
            old(self).lemma_child_value_view(self, key@, node);
        }
        Ok(())
    }

}

impl<K: PathKey, V: FromPath<K>> NamedNode<K, V> {
    /// The value of the child under `key`, to be changed in place; where
    /// no child hangs there, one is created first with the value made for
    /// its path.
    pub fn get_or_create_child(&mut self, key: &K) -> (r: &mut V)
        requires
            old(self).wf(),
        ensures
            final(self).wf(),
            final(self).path_view() == old(self).path_view(),
            old(self).has_child(key@) ==> *r == old(self).child(key@).value(),
            !old(self).has_child(key@) ==> r.made_from(old(self).path_view().push(key@)),
            final(self)@ == old(self)@.insert(seq![key@], *final(r)),
    {
        let (found, idx) = self.locate(key);
        if !found {
            let mut path = clone_path(&self.path);
            let ghost before = path@;
            path.push(key.duplicate());
            proof {
                assert(key_views(path@) =~= key_views(before).push(key@));
            }
            let value = V::from_path(path.as_slice());
            let node = NamedNode { path, value, children: Vec::new() };
            self.children.insert(idx, node);
            proof {
                old(self).lemma_insert_child(self, idx as int, node);
                assert forall|q: Seq<K::V>| q.len() > 0 implies (#[trigger] node.contains(q) == old(self).contains(seq![key@] + q)) && (node.contains(q) ==> node.node_at(q).value() == old(self).node_at(seq![key@] + q).value()) by {}
                old(self).lemma_child_value_view(self, key@, node);
            }
        }
        proof {
            self.lemma_child_at(idx as int);
            self.lemma_child_value_any(idx as int, key@);
        }
        &mut self.children[idx].value
    }
}

impl<K: PathKey, V> NamedNode<K, V> {
    /// The node that `path` leads to, if it exists.
    pub fn find(&self, path: &[K]) -> (r: Option<&NamedNode<K, V>>)
        requires
            self.wf(),
        ensures
            r is Some <==> self.contains(key_views(path@)),
            r matches Some(n) ==> *n == self.node_at(key_views(path@)) && n.wf() && n.path_view()
                == self.path_view() + key_views(path@),
    {
        let ghost p = key_views(path@);
        let mut n = self;
        let mut i: usize = 0;
        while i < path.len()
            invariant
                0 <= i <= path.len(),
                p == key_views(path@),
                self.wf(),
                n.wf(),
                self.contains(p.subrange(0, i as int)),
                *n == self.node_at(p.subrange(0, i as int)),
            decreases path.len() - i,
        {
            proof {
                let head = p.subrange(0, i as int);
                let k = p[i as int];
                assert(p.subrange(0, i + 1) =~= head + seq![k]);
                self.lemma_node_at_concat(head, seq![k]);
                n.lemma_single_step(k);
                if self.contains(p) {
                    self.lemma_prefix_closed(p.subrange(0, i + 1), p);
                }
            }
            match n.get_child(&path[i]) {
                None => {
                    return None;
                },
                Some(c) => {
                    n = c;
                },
            }
            i += 1;
        }
        proof {
            assert(p.subrange(0, i as int) =~= p);
            self.lemma_node_at_wf(p);
        }
        Some(n)
    }

    /// The value stored where `path` leads, if a node is there.
    pub fn find_value(&self, path: &[K]) -> (r: Option<&V>)
        requires
            self.wf(),
        ensures
            r == (if self@.dom().contains(key_views(path@)) {
                Some(&self@[key_views(path@)])
            } else {
                None
            }),
    {
        match self.find(path) {
            None => None,
            Some(n) => Some(&n.value),
        }
    }

    /// The node that the part of `path` from position `from` on leads to.
    fn find_mut_from(&mut self, path: &[K], from: usize) -> (r: Option<&mut NamedNode<K, V>>)
        requires
            old(self).wf(),
            from <= path.len(),
        ensures
            r is Some <==> old(self).contains(key_views(path@).skip(from as int)),
            r is None ==> final(self)@ == old(self)@ && final(self).wf() && final(self).path_view()
                == old(self).path_view(),
            r matches Some(n) ==> *n == old(self).node_at(key_views(path@).skip(from as int))
                && n.wf() && n.path_view() == old(self).path_view() + key_views(path@).skip(
                from as int,
            ) && (final(n).path_view() == n.path_view() ==> final(self).path_view() == old(self).path_view() && final(self)@ == graft(
                old(self)@,
                key_views(path@).skip(from as int),
                final(n)@,
            ) && (final(n).wf() ==> final(self).wf())),
        decreases path.len() - from,
    {
        let ghost p = key_views(path@).skip(from as int);
        if from == path.len() {
            proof {
                assert forall|x: Map<Seq<K::V>, V>| #[trigger] graft(self@, p, x) == x by {
                    lemma_graft_root(self@, x);
                }
            }
            Some(self)
        } else {
            let ghost k = p[0];
            let ghost rest = key_views(path@).skip(from + 1);
            proof {
                assert(rest =~= p.drop_first());
                self.lemma_single_step(k);
                self.lemma_node_at_concat(seq![k], rest);
                if self.has_child(k) {
                    self.lemma_subtree_view(seq![k]);
                    self.lemma_child_wf(k);
                    lemma_graft_same(self@, seq![k]);
                }
                assert forall|x: Map<Seq<K::V>, V>| #[trigger]
                    graft(self@, seq![k], graft(subtree(self@, seq![k]), rest, x)) == graft(
                        self@,
                        p,
                        x,
                    ) by {
                    lemma_graft_nested(self@, seq![k], rest, x);
                }
            }
            match self.get_child_mut(&path[from]) {
                None => None,
                Some(c) => c.find_mut_from(path, from + 1),
            }
        }
    }

    /// The node that `path` leads to, if it exists, to be changed in
    /// place. As long as the node keeps its path, the tree changes at and
    /// below `path` alone.
    pub fn find_mut(&mut self, path: &[K]) -> (r: Option<&mut NamedNode<K, V>>)
        requires
            old(self).wf(),
        ensures
            r is Some <==> old(self).contains(key_views(path@)),
            r is None ==> final(self)@ == old(self)@ && final(self).wf() && final(self).path_view()
                == old(self).path_view(),
            r matches Some(n) ==> *n == old(self).node_at(key_views(path@)) && n.wf()
                && n.path_view() == old(self).path_view() + key_views(path@) && (final(n).path_view() == n.path_view() ==> final(self).path_view() == old(self).path_view()
                && final(self)@ == graft(old(self)@, key_views(path@), final(n)@) && (final(n).wf() ==> final(self).wf())),
    {
        proof {
            assert(key_views(path@).skip(0) =~= key_views(path@));
        }
        self.find_mut_from(path, 0)
    }

    /// The node that `path` leads to, which must exist, to be changed in
    /// place.
    pub fn find_mut_unchecked(&mut self, path: &[K]) -> (r: &mut NamedNode<K, V>)
        requires
            old(self).wf(),
            old(self).contains(key_views(path@)),
        ensures
            *r == old(self).node_at(key_views(path@)),
            r.wf(),
            r.path_view() == old(self).path_view() + key_views(path@),
            final(r).path_view() == r.path_view() ==> final(self).path_view() == old(self).path_view() && final(self)@ == graft(old(self)@, key_views(path@), final(r)@) && (
            final(r).wf() ==> final(self).wf()),
    {
        match self.find_mut(path) {
            Some(n) => n,
            None => vstd::pervasive::unreached(),
        }
    }
}

/// What `lemma_materialized_step` claims, for one path `q`.
proof fn lemma_materialized_point<K: PathKey, V: FromPath<K>>(
    m: Map<Seq<K::V>, V>,
    f: Map<Seq<K::V>, V>,
    s0: Map<Seq<K::V>, V>,
    s1: Map<Seq<K::V>, V>,
    base: Seq<K::V>,
    k: K::V,
    rest: Seq<K::V>,
    q: Seq<K::V>,
)
    requires
        m.dom().contains(Seq::empty()),
        f == graft(m, seq![k], s1),
        materialized::<K, V>(s0, s1, base.push(k), rest),
        m.dom().contains(seq![k]) ==> s0 == subtree(m, seq![k]),
        !m.dom().contains(seq![k]) ==> (forall|q: Seq<K::V>| !m.dom().contains(seq![k] + q))
            && s0.dom() == set![Seq::<K::V>::empty()] && s0[Seq::empty()].made_from(base.push(k)),
    ensures
        f.dom().contains(q) <==> m.dom().contains(q) || q.is_prefix_of(seq![k] + rest),
        m.dom().contains(q) ==> f[q] == m[q],
        !m.dom().contains(q) && f.dom().contains(q) ==> f[q].made_from(base + q),
{
    let e = Seq::<K::V>::empty();
    {
        if q.len() == 0 {
            assert(q =~= e);
        } else if q[0] == k {
            let q1 = q.skip(1);
            assert(seq![k] + q1 =~= q);
            assert(base.push(k) + q1 =~= base + q);
        } else {
            if seq![k].is_prefix_of(q) {
                assert(q.subrange(0, 1)[0] == seq![k][0]);
            }
        }
    }
}

/// Materializing the rest of a path below the child under `k` materializes
/// the whole path below the parent. `s0` is what hung under `k` before
/// (one fresh entry where nothing did), `s1` what hangs there after.
proof fn lemma_materialized_step<K: PathKey, V: FromPath<K>>(
    m: Map<Seq<K::V>, V>,
    f: Map<Seq<K::V>, V>,
    s0: Map<Seq<K::V>, V>,
    s1: Map<Seq<K::V>, V>,
    base: Seq<K::V>,
    k: K::V,
    rest: Seq<K::V>,
)
    requires
        m.dom().contains(Seq::empty()),
        f == graft(m, seq![k], s1),
        materialized::<K, V>(s0, s1, base.push(k), rest),
        m.dom().contains(seq![k]) ==> s0 == subtree(m, seq![k]),
        !m.dom().contains(seq![k]) ==> (forall|q: Seq<K::V>| !m.dom().contains(seq![k] + q))
            && s0.dom() == set![Seq::<K::V>::empty()] && s0[Seq::empty()].made_from(base.push(k)),
    ensures
        materialized::<K, V>(m, f, base, seq![k] + rest),
{
    let path = seq![k] + rest;
    assert forall|q: Seq<K::V>| #[trigger]
        f.dom().contains(q) <==> m.dom().contains(q) || q.is_prefix_of(path) by {
        lemma_materialized_point::<K, V>(m, f, s0, s1, base, k, rest, q);
    }
    assert forall|q: Seq<K::V>| #[trigger] m.dom().contains(q) implies f[q] == m[q] by {
        lemma_materialized_point::<K, V>(m, f, s0, s1, base, k, rest, q);
    }
    assert forall|q: Seq<K::V>| !m.dom().contains(q) && #[trigger] f.dom().contains(q) implies f[q].made_from(
        base + q,
    ) by {
        lemma_materialized_point::<K, V>(m, f, s0, s1, base, k, rest, q);
    }
}

impl<K: PathKey, V: FromPath<K>> NamedNode<K, V> {
    /// Tree addressing: in a tree that was materialized along `p`, the
    /// path `p` leads to a node, and that node's own path is the path of
    /// the starting node followed by `p`: in a tree that starts at the
    /// root, `p` itself. Whatever was there before is still there, with its
    /// value.
    pub proof fn lemma_created_path_is_found(&self, before: &NamedNode<K, V>, p: Seq<K::V>)
        requires
            self.wf(),
            materialized::<K, V>(before@, self@, before.path_view(), p),
        ensures
            self.contains(p),
            self.node_at(p).path_view() == self.path_view() + p,
            forall|q: Seq<K::V>| before.contains(q) ==> self.contains(q) && self.node_at(q).value()
                == before.node_at(q).value(),
    {
        assert(self@.dom().contains(p));
        self.lemma_node_at_wf(p);
        assert forall|q: Seq<K::V>| before.contains(q) implies self.contains(q) && self.node_at(
            q,
        ).value() == before.node_at(q).value() by {
            assert(self@.dom().contains(q));
        }
    }
}

impl<K: PathKey, V: FromPath<K>> NamedNode<K, V> {
    /// A node that materializing `p` had to create has no children.
    proof fn lemma_created_is_leaf(&self, before: &NamedNode<K, V>, p: Seq<K::V>)
        requires
            self.contains(p),
            !before.contains(p),
            materialized::<K, V>(before@, self@, before.path_view(), p),
        ensures
            self.node_at(p).child_nodes().len() == 0,
    {
        let n = self.node_at(p);
        if n.child_nodes().len() > 0 {
            let k = n.child_nodes()[0].key();
            n.lemma_single_step(k);
            self.lemma_node_at_concat(p, seq![k]);
            let q = p + seq![k];
            assert(self@.dom().contains(q));
            if before@.dom().contains(q) {
                before.lemma_prefix_closed(p, q);
            }
        }
    }
}

impl<K: PathKey, V: FromPath<K>> NamedNode<K, V> {
    /// Creates every node that is missing on the way along the part of
    /// `path` from position `from` on.
    fn materialize(&mut self, path: &[K], from: usize)
        requires
            old(self).wf(),
            from <= path.len(),
        ensures
            final(self).wf(),
            final(self).path_view() == old(self).path_view(),
            final(self).contains(key_views(path@).skip(from as int)),
            materialized::<K, V>(
                old(self)@,
                final(self)@,
                old(self).path_view(),
                key_views(path@).skip(from as int),
            ),
        decreases path.len() - from,
    {
        let ghost p = key_views(path@).skip(from as int);
        let ghost base = self.path_view();
        if from == path.len() {
            proof {
                assert forall|q: Seq<K::V>| q.is_prefix_of(p) implies self@.dom().contains(q) by {}
            }
            return ;
        }
        let ghost k = p[0];
        let ghost rest = key_views(path@).skip(from + 1);
        proof {
            assert(rest =~= p.drop_first());
            self.lemma_single_step(k);
        }
        let (found, idx) = self.locate(&path[from]);
        if !found {
            let mut child_path = clone_path(&self.path);
            let ghost before = child_path@;
            child_path.push(path[from].duplicate());
            proof {
                assert(key_views(child_path@) =~= key_views(before).push(k));
            }
            let value = V::from_path(child_path.as_slice());
            let node = NamedNode { path: child_path, value, children: Vec::new() };
            self.children.insert(idx, node);
            proof {
                old(self).lemma_insert_child(self, idx as int, node);
            }
        }
        let ghost mid = *self;
        let ghost c0 = self.children@[idx as int];
        proof {
            mid.lemma_child_at(idx as int);
            mid.lemma_single_step(k);
        }
        self.children[idx].materialize(path, from + 1);
        proof {
            let c1 = self.children@[idx as int];
            mid.lemma_update_child(self, idx as int, c1);
            mid.lemma_child_set_view(self, k, c1);
            // what hung under `k` at the start
            if found {
                old(self).lemma_subtree_view(seq![k]);
            } else {
                c0.lemma_leaf_view();
                assert forall|q: Seq<K::V>| !old(self)@.dom().contains(seq![k] + q) by {}
                old(self).lemma_child_set_view(&mid, k, c0);
            }
            assert(self@ =~= graft(old(self)@, seq![k], c1@)) by {}
            lemma_materialized_step::<K, V>(old(self)@, self@, c0@, c1@, base, k, rest);
            self.lemma_single_step(k);
            self.lemma_node_at_concat(seq![k], rest);
        }
    }

    /// Stores `value` where `path` leads; every node missing on the way is
    /// created first, with the value made for its path.
    pub fn put(&mut self, path: &[K], value: V)
        requires
            old(self).wf(),
        ensures
            final(self).wf(),
            final(self).path_view() == old(self).path_view(),
            materialized::<K, V>(
                old(self)@.insert(key_views(path@), value),
                final(self)@,
                old(self).path_view(),
                key_views(path@),
            ),
    {
        let ghost p = key_views(path@);
        proof {
            assert(p.skip(0) =~= p);
        }
        self.materialize(path, 0);
        let ghost mid = *self;
        let node = self.find_mut_unchecked(path);
        node.set_value(value);
        proof {
            let sub = mid.node_at(p)@;
            mid.lemma_subtree_view(p);
            lemma_graft_value(mid@, p, sub.insert(Seq::empty(), value), value);
        }
    }

    /// The node that `path` leads to, to be changed in place; every node
    /// missing on the way is created first, with the value made for its
    /// path. Writing `t` for the tree as it stands when the node is handed
    /// out, `t` is the old tree materialized along `path`, and the final
    /// tree is `t` with the part at and below `path` as the caller left it.
    pub fn find_or_create(&mut self, path: &[K]) -> (r: &mut NamedNode<K, V>)
        requires
            old(self).wf(),
        ensures
            r.wf(),
            r.path_view() == old(self).path_view() + key_views(path@),
            old(self).contains(key_views(path@)) ==> r@ == subtree(old(self)@, key_views(path@)),
            !old(self).contains(key_views(path@)) ==> r.child_nodes().len() == 0
                && r.value().made_from(r.path_view()),
            final(r).path_view() == r.path_view() ==> final(self).path_view() == old(self).path_view() && materialized::<K, V>(
                old(self)@,
                graft(final(self)@, key_views(path@), r@),
                old(self).path_view(),
                key_views(path@),
            ) && final(self)@ == graft(
                graft(final(self)@, key_views(path@), r@),
                key_views(path@),
                final(r)@,
            ) && (final(r).wf() ==> final(self).wf()),
    {
        let ghost p = key_views(path@);
        proof {
            assert(p.skip(0) =~= p);
        }
        self.materialize(path, 0);
        let ghost mid = *self;
        proof {
            mid.lemma_subtree_view(p);
            mid.lemma_node_at_wf(p);
            lemma_graft_same(mid@, p);
            assert forall|x: Map<Seq<K::V>, V>|
                #[trigger] graft(graft(mid@, p, x), p, subtree(mid@, p)) == mid@ by {
                lemma_graft_twice(mid@, p, x, subtree(mid@, p));
            }
            if !old(self).contains(p) {
                assert(mid@.dom().contains(p));
                mid.lemma_created_is_leaf(old(self), p);
            }
        }
        self.find_mut_unchecked(path)
    }
}

impl<K: PathKey, V> NamedNode<K, V> {
    /// Whether `after` is this tree with every value replaced by one that
    /// `rel` allows at its path: the same paths and the same shape.
    pub open spec fn related_by(
        &self,
        after: &NamedNode<K, V>,
        rel: spec_fn(Seq<K::V>, V, V) -> bool,
    ) -> bool {
        &&& after.wf()
        &&& after.path_view() == self.path_view()
        &&& after@.dom() == self@.dom()
        &&& forall|p: Seq<K::V>| #[trigger] self@.dom().contains(p) ==> rel(p, self@[p], after@[p])
    }

    /// A node whose own value and whose children are each related is
    /// related as a whole.
    proof fn lemma_assemble(&self, after: &NamedNode<K, V>, rel: spec_fn(Seq<K::V>, V, V) -> bool)
        requires
            self.wf(),
            after.path_view() == self.path_view(),
            rel(Seq::empty(), self.value, after.value),
            after.children@.len() == self.children@.len(),
            forall|j: int|
                0 <= j < self.children@.len() ==> (#[trigger] self.children@[j]).related_by(
                    &after.children@[j],
                    |q: Seq<K::V>, x: V, y: V| rel(seq![self.children@[j].key()] + q, x, y),
                ),
        ensures
            self.related_by(after, rel),
    {
        assert forall|j: int| 0 <= j < after.children@.len() implies (#[trigger] after.children@[j]).wf()
            && after.children@[j].key() == self.children@[j].key() && after.children@[j].path_view()
            == after.path_view().push(after.children@[j].key()) by {
            assert(self.children@[j].related_by(
                &after.children@[j],
                |q: Seq<K::V>, x: V, y: V| rel(seq![self.children@[j].key()] + q, x, y),
            ));
        }
        assert forall|k: K::V|
            (#[trigger] after.has_child(k) == self.has_child(k)) && (self.has_child(k) ==> exists|
                j: int,
            |
                0 <= j < self.children@.len() && self.child(k) == self.children@[j] && after.child(k)
                    == after.children@[j] && self.children@[j].key() == k) by {
            if self.has_child(k) {
                let j = choose|j: int|
                    0 <= j < self.child_nodes().len() && (#[trigger] self.child_nodes()[j]).key()
                        == k;
                after.lemma_child_at(j);
                self.lemma_child_at(j);
            }
            if after.has_child(k) {
                let j = choose|j: int|
                    0 <= j < after.child_nodes().len() && (#[trigger] after.child_nodes()[j]).key()
                        == k;
            }
        }
        assert forall|p: Seq<K::V>|
            (#[trigger] after@.dom().contains(p) == self@.dom().contains(p)) && (
            self@.dom().contains(p) ==> rel(p, self@[p], after@[p])) by {
            if p.len() > 0 {
                let k = p[0];
                let q = p.drop_first();
                assert(after.has_child(k) == self.has_child(k));
                if self.has_child(k) {
                    let j = choose|j: int|
                        0 <= j < self.children@.len() && self.child(k) == self.children@[j]
                            && after.child(k) == after.children@[j] && self.children@[j].key() == k;
                    assert(after.children@[j]@.dom().contains(q) == self.children@[j]@.dom().contains(q));
                    if self.contains(p) {
                        assert(seq![k] + q =~= p);
                    }
                }
            } else {
                assert(p =~= Seq::<K::V>::empty());
            }
        }
        assert(after@.dom() =~= self@.dom());
    }
}

/// Whether `f`, handed the value `before` and `o`, may answer `after`.
pub open spec fn joined<V, V2, F: FnMut(&V, Option<&V2>) -> V>(
    f: F,
    before: V,
    o: Option<&V2>,
    after: V,
) -> bool {
    call_ensures(f, (&before, o), after)
}

/// The value that the tree `other` holds at `p`, if it has a node there.
pub open spec fn value_at<K: PathKey, V2>(other: Option<&NamedNode<K, V2>>, p: Seq<K::V>) -> Option<
    &V2,
> {
    match other {
        Some(o) => if o.contains(p) {
            Some(&o.node_at(p).value())
        } else {
            None
        },
        None => None,
    }
}

impl<K: PathKey, V> NamedNode<K, V> {
    /// Whether `after` is this tree joined with `other` by `f`: the same
    /// paths, and at each of them a value that `f` may answer when handed
    /// the value that was there and the one that `other` holds at the
    /// same path, if any.
    pub open spec fn joined_with<V2, F: FnMut(&V, Option<&V2>) -> V>(
        &self,
        after: &NamedNode<K, V>,
        other: Option<&NamedNode<K, V2>>,
        f: F,
    ) -> bool {
        &&& after.wf()
        &&& after.path_view() == self.path_view()
        &&& after@.dom() == self@.dom()
        &&& forall|p: Seq<K::V>| #[trigger]
            self@.dom().contains(p) ==> joined(f, self@[p], value_at(other, p), after@[p])
    }

    /// The child of `other` under `k`, if `other` is a tree that has one.
    pub open spec fn other_child<V2>(other: Option<&NamedNode<K, V2>>, k: K::V) -> Option<
        &NamedNode<K, V2>,
    > {
        match other {
            Some(o) => if o.has_child(k) {
                Some(&o.child(k))
            } else {
                None
            },
            None => None,
        }
    }

    /// Joins `other` into this tree: for every node of this tree `f` is
    /// handed the node's value and the value that `other` holds at the
    /// same path, if it has a node there, and its answer becomes the
    /// node's value. Paths and shape of this tree stay as they are.
    pub fn left_join<V2, F: FnMut(&V, Option<&V2>) -> V>(
        &mut self,
        other: Option<&NamedNode<K, V2>>,
        f: &mut F,
    )
        requires
            old(self).wf(),
            other matches Some(o) ==> o.wf(),
            forall|r: &V, o: Option<&V2>| call_requires(*old(f), (r, o)),
        ensures
            old(self).joined_with(final(self), other, *old(f)),
            *final(f) == *old(f),
        decreases *old(self),
    {
        let own = match other {
            Some(o) => Some(o.get_value()),
            None => None,
        };
        let merged = f(&self.value, own);
        self.value = merged;
        let n = self.children.len();
        let mut i: usize = 0;
        while i < n
            invariant
                0 <= i <= n,
                n == old(self).children@.len(),
                self.children@.len() == n,
                old(self).wf(),
                other matches Some(o) ==> o.wf(),
                forall|r: &V, o: Option<&V2>| call_requires(*f, (r, o)),
                *f == *old(f),
                self.path == old(self).path,
                joined(*f, old(self).value, value_at(other, Seq::empty()), self.value),
                forall|j: int|
                    0 <= j < i ==> (#[trigger] old(self).children@[j]).joined_with(
                        &self.children@[j],
                        Self::other_child(other, old(self).children@[j].key()),
                        *f,
                    ),
                forall|j: int| i <= j < n ==> self.children@[j] == old(self).children@[j],
            decreases n - i,
        {
            proof {
                old(self).lemma_child_at(i as int);
            }
            let c = &self.children[i];
            let k = c.path[c.path.len() - 1].duplicate();
            let co = match other {
                Some(o) => o.get_child(&k),
                None => None,
            };
            self.children[i].left_join(co, f);
            i += 1;
        }
        proof {
            let fun = *f;
            let rel_fn = |p: Seq<K::V>, x: V, y: V| joined(fun, x, value_at(other, p), y);
            assert forall|j: int| 0 <= j < old(self).children@.len() implies (#[trigger] old(self).children@[j]).related_by(
                &self.children@[j],
                |q: Seq<K::V>, x: V, y: V| rel_fn(seq![old(self).children@[j].key()] + q, x, y),
            ) by {
                let k = old(self).children@[j].key();
                assert forall|q: Seq<K::V>| #[trigger]
                    old(self).children@[j]@.dom().contains(q) implies rel_fn(
                    seq![k] + q,
                    old(self).children@[j]@[q],
                    self.children@[j]@[q],
                ) by {
                    assert((seq![k] + q).drop_first() =~= q);
                }
            }
            old(self).lemma_assemble(self, rel_fn);
        }
    }
}

impl<K: PathKey, V> NamedNode<K, V> {
    /// The paths of the nodes below this one that hang under the children
    /// from position `i` on, in pre-order, each with `prefix` in front.
    pub open spec fn walk_from(&self, prefix: Seq<K::V>, i: int) -> Seq<Seq<K::V>>
        decreases self, self.child_nodes().len() - i,
    {
        if 0 <= i < self.child_nodes().len() {
            let c = self.child_nodes()[i];
            let here = prefix.push(c.key());
            seq![here] + c.walk_from(here, 0) + self.walk_from(prefix, i + 1)
        } else {
            Seq::empty()
        }
    }

    /// The paths of all nodes below this one, relative to it, in pre-order:
    /// a node before its children, siblings in the order of their keys.
    pub open spec fn walk(&self) -> Seq<Seq<K::V>> {
        self.walk_from(Seq::empty(), 0)
    }

    /// Every path of a walk is `prefix` followed by the non-empty path of a
    /// node of the tree.
    pub proof fn lemma_walk_from_sound(&self, prefix: Seq<K::V>, i: int, n: int)
        requires
            self.wf(),
            0 <= i,
            0 <= n < self.walk_from(prefix, i).len(),
        ensures
            prefix.is_prefix_of(self.walk_from(prefix, i)[n]),
            self.walk_from(prefix, i)[n].len() > prefix.len(),
            self.contains(self.walk_from(prefix, i)[n].skip(prefix.len() as int)),
        decreases self, self.child_nodes().len() - i,
    {
        if i < self.child_nodes().len() {
            let c = self.child_nodes()[i];
            let k = c.key();
            let here = prefix.push(k);
            let below = c.walk_from(here, 0);
            let x = self.walk_from(prefix, i)[n];
            self.lemma_child_at(i);
            self.lemma_single_step(k);
            if n == 0 {
                assert(x.skip(prefix.len() as int) =~= seq![k]);
            } else if n < 1 + below.len() {
                c.lemma_walk_from_sound(here, 0, n - 1);
                let q = x.skip(here.len() as int);
                assert(x.skip(prefix.len() as int) =~= seq![k] + q) by {
                    let head = x.subrange(0, here.len() as int);
                    assert(head[prefix.len() as int] == x[prefix.len() as int]);
                }
                self.lemma_node_at_concat(seq![k], q);
            } else {
                self.lemma_walk_from_sound(prefix, i + 1, n - 1 - below.len());
            }
        }
    }

    /// A walk reaches every node that hangs under a child at position `i`
    /// or later.
    pub proof fn lemma_walk_from_complete(&self, prefix: Seq<K::V>, i: int, j: int, q: Seq<K::V>)
        requires
            self.wf(),
            0 <= i <= j < self.child_nodes().len(),
            self.child_nodes()[j].contains(q),
        ensures
            self.walk_from(prefix, i).contains(prefix.push(self.child_nodes()[j].key()) + q),
        decreases self, self.child_nodes().len() - i,
    {
        let c = self.child_nodes()[i];
        let here = prefix.push(c.key());
        let below = c.walk_from(here, 0);
        let rest = self.walk_from(prefix, i + 1);
        let all = self.walk_from(prefix, i);
        let target = prefix.push(self.child_nodes()[j].key()) + q;
        self.lemma_child_at(i);
        if j == i {
            if q.len() == 0 {
                assert(all[0] == target);
            } else {
                let k2 = q[0];
                c.lemma_child_wf(k2);
                let m = choose|m: int|
                    0 <= m < c.child_nodes().len() && (#[trigger] c.child_nodes()[m]).key() == k2;
                c.lemma_child_at(m);
                c.lemma_walk_from_complete(here, 0, m, q.drop_first());
                assert(here.push(k2) + q.drop_first() =~= target);
                let n = choose|n: int| 0 <= n < below.len() && below[n] == target;
                assert(all[1 + n] == target);
            }
        } else {
            self.lemma_walk_from_complete(prefix, i + 1, j, q);
            let n = choose|n: int| 0 <= n < rest.len() && rest[n] == target;
            assert(all[1 + below.len() + n] == target);
        }
    }

    /// The walk of a tree lists exactly the non-empty paths of the tree.
    pub proof fn lemma_walk_lists_paths(&self, q: Seq<K::V>)
        requires
            self.wf(),
        ensures
            self.walk().contains(q) <==> q.len() > 0 && self.contains(q),
    {
        let e = Seq::<K::V>::empty();
        if self.walk().contains(q) {
            let n = choose|n: int| 0 <= n < self.walk().len() && self.walk()[n] == q;
            self.lemma_walk_from_sound(e, 0, n);
            assert(q.skip(0) =~= q);
        }
        if q.len() > 0 && self.contains(q) {
            let k = q[0];
            let j = choose|j: int|
                0 <= j < self.child_nodes().len() && (#[trigger] self.child_nodes()[j]).key() == k;
            self.lemma_child_at(j);
            self.lemma_walk_from_complete(e, 0, j, q.drop_first());
            assert(e.push(k) + q.drop_first() =~= q);
        }
    }
}

/// Whether `f` was called with a path of the identities `path` and the
/// value `value`.
pub open spec fn shown_to<K: PathKey, V, F: FnMut(&[K], &V)>(f: F, path: Seq<K::V>, value: V) -> bool {
    exists|a: &[K]| key_views(a@) == path && #[trigger] call_ensures(f, (a, &value), ())
}

/// The paths of a list of entries.
pub open spec fn entry_paths<K: View, V>(entries: Seq<(Vec<K>, &V)>) -> Seq<Seq<K::V>> {
    entries.map_values(|e: (Vec<K>, &V)| key_views(e.0@))
}

impl<K: PathKey, V> NamedNode<K, V> {
    /// Appends to `out` the entries of all nodes below this one, in
    /// pre-order, each path with `prefix` in front.
    fn collect<'a>(&'a self, prefix: &Vec<K>, out: &mut Vec<(Vec<K>, &'a V)>)
        requires
            self.wf(),
        ensures
            entry_paths(final(out)@) == entry_paths(old(out)@) + self.walk_from(
                key_views(prefix@),
                0,
            ),
            final(out)@.len() >= old(out)@.len(),
            final(out)@.subrange(0, old(out)@.len() as int) == old(out)@,
            forall|n: int|
                old(out)@.len() <= n < final(out)@.len() ==> *(#[trigger] final(out)@[n]).1
                    == self.node_at(
                    key_views(final(out)@[n].0@).skip(prefix@.len() as int),
                ).value(),
        decreases self,
    {
        let ghost pv = key_views(prefix@);
        let ghost start = out@;
        let count = self.children.len();
        let mut i: usize = 0;
        while i < count
            invariant
                self.wf(),
                0 <= i <= count,
                count == self.children@.len(),
                pv == key_views(prefix@),
                out@.len() >= start.len(),
                out@.subrange(0, start.len() as int) == start,
                entry_paths(out@) + self.walk_from(pv, i as int) == entry_paths(start)
                    + self.walk_from(pv, 0),
                forall|n: int|
                    start.len() <= n < out@.len() ==> *(#[trigger] out@[n]).1 == self.node_at(
                        key_views(out@[n].0@).skip(pv.len() as int),
                    ).value(),
            decreases count - i,
        {
            let c = &self.children[i];
            let ghost k = c.key();
            proof {
                self.lemma_child_at(i as int);
                self.lemma_single_step(k);
            }
            let mut here = clone_path(prefix);
            let ghost before = here@;
            here.push(c.path[c.path.len() - 1].duplicate());
            proof {
                assert(key_views(here@) =~= key_views(before).push(k));
            }
            let ghost out0 = out@;
            out.push((clone_path(&here), &c.value));
            let ghost out1 = out@;
            proof {
                assert(pv.push(k).skip(pv.len() as int) =~= seq![k]);
            }
            c.collect(&here, out);
            proof {
                let below = c.walk_from(pv.push(k), 0);
                assert(entry_paths(out0) + (seq![pv.push(k)] + below + self.walk_from(
                    pv,
                    i + 1,
                )) =~= entry_paths(out@) + self.walk_from(pv, i + 1));
                assert forall|n: int| start.len() <= n < out@.len() implies *(#[trigger] out@[n]).1
                    == self.node_at(key_views(out@[n].0@).skip(pv.len() as int)).value() by {
                    if n < out1.len() {
                        assert(out@.subrange(0, out1.len() as int)[n] == out@[n]);
                    } else {
                        let x = key_views(out@[n].0@);
                        assert(x == entry_paths(out@)[n]);
                        c.lemma_walk_from_sound(pv.push(k), 0, n - out1.len());
                        let q = x.skip(pv.len() as int + 1);
                        assert(x.skip(pv.len() as int) =~= seq![k] + q) by {}
                        self.lemma_node_at_concat(seq![k], q);
                    }
                }
            }
            i += 1;
        }
    }

    /// The entries of all nodes below this one, in pre-order: each node's
    /// path relative to this node, and its value.
    pub fn entries(&self) -> (r: Vec<(Vec<K>, &V)>)
        requires
            self.wf(),
        ensures
            entry_paths(r@) == self.walk(),
            forall|n: int| 0 <= n < r@.len() ==> *(#[trigger] r@[n]).1 == self@[self.walk()[n]],
    {
        let prefix: Vec<K> = Vec::new();
        let mut out: Vec<(Vec<K>, &V)> = Vec::new();
        self.collect(&prefix, &mut out);
        proof {
            assert(key_views(prefix@) =~= Seq::<K::V>::empty());
            assert forall|n: int| 0 <= n < out@.len() implies *(#[trigger] out@[n]).1
                == self@[self.walk()[n]] by {
                let x = key_views(out@[n].0@);
                assert(x.skip(0) =~= x);
                self.lemma_walk_from_sound(Seq::empty(), 0, n);
            }
        }
        out
    }

    /// Calls `f` with the path and the value of every node below this one,
    /// in pre-order.
    pub fn for_each<F: FnMut(&[K], &V)>(&self, f: &mut F)
        requires
            self.wf(),
            forall|p: &[K], v: &V| call_requires(*old(f), (p, v)),
        ensures
            *final(f) == *old(f),
            forall|n: int|
                0 <= n < self.walk().len() ==> shown_to(
                    *old(f),
                    #[trigger] self.walk()[n],
                    self@[self.walk()[n]],
                ),
    {
        let all = self.entries();
        let ghost fun = *f;
        let mut i: usize = 0;
        while i < all.len()
            invariant
                0 <= i <= all.len(),
                forall|p: &[K], v: &V| call_requires(*f, (p, v)),
                *f == fun,
                fun == *old(f),
                entry_paths(all@) == self.walk(),
                forall|n: int| 0 <= n < all@.len() ==> *(#[trigger] all@[n]).1 == self@[self.walk()[n]],
                forall|n: int|
                    0 <= n < i ==> shown_to(fun, #[trigger] self.walk()[n], self@[self.walk()[n]]),
            decreases all.len() - i,
        {
            f(all[i].0.as_slice(), all[i].1);
            i += 1;
        }
    }
}

/// Whether `f`, called for a node with the relative path `rel`, the value
/// `before` and the full path `full`, may answer `after`.
pub open spec fn called_at<K: PathKey, V, F: FnMut(&[K], &V, &[K]) -> V>(
    f: F,
    rel: Seq<K::V>,
    full: Seq<K::V>,
    before: V,
    after: V,
) -> bool {
    exists|a: &[K], b: &[K]|
        key_views(a@) == rel && key_views(b@) == full && #[trigger] call_ensures(
            f,
            (a, &before, b),
            after,
        )
}

impl<K: PathKey, V> NamedNode<K, V> {
    /// Whether `after` is this tree after `f` was called for every node
    /// below this one, with the node's path relative to this node, its
    /// value and its full path, and answered the node's new value. The
    /// value of this node itself, the paths and the shape stay.
    pub open spec fn visited_with<F: FnMut(&[K], &V, &[K]) -> V>(
        &self,
        after: &NamedNode<K, V>,
        f: F,
    ) -> bool {
        &&& after.wf()
        &&& after.path_view() == self.path_view()
        &&& after@.dom() == self@.dom()
        &&& after.value() == self.value()
        &&& forall|p: Seq<K::V>|
            p.len() > 0 && #[trigger] self@.dom().contains(p) ==> called_at(
                f,
                p,
                self.path_view() + p,
                self@[p],
                after@[p],
            )
    }

    /// Calls `f` for this node, whose path relative to where the traversal
    /// began is `rel`, and for every node below it.
    fn visit_node<F: FnMut(&[K], &V, &[K]) -> V>(&mut self, rel: &Vec<K>, f: &mut F)
        requires
            old(self).wf(),
            forall|a: &[K], v: &V, b: &[K]| call_requires(*old(f), (a, v, b)),
        ensures
            *final(f) == *old(f),
            old(self).related_by(
                final(self),
                |q: Seq<K::V>, x: V, y: V|
                    called_at(*old(f), key_views(rel@) + q, old(self).path_view() + q, x, y),
            ),
        decreases *old(self),
    {
        let ghost pre = key_views(rel@);
        let ghost base = self.path_view();
        let ghost fun = *f;
        let answer = f(rel.as_slice(), &self.value, self.path.as_slice());
        self.value = answer;
        let n = self.children.len();
        let mut i: usize = 0;
        while i < n
            invariant
                0 <= i <= n,
                n == old(self).children@.len(),
                self.children@.len() == n,
                old(self).wf(),
                forall|a: &[K], v: &V, b: &[K]| call_requires(*f, (a, v, b)),
                *f == fun,
                fun == *old(f),
                pre == key_views(rel@),
                base == old(self).path_view(),
                self.path == old(self).path,
                called_at(fun, pre, base, old(self).value, self.value),
                forall|j: int|
                    0 <= j < i ==> (#[trigger] old(self).children@[j]).related_by(
                        &self.children@[j],
                        |q: Seq<K::V>, x: V, y: V|
                            called_at(
                                fun,
                                pre.push(old(self).children@[j].key()) + q,
                                old(self).children@[j].path_view() + q,
                                x,
                                y,
                            ),
                    ),
                forall|j: int| i <= j < n ==> self.children@[j] == old(self).children@[j],
            decreases n - i,
        {
            proof {
                old(self).lemma_child_at(i as int);
            }
            let c = &self.children[i];
            let mut here = clone_path(rel);
            let ghost before = here@;
            here.push(c.path[c.path.len() - 1].duplicate());
            proof {
                assert(key_views(here@) =~= key_views(before).push(c.key()));
            }
            self.children[i].visit_node(&here, f);
            i += 1;
        }
        proof {
            let rel_fn = |q: Seq<K::V>, x: V, y: V| called_at(fun, pre + q, base + q, x, y);
            assert forall|j: int| 0 <= j < old(self).children@.len() implies (#[trigger] old(self).children@[j]).related_by(
                &self.children@[j],
                |q: Seq<K::V>, x: V, y: V| rel_fn(seq![old(self).children@[j].key()] + q, x, y),
            ) by {
                let k = old(self).children@[j].key();
                old(self).lemma_child_at(j);
                let inner = |q: Seq<K::V>, x: V, y: V|
                    called_at(fun, pre.push(k) + q, old(self).children@[j].path_view() + q, x, y);
                assert forall|q: Seq<K::V>| #[trigger]
                    old(self).children@[j]@.dom().contains(q) implies rel_fn(
                    seq![k] + q,
                    old(self).children@[j]@[q],
                    self.children@[j]@[q],
                ) by {
                    assert(pre.push(k) + q =~= pre + (seq![k] + q));
                    assert(base.push(k) + q =~= base + (seq![k] + q));
                }
            }
            old(self).lemma_assemble(self, rel_fn);
        }
    }

    /// Calls `f` with the path, the value and the full path of every node
    /// below this one, in pre-order; what `f` answers becomes the node's
    /// value. Paths and shape of the tree stay as they are.
    pub fn for_each_mut<F: FnMut(&[K], &V, &[K]) -> V>(&mut self, f: &mut F)
        requires
            old(self).wf(),
            forall|a: &[K], v: &V, b: &[K]| call_requires(*old(f), (a, v, b)),
        ensures
            *final(f) == *old(f),
            old(self).visited_with(final(self), *old(f)),
    {
        let ghost base = self.path_view();
        let ghost fun = *f;
        let n = self.children.len();
        let mut i: usize = 0;
        while i < n
            invariant
                0 <= i <= n,
                n == old(self).children@.len(),
                self.children@.len() == n,
                old(self).wf(),
                forall|a: &[K], v: &V, b: &[K]| call_requires(*f, (a, v, b)),
                *f == fun,
                fun == *old(f),
                base == old(self).path_view(),
                self.path == old(self).path,
                self.value == old(self).value,
                forall|j: int|
                    0 <= j < i ==> (#[trigger] old(self).children@[j]).related_by(
                        &self.children@[j],
                        |q: Seq<K::V>, x: V, y: V|
                            called_at(
                                fun,
                                seq![old(self).children@[j].key()] + q,
                                old(self).children@[j].path_view() + q,
                                x,
                                y,
                            ),
                    ),
                forall|j: int| i <= j < n ==> self.children@[j] == old(self).children@[j],
            decreases n - i,
        {
            proof {
                old(self).lemma_child_at(i as int);
            }
            let c = &self.children[i];
            let mut here: Vec<K> = Vec::new();
            here.push(c.path[c.path.len() - 1].duplicate());
            proof {
                assert(key_views(here@) =~= seq![c.key()]);
            }
            self.children[i].visit_node(&here, f);
            i += 1;
        }
        proof {
            let rel_fn = |p: Seq<K::V>, x: V, y: V|
                if p.len() == 0 {
                    y == x
                } else {
                    called_at(fun, p, base + p, x, y)
                };
            assert forall|j: int| 0 <= j < old(self).children@.len() implies (#[trigger] old(self).children@[j]).related_by(
                &self.children@[j],
                |q: Seq<K::V>, x: V, y: V| rel_fn(seq![old(self).children@[j].key()] + q, x, y),
            ) by {
                let k = old(self).children@[j].key();
                old(self).lemma_child_at(j);
                let inner = |q: Seq<K::V>, x: V, y: V|
                    called_at(fun, seq![k] + q, old(self).children@[j].path_view() + q, x, y);
                assert forall|q: Seq<K::V>| #[trigger]
                    old(self).children@[j]@.dom().contains(q) implies rel_fn(
                    seq![k] + q,
                    old(self).children@[j]@[q],
                    self.children@[j]@[q],
                ) by {
                    assert(base.push(k) + q =~= base + (seq![k] + q));
                }
            }
            old(self).lemma_assemble(self, rel_fn);
        }
    }
}

impl<K: PathKey, V> NamedNode<K, V> {
    /// Every path of a walk begins with `prefix` and the key of a child at
    /// position `i` or later.
    proof fn lemma_walk_from_heads(&self, prefix: Seq<K::V>, i: int, n: int) -> (j: int)
        requires
            self.wf(),
            0 <= i,
            0 <= n < self.walk_from(prefix, i).len(),
        ensures
            i <= j < self.child_nodes().len(),
            prefix.push(self.child_nodes()[j].key()).is_prefix_of(self.walk_from(prefix, i)[n]),
        decreases self, self.child_nodes().len() - i,
    {
        let c = self.child_nodes()[i];
        let here = prefix.push(c.key());
        let below = c.walk_from(here, 0);
        self.lemma_child_at(i);
        if n == 0 {
            i
        } else if n < 1 + below.len() {
            c.lemma_walk_from_sound(here, 0, n - 1);
            i
        } else {
            self.lemma_walk_from_heads(prefix, i + 1, n - 1 - below.len())
        }
    }

    /// The paths of a walk stand in strictly increasing order.
    pub proof fn lemma_walk_from_ascending(&self, prefix: Seq<K::V>, i: int, m: int, n: int)
        requires
            self.wf(),
            0 <= i,
            0 <= m < n < self.walk_from(prefix, i).len(),
        ensures
            path_lt::<K>(self.walk_from(prefix, i)[m], self.walk_from(prefix, i)[n]),
        decreases self, self.child_nodes().len() - i,
    {
        let c = self.child_nodes()[i];
        let k = c.key();
        let here = prefix.push(k);
        let below = c.walk_from(here, 0);
        let all = self.walk_from(prefix, i);
        let x = all[m];
        let y = all[n];
        self.lemma_child_at(i);
        if n < 1 + below.len() {
            // both at or under the child at position `i`
            c.lemma_walk_from_sound(here, 0, n - 1);
            if m == 0 {
                lemma_prefix_comes_first::<K>(here, y);
            } else {
                c.lemma_walk_from_ascending(here, 0, m - 1, n - 1);
            }
        } else if m >= 1 + below.len() {
            self.lemma_walk_from_ascending(prefix, i + 1, m - 1 - below.len(), n - 1 - below.len());
        } else {
            // `x` under the child at position `i`, `y` under a later child
            let j = self.lemma_walk_from_heads(prefix, i + 1, n - 1 - below.len());
            let kj = self.child_nodes()[j].key();
            if m != 0 {
                c.lemma_walk_from_sound(here, 0, m - 1);
            }
            let there = prefix.push(kj);
            let hx = x.subrange(0, here.len() as int);
            let hy = y.subrange(0, there.len() as int);
            assert forall|t: int| 0 <= t < prefix.len() implies x[t] == y[t] by {
                assert(hx[t] == x[t]);
                assert(hy[t] == y[t]);
            }
            assert(x[prefix.len() as int] == k) by {
                assert(hx[prefix.len() as int] == x[prefix.len() as int]);
            }
            assert(y[prefix.len() as int] == kj) by {
                assert(hy[prefix.len() as int] == y[prefix.len() as int]);
            }
            lemma_first_difference_decides::<K>(x, y, prefix.len() as int);
        }
    }

    /// Pre-order is the order of paths: the walk of a tree lists the paths
    /// of the tree in strictly increasing order, none twice.
    pub proof fn lemma_walk_ascending(&self, m: int, n: int)
        requires
            self.wf(),
            0 <= m < n < self.walk().len(),
        ensures
            path_lt::<K>(self.walk()[m], self.walk()[n]),
            self.walk()[m] != self.walk()[n],
    {
        self.lemma_walk_from_ascending(Seq::empty(), 0, m, n);
        lemma_path_lt_irreflexive::<K>(self.walk()[m]);
    }
}

} // verus!
