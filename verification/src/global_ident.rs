//! Fully qualified names: sequences of segments, the empty one being the root.

use vstd::prelude::*;
use vstd::string::*;
use vstd::std_specs::cmp::PartialEqSpecImpl;
use crate::ident_part::{text_lt, IdentPart};
use crate::path_key::{key_views, KeyOrder, PathKey};
use crate::text::collect_chars;

verus! {

/// The texts of a sequence of strings.
pub open spec fn string_views(path: Seq<String>) -> Seq<Seq<char>> {
    path.map_values(|s: String| s@)
}

/// The separator between the segments of a rendered name.
pub open spec fn separator() -> Seq<char> {
    seq![':', ':']
}

/// Whether a separator starts at position `i` of `s`.
pub open spec fn sep_at(s: Seq<char>, i: int) -> bool {
    0 <= i && i + 1 < s.len() && s[i] == ':' && s[i + 1] == ':'
}

/// The segments of `s` that remain when the current segment began at `start`
/// and the scan stands at `i`: separators are matched leftmost first and do
/// not overlap.
pub open spec fn split_from(s: Seq<char>, start: int, i: int) -> Seq<Seq<char>>
    decreases s.len() - i,
{
    if i >= s.len() {
        seq![s.subrange(start, s.len() as int)]
    } else if sep_at(s, i) {
        seq![s.subrange(start, i)] + split_from(s, i + 2, i + 2)
    } else {
        split_from(s, start, i + 1)
    }
}

/// The segments named by a qualified name: none for the empty text, else
/// the pieces between separators.
pub open spec fn split_qualified(s: Seq<char>) -> Seq<Seq<char>> {
    if s.len() == 0 {
        Seq::empty()
    } else {
        split_from(s, 0, 0)
    }
}

/// The text of a qualified name: its segments joined by the separator.
pub open spec fn render(parts: Seq<Seq<char>>) -> Seq<char>
    decreases parts.len(),
{
    if parts.len() == 0 {
        Seq::empty()
    } else if parts.len() == 1 {
        parts[0]
    } else {
        render(parts.drop_last()) + separator() + parts.last()
    }
}

/// All segments but the last; the root is its own parent.
pub open spec fn parent_of(parts: Seq<Seq<char>>) -> Seq<Seq<char>> {
    if parts.len() == 0 {
        parts
    } else {
        parts.drop_last()
    }
}

/// The last segment; the empty text for the root.
pub open spec fn last_of(parts: Seq<Seq<char>>) -> Seq<char> {
    if parts.len() == 0 {
        Seq::empty()
    } else {
        parts.last()
    }
}

/// Whether `base` is a non-empty proper prefix of `parts`.
pub open spec fn has_base(parts: Seq<Seq<char>>, base: Seq<Seq<char>>) -> bool {
    0 < base.len() < parts.len() && parts.subrange(0, base.len() as int) == base
}

/// Lexicographic order over segments, each compared by its text.
pub open spec fn ident_lt(a: Seq<Seq<char>>, b: Seq<Seq<char>>) -> bool
    decreases a.len(),
{
    if b.len() == 0 {
        false
    } else if a.len() == 0 {
        true
    } else if a[0] != b[0] {
        text_lt(a[0], b[0])
    } else {
        ident_lt(a.drop_first(), b.drop_first())
    }
}

/// No name comes before itself.
pub proof fn lemma_ident_lt_irreflexive(a: Seq<Seq<char>>)
    ensures
        !ident_lt(a, a),
    decreases a.len(),
{
    if a.len() > 0 {
        lemma_ident_lt_irreflexive(a.drop_first());
    }
}

/// The order of names is transitive.
pub proof fn lemma_ident_lt_transitive(a: Seq<Seq<char>>, b: Seq<Seq<char>>, c: Seq<Seq<char>>)
    requires
        ident_lt(a, b),
        ident_lt(b, c),
    ensures
        ident_lt(a, c),
    decreases a.len(),
{
    if a.len() > 0 {
        if a[0] == b[0] && b[0] == c[0] {
            lemma_ident_lt_transitive(a.drop_first(), b.drop_first(), c.drop_first());
        } else if a[0] != b[0] && b[0] != c[0] {
            IdentPart::lemma_key_lt_transitive(a[0], b[0], c[0]);
            IdentPart::lemma_key_lt_irreflexive(a[0]);
        }
    }
}

/// Two names are equal, or one comes before the other.
pub proof fn lemma_ident_lt_total(a: Seq<Seq<char>>, b: Seq<Seq<char>>)
    ensures
        ident_lt(a, b) || a == b || ident_lt(b, a),
    decreases a.len(),
{
    if a.len() > 0 && b.len() > 0 {
        if a[0] == b[0] {
            lemma_ident_lt_total(a.drop_first(), b.drop_first());
            if a.drop_first() == b.drop_first() {
                assert(a =~= seq![a[0]] + a.drop_first());
            }
        } else {
            IdentPart::lemma_key_lt_total(a[0], b[0]);
        }
    }
}

/// The order of names is the order of paths of segments.
pub proof fn lemma_ident_order_is_path_order(a: Seq<Seq<char>>, b: Seq<Seq<char>>)
    ensures
        ident_lt(a, b) == crate::path_map::path_lt::<IdentPart>(a, b),
    decreases a.len(),
{
    if a.len() > 0 && b.len() > 0 && a[0] == b[0] {
        lemma_ident_order_is_path_order(a.drop_first(), b.drop_first());
    }
}

/// Once the first `i` segments agree, the rest decides the comparison.
proof fn lemma_ident_lt_skip(a: Seq<Seq<char>>, b: Seq<Seq<char>>, i: int)
    requires
        0 <= i <= a.len(),
        i <= b.len(),
        forall|j: int| 0 <= j < i ==> a[j] == b[j],
    ensures
        ident_lt(a, b) == ident_lt(a.skip(i), b.skip(i)),
    decreases i,
{
    if i > 0 {
        lemma_ident_lt_skip(a, b, i - 1);
        let x = a.skip(i - 1);
        let y = b.skip(i - 1);
        assert(x.drop_first() =~= a.skip(i));
        assert(y.drop_first() =~= b.skip(i));
    } else {
        assert(a.skip(0) =~= a);
        assert(b.skip(0) =~= b);
    }
}

/// Dropping the last segment of a name and putting it back gives the name.
pub proof fn lemma_parent_last_round_trip(g: Seq<Seq<char>>)
    requires
        g.len() > 0,
    ensures
        parent_of(g).push(last_of(g)) == g,
{
}

/// The parent of a name built from a path and a final segment is the path.
pub proof fn lemma_parent_of_push(p: Seq<Seq<char>>, n: Seq<char>)
    ensures
        parent_of(p.push(n)) == p,
        last_of(p.push(n)) == n,
{
}

/// The text of a segment sequence that starts with `a`.
proof fn lemma_render_cons(a: Seq<char>, rest: Seq<Seq<char>>)
    requires
        rest.len() > 0,
    ensures
        render(seq![a] + rest) == a + separator() + render(rest),
    decreases rest.len(),
{
    let all = seq![a] + rest;
    if rest.len() == 1 {
        assert(render(all.drop_last()) == a);
    } else {
        assert(all.drop_last() =~= seq![a] + rest.drop_last());
        lemma_render_cons(a, rest.drop_last());
    }
}

/// Joining the segments found from a scan position gives back the text
/// from where the current segment began.
proof fn lemma_render_split_from(s: Seq<char>, start: int, i: int)
    requires
        0 <= start <= i <= s.len(),
    ensures
        split_from(s, start, i).len() > 0,
        render(split_from(s, start, i)) == s.subrange(start, s.len() as int),
    decreases s.len() - i,
{
    if i >= s.len() {
    } else if sep_at(s, i) {
        lemma_render_split_from(s, i + 2, i + 2);
        lemma_render_cons(s.subrange(start, i), split_from(s, i + 2, i + 2));
    } else {
        lemma_render_split_from(s, start, i + 1);
    }
}

/// Splitting a qualified name and joining the segments again gives the
/// text that was split.
pub proof fn lemma_render_split(s: Seq<char>)
    ensures
        render(split_qualified(s)) == s,
{
    if s.len() > 0 {
        lemma_render_split_from(s, 0, 0);
    }
}

/// A fully qualified name. Its identity is the sequence of its segments'
/// texts; the empty sequence is the root.
#[derive(Debug, PartialOrd, Ord, Eq, Hash)]
pub struct GlobalIdent(Vec<IdentPart>);

impl View for GlobalIdent {
    type V = Seq<Seq<char>>;

    closed spec fn view(&self) -> Seq<Seq<char>> {
        key_views(self.0@)
    }
}

impl PartialEq for GlobalIdent {
    fn eq(&self, other: &Self) -> (r: bool) {
        self.compare(other) == KeyOrder::Equal
    }
}

impl PartialEqSpecImpl for GlobalIdent {
    open spec fn obeys_eq_spec() -> bool {
        true
    }

    open spec fn eq_spec(&self, other: &Self) -> bool {
        self@ == other@
    }
}

impl Clone for GlobalIdent {
    fn clone(&self) -> (r: Self)
        ensures
            r@ == self@,
    {
        GlobalIdent(clone_parts(self.0.as_slice()))
    }
}

/// A copy of a sequence of segments.
fn clone_parts(path: &[IdentPart]) -> (r: Vec<IdentPart>)
    ensures
        key_views(r@) == key_views(path@),
{
    let mut out: Vec<IdentPart> = Vec::new();
    let mut i: usize = 0;
    while i < path.len()
        invariant
            0 <= i <= path.len(),
            out@.len() == i,
            forall|j: int| 0 <= j < i ==> out@[j]@ == path@[j]@,
        decreases path.len() - i,
    {
        out.push(path[i].clone());
        i += 1;
    }
    out
}

impl GlobalIdent {
    /// The root: the name with no segments.
    pub fn root() -> (r: GlobalIdent)
        ensures
            r@ == Seq::<Seq<char>>::empty(),
    {
        let r = GlobalIdent(Vec::new());
        r
    }

    /// The segments of the name, first to last.
    pub fn to_parts(&self) -> (r: Vec<IdentPart>)
        ensures
            key_views(r@) == self@,
    {
        clone_parts(self.0.as_slice())
    }

    /// The segments of the name, borrowed.
    pub fn parts(&self) -> (r: &[IdentPart])
        ensures
            key_views(r@) == self@,
    {
        self.0.as_slice()
    }

    /// The number of segments.
    pub fn len(&self) -> (r: usize)
        ensures
            r == self@.len(),
    {
        self.0.len()
    }

    /// Whether this is the root.
    pub fn is_root(&self) -> (r: bool)
        ensures
            r == (self@.len() == 0),
    {
        self.0.len() == 0
    }

    /// The first segment, if the name has one.
    pub fn first_part(&self) -> (r: Option<&IdentPart>)
        ensures
            self@.len() == 0 ==> r is None,
            self@.len() > 0 ==> r is Some && r->0@ == self@[0],
    {
        if self.0.len() == 0 {
            None
        } else {
            Some(&self.0[0])
        }
    }

    /// The name without its last segment; the root for the root.
    pub fn parent(&self) -> (r: GlobalIdent)
        ensures
            r@ == parent_of(self@),
    {
        let n = self.0.len();
        if n == 0 {
            return self.clone();
        }
        let mut out: Vec<IdentPart> = Vec::new();
        let mut i: usize = 0;
        while i < n - 1
            invariant
                n == self.0@.len(),
                n > 0,
                0 <= i <= n - 1,
                out@.len() == i,
                forall|j: int| 0 <= j < i ==> out@[j]@ == self.0@[j]@,
            decreases n - i,
        {
            out.push(self.0[i].clone());
            i += 1;
        }
        let r = GlobalIdent(out);
        r
    }

    /// The last segment; the segment with empty text for the root.
    pub fn last_part(&self) -> (r: IdentPart)
        ensures
            r@ == last_of(self@),
    {
        let n = self.0.len();
        if n == 0 {
            let r = IdentPart::from_name("");
            proof {
                reveal_strlit("");
            }
            r
        } else {
            self.0[n - 1].clone()
        }
    }

    /// The name `path` taken relative to the scope `mod_`.
    pub fn from_mod_and_path(mod_: &GlobalIdent, path: &[String]) -> (r: Self)
        ensures
            r@ == mod_@ + string_views(path@),
    {
        let mut out = clone_parts(mod_.0.as_slice());
        let mut i: usize = 0;
        while i < path.len()
            invariant
                0 <= i <= path.len(),
                key_views(out@) == mod_@ + string_views(path@.subrange(0, i as int)),
            decreases path.len() - i,
        {
            let ghost before = out@;
            out.push(IdentPart::from_name(path[i].as_str()));
            proof {
                assert(key_views(out@) =~= key_views(before).push(path@[i as int]@));
            }
            i += 1;
        }
        GlobalIdent(out)
    }

    /// The name of `name` inside the scope `mod_`.
    pub fn from_mod_and_name(mod_: &GlobalIdent, name: &str) -> (r: Self)
        ensures
            r@ == mod_@.push(name@),
    {
        let mut out = clone_parts(mod_.0.as_slice());
        out.push(IdentPart::from_name(name));
        GlobalIdent(out)
    }

    /// The name made of the segments of `path` followed by `name`.
    pub fn from_path_and_name(path: &[String], name: &str) -> (r: Self)
        ensures
            r@ == string_views(path@).push(name@),
    {
        let base = Self::from_path(path);
        Self::from_mod_and_name(&base, name)
    }

    /// The name made of the segments of `path`.
    pub fn from_path(path: &[String]) -> (r: Self)
        ensures
            r@ == string_views(path@),
    {
        let root = Self::root();
        let r = Self::from_mod_and_path(&root, path);
        r
    }

    /// The name made of the given segments.
    pub fn from_ident_path(path: &[IdentPart]) -> (r: Self)
        ensures
            r@ == key_views(path@),
    {
        GlobalIdent(clone_parts(path))
    }

    /// The name `base` followed by the given segments.
    pub fn join(base: &GlobalIdent, rest: &[IdentPart]) -> (r: Self)
        ensures
            r@ == base@ + key_views(rest@),
    {
        let mut out = clone_parts(base.0.as_slice());
        let mut i: usize = 0;
        while i < rest.len()
            invariant
                0 <= i <= rest.len(),
                key_views(out@) == base@ + key_views(rest@.subrange(0, i as int)),
            decreases rest.len() - i,
        {
            let ghost before = out@;
            out.push(rest[i].clone());
            proof {
                assert(key_views(out@) =~= key_views(before).push(rest@[i as int]@));
            }
            i += 1;
        }
        GlobalIdent(out)
    }

    /// The name with its base `from` replaced by `to`, when `from` is a
    /// non-empty proper prefix of the name.
    pub fn try_replace_base(&self, from: &GlobalIdent, to: &GlobalIdent) -> (r: Option<
        GlobalIdent,
    >)
        ensures
            r is Some <==> has_base(self@, from@),
            r matches Some(g) ==> g@ == to@ + self@.subrange(
                from@.len() as int,
                self@.len() as int,
            ),
    {
        let k = from.0.len();
        let n = self.0.len();
        if k == 0 || k >= n {
            return None;
        }
        let mut i: usize = 0;
        while i < k
            invariant
                0 <= i <= k,
                k == from.0@.len(),
                n == self.0@.len(),
                k < n,
                forall|j: int| 0 <= j < i ==> self.0@[j]@ == from.0@[j]@,
            decreases k - i,
        {
            if !(self.0[i] == from.0[i]) {
                proof {
                    assert(self@.subrange(0, k as int)[i as int] == self.0@[i as int]@);
                }
                return None;
            }
            i += 1;
        }
        proof {
            assert(self@.subrange(0, k as int) =~= from@);
        }
        let mut out = clone_parts(to.0.as_slice());
        let mut j: usize = k;
        while j < n
            invariant
                k <= j <= n,
                n == self.0@.len(),
                key_views(out@) == to@ + self@.subrange(k as int, j as int),
            decreases n - j,
        {
            let ghost before = out@;
            out.push(self.0[j].clone());
            proof {
                assert(key_views(out@) =~= key_views(before).push(self.0@[j as int]@));
            }
            j += 1;
        }
        Some(GlobalIdent(out))
    }

    /// The name written as `qualified_name`: the root for the empty text,
    /// else the pieces between the separators.
    pub fn from_qualified_name(qualified_name: &str) -> (r: GlobalIdent)
        ensures
            r@ == split_qualified(qualified_name@),
    {
        let chars = collect_chars(qualified_name);
        let n = chars.len();
        let ghost s = qualified_name@;
        let mut out: Vec<IdentPart> = Vec::new();
        if n == 0 {
            return GlobalIdent(out);
        }
        let mut start: usize = 0;
        let mut i: usize = 0;
        while i < n
            invariant
                chars@ == s,
                s == qualified_name@,
                n == s.len(),
                0 <= start <= i <= n,
                key_views(out@) + split_from(s, start as int, i as int) == split_from(s, 0, 0),
            decreases n - i,
        {
            if i + 1 < n && chars[i] == ':' && chars[i + 1] == ':' {
                let piece = qualified_name.substring_char(start, i);
                out.push(IdentPart::from_name(piece));
                i += 2;
                start = i;
            } else {
                i += 1;
            }
        }
        let piece = qualified_name.substring_char(start, n);
        out.push(IdentPart::from_name(piece));
        GlobalIdent(out)
    }

    /// The text of the name: its segments joined by `::`.
    pub fn to_string(&self) -> (r: String)
        ensures
            r@ == render(self@),
    {
        let mut out = String::new();
        let n = self.0.len();
        let mut i: usize = 0;
        while i < n
            invariant
                n == self.0@.len(),
                0 <= i <= n,
                out@ == render(self@.subrange(0, i as int)),
            decreases n - i,
        {
            proof {
                reveal_strlit("::");
                let next = self@.subrange(0, i + 1);
                assert(next.drop_last() =~= self@.subrange(0, i as int));
            }
            if i > 0 {
                out.append("::");
            }
            out.append(self.0[i].as_str());
            i += 1;
        }
        assert(self@.subrange(0, n as int) =~= self@);
        out
    }

    /// Puts the segments of this name in front of `path`, in their order, so
    /// that a reference written relative to this name becomes absolute. The
    /// name is the base: to qualify a reference with the scope in which a
    /// declaration stands, call this on the declaration's `parent()`.
    pub fn qualify_syn_path(&self, path: &mut Vec<String>)
        ensures
            string_views(final(path)@) == self@ + string_views(old(path)@),
    {
        let n = self.0.len();
        let mut out: Vec<String> = Vec::new();
        let mut i: usize = 0;
        while i < n
            invariant
                n == self.0@.len(),
                0 <= i <= n,
                string_views(out@) == self@.subrange(0, i as int),
            decreases n - i,
        {
            out.push(self.0[i].to_string());
            proof {
                assert(self@.subrange(0, i + 1) =~= self@.subrange(0, i as int).push(
                    self.0@[i as int]@,
                ));
            }
            i += 1;
        }
        proof {
            assert(self@.subrange(0, n as int) =~= self@);
        }
        out.append(path);
        *path = out;
    }

    /// Three-way comparison in the lexicographic order over segments.
    pub fn compare(&self, other: &GlobalIdent) -> (o: KeyOrder)
        ensures
            o == KeyOrder::Less <==> ident_lt(self@, other@),
            o == KeyOrder::Equal <==> self@ == other@,
            o == KeyOrder::Greater <==> ident_lt(other@, self@),
    {
        let a = &self.0;
        let b = &other.0;
        proof {
            lemma_ident_lt_irreflexive(self@);
            if ident_lt(self@, other@) && ident_lt(other@, self@) {
                lemma_ident_lt_transitive(self@, other@, self@);
            }
        }
        let mut i: usize = 0;
        while i < a.len() && i < b.len()
            invariant
                a@ == self.0@,
                b@ == other.0@,
                0 <= i <= a.len(),
                i <= b.len(),
                forall|j: int| 0 <= j < i ==> self@[j] == other@[j],
                !(ident_lt(self@, other@) && ident_lt(other@, self@)),
                !ident_lt(self@, self@),
            decreases a.len() - i,
        {
            let o = a[i].compare(&b[i]);
            proof {
                lemma_ident_lt_skip(self@, other@, i as int);
                lemma_ident_lt_skip(other@, self@, i as int);
                IdentPart::lemma_key_lt_irreflexive(a@[i as int]@);
            }
            match o {
                KeyOrder::Less => {
                    return KeyOrder::Less;
                },
                KeyOrder::Greater => {
                    return KeyOrder::Greater;
                },
                KeyOrder::Equal => {},
            }
            i += 1;
        }
        proof {
            lemma_ident_lt_skip(self@, other@, i as int);
            lemma_ident_lt_skip(other@, self@, i as int);
        }
        if a.len() < b.len() {
            KeyOrder::Less
        } else if a.len() > b.len() {
            KeyOrder::Greater
        } else {
            assert(self@ =~= other@);
            KeyOrder::Equal
        }
    }
}

impl PathKey for GlobalIdent {
    open spec fn key_lt(a: Seq<Seq<char>>, b: Seq<Seq<char>>) -> bool {
        ident_lt(a, b)
    }

    proof fn lemma_key_lt_irreflexive(a: Seq<Seq<char>>) {
        lemma_ident_lt_irreflexive(a);
    }

    proof fn lemma_key_lt_transitive(a: Seq<Seq<char>>, b: Seq<Seq<char>>, c: Seq<Seq<char>>) {
        lemma_ident_lt_transitive(a, b, c);
    }

    proof fn lemma_key_lt_total(a: Seq<Seq<char>>, b: Seq<Seq<char>>) {
        lemma_ident_lt_total(a, b);
    }

    fn compare(&self, other: &Self) -> (o: KeyOrder) {
        GlobalIdent::compare(self, other)
    }

    fn duplicate(&self) -> (r: Self) {
        self.clone()
    }
}

} // verus!
