//! The resolver: what a fully qualified candidate name refers to.

use vstd::prelude::*;
use vstd::slice::slice_subrange;
use crate::global_ident::GlobalIdent;
use crate::ident_part::IdentPart;
use crate::ident_set::IdentSet;
use crate::item::{Ast, AstView, DeclAst, DeclAstView};
use crate::model::{
    Binding, BindingView, Database, DbError, DbErrorView, Resolution, ResolutionView, Snapshot,
};
use crate::named_tree::NamedNode;
use crate::path_key::key_views;

verus! {

/// How many imports a lookup follows one after the other. An import that
/// would have to be followed beyond that counts as failed. Stepping into a
/// child is no import and does not count.
pub const MAX_LOOKUP_DEPTH: usize = 256;

/// What a lookup answers: a resolution, or the error that ends the search.
pub type Outcome = Result<ResolutionView, DbErrorView>;

/// The state of a lookup after a step: the answer of the step and the
/// candidates that were looked up from the root so far.
pub struct Visit {
    pub outcome: Outcome,
    pub checked: Set<Seq<Seq<char>>>,
}

/// Whether an answer ends the search: a declaration was found, or the
/// search ran into an error.
pub open spec fn decides(o: Outcome) -> bool {
    o is Err || o matches Ok(ResolutionView::Fully(_))
}

/// Whether one of the imports of a binding starts at a name that leads
/// out of the table.
pub open spec fn has_opaque_alias(b: BindingView, roots: Set<Seq<char>>) -> bool {
    exists|i: int|
        0 <= i < b.alias_for.len() && (#[trigger] b.alias_for[i]).len() > 0 && roots.contains(
            b.alias_for[i][0],
        )
}

/// The answer at the binding `b` with address `at`, when the candidate is
/// used up and none of the binding's imports led to a declaration.
pub open spec fn at_node(b: BindingView, at: Seq<Seq<char>>, roots: Set<Seq<char>>) -> Outcome {
    if b.type_ast is Some {
        Ok(ResolutionView::Fully(b.type_ast->0))
    } else if b.alias_for.len() > 0 {
        if has_opaque_alias(b, roots) {
            Ok(ResolutionView::Fully(DeclAstView { address: at, ast: AstView::Stub }))
        } else if b.alias_for.len() == 1 {
            Ok(ResolutionView::Partially(b.alias_for[0]))
        } else {
            Err(DbErrorView::AmbiguousPartialResolution(at))
        }
    } else {
        Ok(ResolutionView::Failed)
    }
}

/// Looks `path` up from the root, unless this lookup did so before.
pub open spec fn enter_root(
    snap: Snapshot,
    roots: Set<Seq<char>>,
    path: Seq<Seq<char>>,
    depth: nat,
    checked: Set<Seq<Seq<char>>>,
) -> Visit
    decreases MAX_LOOKUP_DEPTH - depth, 3nat, 0nat,
{
    if checked.contains(path) {
        Visit { outcome: Ok(ResolutionView::Partially(Seq::empty())), checked }
    } else {
        lookup_at(snap, roots, Seq::empty(), path, depth, checked.insert(path))
    }
}

/// Tries the targets from position `i` on, each with `rest` appended and
/// looked up from the root: the first answer that ends the search is the
/// answer; where none does, or the depth is used up, nothing is found.
pub open spec fn try_targets(
    snap: Snapshot,
    roots: Set<Seq<char>>,
    targets: Seq<Seq<Seq<char>>>,
    i: int,
    rest: Seq<Seq<char>>,
    depth: nat,
    checked: Set<Seq<Seq<char>>>,
) -> Visit
    decreases MAX_LOOKUP_DEPTH - depth, 1nat, targets.len() - i,
{
    if i < 0 || i >= targets.len() || depth >= MAX_LOOKUP_DEPTH {
        Visit { outcome: Ok(ResolutionView::Failed), checked }
    } else {
        let v = enter_root(snap, roots, targets[i] + rest, depth + 1, checked);
        if decides(v.outcome) {
            v
        } else {
            try_targets(snap, roots, targets, i + 1, rest, depth, v.checked)
        }
    }
}

/// Looks `rest` up from the binding with address `at`: first through the
/// binding's imports, in their order; then, where `rest` is used up, at
/// the binding itself; else in the child under the next segment; and only
/// where there is no such child, through the scopes imported wholesale.
pub open spec fn lookup_at(
    snap: Snapshot,
    roots: Set<Seq<char>>,
    at: Seq<Seq<char>>,
    rest: Seq<Seq<char>>,
    depth: nat,
    checked: Set<Seq<Seq<char>>>,
) -> Visit
    decreases MAX_LOOKUP_DEPTH - depth, 2nat, rest.len(),
{
    let b = snap[at];
    let a = try_targets(snap, roots, b.alias_for, 0, rest, depth, checked);
    if decides(a.outcome) {
        a
    } else if rest.len() == 0 {
        Visit { outcome: at_node(b, at, roots), checked: a.checked }
    } else if snap.dom().contains(at.push(rest[0])) {
        lookup_at(snap, roots, at.push(rest[0]), rest.drop_first(), depth, a.checked)
    } else {
        try_targets(snap, roots, b.wildcard_alias_for, 0, rest, depth, a.checked)
    }
}

/// What the table answers for the candidate `path`.
pub open spec fn lookup(snap: Snapshot, roots: Set<Seq<char>>, path: Seq<Seq<char>>) -> Outcome {
    enter_root(snap, roots, path, 0, Set::empty()).outcome
}

/// The model of an answer.
pub open spec fn outcome_view(r: Result<Resolution, DbError>) -> Outcome {
    match r {
        Ok(x) => Ok(x@),
        Err(e) => Err(e@),
    }
}

/// Imports come first: where trying the imports of a binding ends the
/// search, with a declaration or with an error, that is the answer,
/// whatever the binding declares and whatever hangs below it.
pub proof fn lemma_imports_come_first(
    snap: Snapshot,
    roots: Set<Seq<char>>,
    at: Seq<Seq<char>>,
    rest: Seq<Seq<char>>,
    depth: nat,
    checked: Set<Seq<Seq<char>>>,
)
    requires
        snap.dom().contains(at),
        decides(try_targets(snap, roots, snap[at].alias_for, 0, rest, depth, checked).outcome),
    ensures
        lookup_at(snap, roots, at, rest, depth, checked) == try_targets(
            snap,
            roots,
            snap[at].alias_for,
            0,
            rest,
            depth,
            checked,
        ),
{
}

/// Imports come before what is declared in place: where a binding holds
/// a declaration of its own and its first import leads to a declaration,
/// the answer is the declaration that the import leads to.
pub proof fn lemma_alias_priority(
    snap: Snapshot,
    roots: Set<Seq<char>>,
    at: Seq<Seq<char>>,
    rest: Seq<Seq<char>>,
    depth: nat,
    checked: Set<Seq<Seq<char>>>,
)
    requires
        depth < MAX_LOOKUP_DEPTH,
        snap.dom().contains(at),
        snap[at].alias_for.len() > 0,
        enter_root(snap, roots, snap[at].alias_for[0] + rest, depth + 1, checked).outcome matches Ok(
            ResolutionView::Fully(_),
        ),
    ensures
        lookup_at(snap, roots, at, rest, depth, checked) == enter_root(
            snap,
            roots,
            snap[at].alias_for[0] + rest,
            depth + 1,
            checked,
        ),
{
    reveal_with_fuel(lookup_at, 2);
    reveal_with_fuel(try_targets, 2);
}

/// A child comes before the scopes imported wholesale: where the next
/// segment names a child, and the imports of the binding lead to no
/// declaration, the lookup goes on in the child, and what the scope
/// imports wholesale is not read.
pub proof fn lemma_child_before_wildcard(
    snap: Snapshot,
    roots: Set<Seq<char>>,
    at: Seq<Seq<char>>,
    rest: Seq<Seq<char>>,
    depth: nat,
    checked: Set<Seq<Seq<char>>>,
)
    requires
        snap.dom().contains(at),
        rest.len() > 0,
        snap.dom().contains(at.push(rest[0])),
        !decides(try_targets(snap, roots, snap[at].alias_for, 0, rest, depth, checked).outcome),
    ensures
        lookup_at(snap, roots, at, rest, depth, checked) == lookup_at(
            snap,
            roots,
            at.push(rest[0]),
            rest.drop_first(),
            depth,
            try_targets(snap, roots, snap[at].alias_for, 0, rest, depth, checked).checked,
        ),
{
}

/// Where the next segment names a child that holds a declaration, and no
/// imports stand in the way, the answer is that declaration, whatever the
/// scope imports wholesale.
pub proof fn lemma_declared_child_resolves(
    snap: Snapshot,
    roots: Set<Seq<char>>,
    at: Seq<Seq<char>>,
    name: Seq<char>,
    depth: nat,
    checked: Set<Seq<Seq<char>>>,
)
    requires
        snap.dom().contains(at),
        snap[at].alias_for.len() == 0,
        snap.dom().contains(at.push(name)),
        snap[at.push(name)].alias_for.len() == 0,
        snap[at.push(name)].type_ast is Some,
    ensures
        lookup_at(snap, roots, at, seq![name], depth, checked).outcome == Ok::<
            ResolutionView,
            DbErrorView,
        >(ResolutionView::Fully(snap[at.push(name)].type_ast->0)),
{
    reveal_with_fuel(lookup_at, 3);
    reveal_with_fuel(try_targets, 3);
}

/// The scopes imported wholesale are asked where there is no child: the
/// answer is then what trying them one after the other gives.
pub proof fn lemma_wildcard_fallback(
    snap: Snapshot,
    roots: Set<Seq<char>>,
    at: Seq<Seq<char>>,
    rest: Seq<Seq<char>>,
    depth: nat,
    checked: Set<Seq<Seq<char>>>,
)
    requires
        snap.dom().contains(at),
        snap[at].alias_for.len() == 0,
        rest.len() > 0,
        !snap.dom().contains(at.push(rest[0])),
    ensures
        lookup_at(snap, roots, at, rest, depth, checked) == try_targets(
            snap,
            roots,
            snap[at].wildcard_alias_for,
            0,
            rest,
            depth,
            checked,
        ),
{
    reveal_with_fuel(lookup_at, 2);
    reveal_with_fuel(try_targets, 2);
}

/// A name imported from below a name that leads out of the table is never
/// lost: where the candidate is used up at a binding without a declaration
/// of its own, and one of the binding's imports starts at such a name, the
/// answer is a declaration, a stub at the binding's address where the
/// imports lead to none, unless following the imports ran into an error.
pub proof fn lemma_opaque_boundary(
    snap: Snapshot,
    roots: Set<Seq<char>>,
    at: Seq<Seq<char>>,
    depth: nat,
    checked: Set<Seq<Seq<char>>>,
)
    requires
        snap.dom().contains(at),
        snap[at].type_ast is None,
        has_opaque_alias(snap[at], roots),
    ensures
        decides(lookup_at(snap, roots, at, Seq::empty(), depth, checked).outcome),
        !decides(
            try_targets(snap, roots, snap[at].alias_for, 0, Seq::empty(), depth, checked).outcome,
        ) ==> lookup_at(snap, roots, at, Seq::empty(), depth, checked).outcome == Ok::<
            ResolutionView,
            DbErrorView,
        >(ResolutionView::Fully(DeclAstView { address: at, ast: AstView::Stub })),
{
    reveal_with_fuel(lookup_at, 2);
    reveal_with_fuel(try_targets, 2);
}

/// A lookup only ever adds to the candidates it has looked up from the
/// root.
pub proof fn lemma_checked_grows(
    snap: Snapshot,
    roots: Set<Seq<char>>,
    at: Seq<Seq<char>>,
    targets: Seq<Seq<Seq<char>>>,
    i: int,
    rest: Seq<Seq<char>>,
    depth: nat,
    checked: Set<Seq<Seq<char>>>,
)
    ensures
        checked.subset_of(enter_root(snap, roots, rest, depth, checked).checked),
        checked.subset_of(try_targets(snap, roots, targets, i, rest, depth, checked).checked),
        checked.subset_of(lookup_at(snap, roots, at, rest, depth, checked).checked),
{
    if !checked.contains(rest) {
        lemma_checked_grows_at(snap, roots, Seq::empty(), rest, depth, checked.insert(rest));
    }
    lemma_checked_grows_targets(snap, roots, targets, i, rest, depth, checked);
    lemma_checked_grows_at(snap, roots, at, rest, depth, checked);
}

/// The part of `lemma_checked_grows` that speaks of a lookup from a node.
proof fn lemma_checked_grows_at(
    snap: Snapshot,
    roots: Set<Seq<char>>,
    at: Seq<Seq<char>>,
    rest: Seq<Seq<char>>,
    depth: nat,
    checked: Set<Seq<Seq<char>>>,
)
    ensures
        checked.subset_of(lookup_at(snap, roots, at, rest, depth, checked).checked),
    decreases MAX_LOOKUP_DEPTH - depth, 2nat, rest.len(),
{
    let b = snap[at];
    let a = try_targets(snap, roots, b.alias_for, 0, rest, depth, checked);
    lemma_checked_grows_targets(snap, roots, b.alias_for, 0, rest, depth, checked);
    if decides(a.outcome) {
    } else if rest.len() == 0 {
    } else if snap.dom().contains(at.push(rest[0])) {
        lemma_checked_grows_at(snap, roots, at.push(rest[0]), rest.drop_first(), depth, a.checked);
    } else {
        lemma_checked_grows_targets(snap, roots, b.wildcard_alias_for, 0, rest, depth, a.checked);
    }
}

/// The part of `lemma_checked_grows` that speaks of trying targets.
proof fn lemma_checked_grows_targets(
    snap: Snapshot,
    roots: Set<Seq<char>>,
    targets: Seq<Seq<Seq<char>>>,
    i: int,
    rest: Seq<Seq<char>>,
    depth: nat,
    checked: Set<Seq<Seq<char>>>,
)
    ensures
        checked.subset_of(try_targets(snap, roots, targets, i, rest, depth, checked).checked),
    decreases MAX_LOOKUP_DEPTH - depth, 1nat, targets.len() - i,
{
    if 0 <= i < targets.len() && depth < MAX_LOOKUP_DEPTH {
        let path = targets[i] + rest;
        let v = enter_root(snap, roots, path, depth + 1, checked);
        if !checked.contains(path) {
            lemma_checked_grows_at(snap, roots, Seq::empty(), path, depth + 1, checked.insert(path));
        }
        if !decides(v.outcome) {
            lemma_checked_grows_targets(snap, roots, targets, i + 1, rest, depth, v.checked);
        }
    }
}

/// A declared name resolves to its declaration: where a name leads down
/// the tree to a binding with a declaration in the type namespace, and no
/// binding on the way imports anything, the answer at every step of the
/// way down is that declaration, however long the name is.
pub proof fn lemma_declared_resolves(
    snap: Snapshot,
    roots: Set<Seq<char>>,
    path: Seq<Seq<char>>,
    i: int,
    depth: nat,
    checked: Set<Seq<Seq<char>>>,
)
    requires
        0 <= i <= path.len(),
        forall|j: int| 0 <= j <= path.len() ==> snap.dom().contains(#[trigger] path.subrange(0, j)),
        forall|j: int|
            0 <= j <= path.len() ==> snap[#[trigger] path.subrange(0, j)].alias_for.len() == 0,
        snap[path].type_ast is Some,
    ensures
        lookup_at(snap, roots, path.subrange(0, i), path.skip(i), depth, checked).outcome == Ok::<
            ResolutionView,
            DbErrorView,
        >(ResolutionView::Fully(snap[path].type_ast->0)),
    decreases path.len() - i,
{
    reveal_with_fuel(lookup_at, 2);
    reveal_with_fuel(try_targets, 2);
    let at = path.subrange(0, i);
    let rest = path.skip(i);
    assert(path.subrange(0, path.len() as int) =~= path);
    if i != path.len() {
        assert(at.push(rest[0]) =~= path.subrange(0, i + 1));
        assert(rest.drop_first() =~= path.skip(i + 1));
        lemma_declared_resolves(snap, roots, path, i + 1, depth, checked);
    }
}

/// Whether every name on the way to `path`, and `path` itself, is in the
/// snapshot.
pub open spec fn reachable(snap: Snapshot, path: Seq<Seq<char>>) -> bool {
    forall|j: int| 0 <= j <= path.len() ==> snap.dom().contains(#[trigger] path.subrange(0, j))
}

/// Whether no binding of the snapshot imports anything.
pub open spec fn without_imports(snap: Snapshot) -> bool {
    forall|q: Seq<Seq<char>>| #[trigger]
        snap.dom().contains(q) ==> snap[q].alias_for.len() == 0
            && snap[q].wildcard_alias_for.len() == 0
}

/// What a table without imports answers for `path`, whatever its length:
/// the declaration in the type namespace of the binding that `path` leads
/// to, if there is such a binding and it holds one; else nothing.
pub open spec fn plain_answer(snap: Snapshot, path: Seq<Seq<char>>) -> Outcome {
    if reachable(snap, path) && snap[path].type_ast is Some {
        Ok(ResolutionView::Fully(snap[path].type_ast->0))
    } else {
        Ok(ResolutionView::Failed)
    }
}

/// The part of `lemma_lookup_without_imports` that speaks of a lookup from
/// the binding that the first `i` segments lead to.
proof fn lemma_lookup_at_without_imports(
    snap: Snapshot,
    roots: Set<Seq<char>>,
    path: Seq<Seq<char>>,
    i: int,
    depth: nat,
    checked: Set<Seq<Seq<char>>>,
)
    requires
        without_imports(snap),
        0 <= i <= path.len(),
        forall|j: int| 0 <= j <= i ==> snap.dom().contains(#[trigger] path.subrange(0, j)),
    ensures
        lookup_at(snap, roots, path.subrange(0, i), path.skip(i), depth, checked).outcome
            == plain_answer(snap, path),
    decreases path.len() - i,
{
    reveal_with_fuel(lookup_at, 2);
    reveal_with_fuel(try_targets, 2);
    let at = path.subrange(0, i);
    let rest = path.skip(i);
    assert(snap.dom().contains(at));
    assert(path.subrange(0, path.len() as int) =~= path);
    if i == path.len() {
        assert(at =~= path);
        assert(reachable(snap, path));
    } else {
        assert(at.push(rest[0]) =~= path.subrange(0, i + 1));
        assert(rest.drop_first() =~= path.skip(i + 1));
        if snap.dom().contains(path.subrange(0, i + 1)) {
            lemma_lookup_at_without_imports(snap, roots, path, i + 1, depth, checked);
        } else {
            assert(!reachable(snap, path));
        }
    }
}

/// In a table without imports a name is found exactly where it is
/// declared: the answer is the declaration in the type namespace of the
/// binding that the name leads to, and nothing where there is no such
/// binding or it holds no such declaration. The length of the name does
/// not matter, and the answer is never partial.
pub proof fn lemma_lookup_without_imports(
    snap: Snapshot,
    roots: Set<Seq<char>>,
    path: Seq<Seq<char>>,
)
    requires
        snap.dom().contains(Seq::empty()),
        without_imports(snap),
    ensures
        lookup(snap, roots, path) == plain_answer(snap, path),
{
    assert(path.subrange(0, 0) =~= Seq::<Seq<char>>::empty());
    assert(path.skip(0) =~= path);
    lemma_lookup_at_without_imports(snap, roots, path, 0, 0, Set::empty().insert(path));
}

/// Whether an answer is backed by the table: a declaration that is
/// answered is bound in the type namespace of some binding, or it is the
/// stub of a binding that imports from a name that leads out of the
/// table; an address that is answered is the empty one or is imported by
/// some binding; and an error names a binding that holds several imports
/// and no declaration.
pub open spec fn grounded(snap: Snapshot, roots: Set<Seq<char>>, o: Outcome) -> bool {
    match o {
        Ok(ResolutionView::Fully(d)) => exists|q: Seq<Seq<char>>|
            #![trigger snap.dom().contains(q)]
            snap.dom().contains(q) && (snap[q].type_ast == Some(d) || (snap[q].type_ast is None
                && has_opaque_alias(snap[q], roots) && d == DeclAstView {
                address: q,
                ast: AstView::Stub,
            })),
        Ok(ResolutionView::Partially(a)) => a.len() == 0 || exists|q: Seq<Seq<char>>|
            #![trigger snap.dom().contains(q)]
            snap.dom().contains(q) && snap[q].alias_for.len() == 1 && snap[q].alias_for[0] == a,
        Ok(ResolutionView::Failed) => true,
        Err(DbErrorView::AmbiguousPartialResolution(q)) => snap.dom().contains(q)
            && snap[q].type_ast is None && snap[q].alias_for.len() >= 2,
        Err(_) => false,
    }
}

/// The resolver invents nothing: whatever a lookup from the root answers
/// is backed by the table.
pub proof fn lemma_lookup_grounded(
    snap: Snapshot,
    roots: Set<Seq<char>>,
    path: Seq<Seq<char>>,
    depth: nat,
    checked: Set<Seq<Seq<char>>>,
)
    requires
        snap.dom().contains(Seq::empty()),
    ensures
        grounded(snap, roots, enter_root(snap, roots, path, depth, checked).outcome),
    decreases MAX_LOOKUP_DEPTH - depth, 3nat, 0nat,
{
    if !checked.contains(path) {
        lemma_lookup_at_grounded(snap, roots, Seq::empty(), path, depth, checked.insert(path));
    }
}

/// The part of `lemma_lookup_grounded` that speaks of trying targets.
proof fn lemma_targets_grounded(
    snap: Snapshot,
    roots: Set<Seq<char>>,
    targets: Seq<Seq<Seq<char>>>,
    i: int,
    rest: Seq<Seq<char>>,
    depth: nat,
    checked: Set<Seq<Seq<char>>>,
)
    requires
        snap.dom().contains(Seq::empty()),
    ensures
        grounded(snap, roots, try_targets(snap, roots, targets, i, rest, depth, checked).outcome),
    decreases MAX_LOOKUP_DEPTH - depth, 1nat, targets.len() - i,
{
    if 0 <= i < targets.len() && depth < MAX_LOOKUP_DEPTH {
        let v = enter_root(snap, roots, targets[i] + rest, depth + 1, checked);
        lemma_lookup_grounded(snap, roots, targets[i] + rest, depth + 1, checked);
        if !decides(v.outcome) {
            lemma_targets_grounded(snap, roots, targets, i + 1, rest, depth, v.checked);
        }
    }
}

/// The part of `lemma_lookup_grounded` that speaks of a lookup from a
/// binding.
proof fn lemma_lookup_at_grounded(
    snap: Snapshot,
    roots: Set<Seq<char>>,
    at: Seq<Seq<char>>,
    rest: Seq<Seq<char>>,
    depth: nat,
    checked: Set<Seq<Seq<char>>>,
)
    requires
        snap.dom().contains(Seq::empty()),
        snap.dom().contains(at),
    ensures
        grounded(snap, roots, lookup_at(snap, roots, at, rest, depth, checked).outcome),
    decreases MAX_LOOKUP_DEPTH - depth, 2nat, rest.len(),
{
    let b = snap[at];
    let a = try_targets(snap, roots, b.alias_for, 0, rest, depth, checked);
    lemma_targets_grounded(snap, roots, b.alias_for, 0, rest, depth, checked);
    if decides(a.outcome) {
    } else if rest.len() == 0 {
    } else if snap.dom().contains(at.push(rest[0])) {
        lemma_lookup_at_grounded(
            snap,
            roots,
            at.push(rest[0]),
            rest.drop_first(),
            depth,
            a.checked,
        );
    } else {
        lemma_targets_grounded(snap, roots, b.wildcard_alias_for, 0, rest, depth, a.checked);
    }
}

impl Database {
    /// What the node `base` of the table means to the snapshot: its
    /// binding is the snapshot's entry at the node's path, and its
    /// children are the snapshot's entries one segment further.
    proof fn lemma_node_in_snapshot(&self, base: &NamedNode<IdentPart, Binding>, k: Seq<char>)
        requires
            self.wf(),
            self.decls.contains(base.path_view()),
            *base == self.decls.node_at(base.path_view()),
        ensures
            self.snapshot().dom().contains(base.path_view()),
            self.snapshot()[base.path_view()] == base.value()@,
            self.snapshot().dom().contains(base.path_view().push(k)) == base.has_child(k),
            base.has_child(k) ==> self.decls.contains(base.path_view().push(k)) && base.child(k)
                == self.decls.node_at(base.path_view().push(k)),
    {
        let at = base.path_view();
        self.decls.lemma_node_at_concat(at, seq![k]);
        base.lemma_single_step(k);
        assert(at + seq![k] =~= at.push(k));
    }

    /// A table without imports answers for a name the declaration in the
    /// type namespace of the binding at that name, and nothing where the
    /// name is not in the table or its binding holds no such declaration.
    pub proof fn lemma_lookup_in_table_without_imports(&self, path: Seq<Seq<char>>)
        requires
            self.wf(),
            without_imports(self.snapshot()),
        ensures
            lookup(self.snapshot(), self.roots(), path) == (if self.snapshot().dom().contains(path)
                && self.snapshot()[path].type_ast is Some {
                Ok::<ResolutionView, DbErrorView>(
                    ResolutionView::Fully(self.snapshot()[path].type_ast->0),
                )
            } else {
                Ok::<ResolutionView, DbErrorView>(ResolutionView::Failed)
            }),
    {
        let snap = self.snapshot();
        lemma_lookup_without_imports(snap, self.roots(), path);
        assert(path.subrange(0, path.len() as int) =~= path);
        if snap.dom().contains(path) {
            assert forall|j: int| 0 <= j <= path.len() implies snap.dom().contains(
                #[trigger] path.subrange(0, j),
            ) by {
                self.decls.lemma_prefix_closed(path.subrange(0, j), path);
            }
        }
    }

    /// What the candidate name refers to: a declaration, the address up to
    /// which the name could be followed, or nothing.
    pub fn lookup_decl(&self, candidate: &GlobalIdent) -> (r: Result<Resolution, DbError>)
        requires
            self.wf(),
        ensures
            outcome_view(r) == lookup(self.snapshot(), self.roots(), candidate@),
    {
        let mut checked = IdentSet::new();
        assert(checked.set() =~= Set::<Seq<Seq<char>>>::empty());
        self.lookup_from_root(candidate, 0, &mut checked)
    }

    /// Looks `path` up from the root of the table, unless this lookup did
    /// so before.
    fn lookup_from_root(&self, path: &GlobalIdent, depth: usize, checked: &mut IdentSet) -> (r:
        Result<Resolution, DbError>)
        requires
            self.wf(),
            depth <= MAX_LOOKUP_DEPTH,
        ensures
            outcome_view(r) == enter_root(
                self.snapshot(),
                self.roots(),
                path@,
                depth as nat,
                old(checked).set(),
            ).outcome,
            final(checked).set() == enter_root(
                self.snapshot(),
                self.roots(),
                path@,
                depth as nat,
                old(checked).set(),
            ).checked,
        decreases MAX_LOOKUP_DEPTH - depth, 3nat, 0nat,
    {
        if !checked.insert(path.clone()) {
            return Ok(Resolution::Partially(GlobalIdent::root()));
        }
        proof {
            assert(self.decls.path_view() =~= Seq::<Seq<char>>::empty());
        }
        self.lookup_internal(&self.decls, path.parts(), depth, checked)
    }

    /// Looks `rest` up from the node `base` of the table.
    #[verifier::loop_isolation(false)]
    fn lookup_internal(
        &self,
        base: &NamedNode<IdentPart, Binding>,
        rest: &[IdentPart],
        depth: usize,
        checked: &mut IdentSet,
    ) -> (r: Result<Resolution, DbError>)
        requires
            self.wf(),
            depth <= MAX_LOOKUP_DEPTH,
            base.wf(),
            self.decls.contains(base.path_view()),
            *base == self.decls.node_at(base.path_view()),
        ensures
            outcome_view(r) == lookup_at(
                self.snapshot(),
                self.roots(),
                base.path_view(),
                key_views(rest@),
                depth as nat,
                old(checked).set(),
            ).outcome,
            final(checked).set() == lookup_at(
                self.snapshot(),
                self.roots(),
                base.path_view(),
                key_views(rest@),
                depth as nat,
                old(checked).set(),
            ).checked,
        decreases MAX_LOOKUP_DEPTH - depth, 2nat, rest@.len(),
    {
        let ghost snap = self.snapshot();
        let ghost roots = self.roots();
        let ghost p = key_views(rest@);
        let ghost start = checked.set();
        let value = base.get_value();
        let ghost b = value@;
        proof {
            self.lemma_node_in_snapshot(base, Seq::empty());
        }
        // the imports of this binding come first
        let count = value.alias_for.len();
        let mut i: usize = 0;
        while i < count && depth < MAX_LOOKUP_DEPTH
            invariant
                self.wf(),
                depth <= MAX_LOOKUP_DEPTH,
                snap == self.snapshot(),
                roots == self.roots(),
                p == key_views(rest@),
                0 <= i <= count,
                count == value.alias_for@.len(),
                b == value@,
                try_targets(snap, roots, b.alias_for, i as int, p, depth as nat, checked.set())
                    == try_targets(snap, roots, b.alias_for, 0, p, depth as nat, start),
            decreases count - i,
        {
            let candidate = GlobalIdent::join(&value.alias_for[i].0, rest);
            let found = self.lookup_from_root(&candidate, depth + 1, checked);
            match found {
                Err(e) => {
                    return Err(e);
                },
                Ok(Resolution::Fully(d)) => {
                    return Ok(Resolution::Fully(d));
                },
                Ok(_) => {},
            }
            i += 1;
        }
        let ghost after_aliases = checked.set();
        if rest.len() == 0 {
            return self.verdict_at(base);
        }
        let first = &rest[0];
        proof {
            self.lemma_node_in_snapshot(base, first@);
        }
        match base.get_child(first) {
            Some(child) => {
                let tail = slice_subrange(rest, 1, rest.len());
                proof {
                    assert(key_views(tail@) =~= p.drop_first());
                }
                return self.lookup_internal(child, tail, depth, checked);
            },
            None => {},
        }
        // no such child: the scopes imported wholesale come last
        let sources = value.wildcard_alias_for.as_slice();
        let mut j: usize = 0;
        while j < sources.len() && depth < MAX_LOOKUP_DEPTH
            invariant
                self.wf(),
                depth <= MAX_LOOKUP_DEPTH,
                snap == self.snapshot(),
                roots == self.roots(),
                p == key_views(rest@),
                0 <= j <= sources@.len(),
                b.wildcard_alias_for == crate::ident_set::ident_views(sources@),
                try_targets(
                    snap,
                    roots,
                    b.wildcard_alias_for,
                    j as int,
                    p,
                    depth as nat,
                    checked.set(),
                ) == try_targets(snap, roots, b.wildcard_alias_for, 0, p, depth as nat, after_aliases),
            decreases sources@.len() - j,
        {
            let candidate = GlobalIdent::join(&sources[j], rest);
            let found = self.lookup_from_root(&candidate, depth + 1, checked);
            match found {
                Err(e) => {
                    return Err(e);
                },
                Ok(Resolution::Fully(d)) => {
                    return Ok(Resolution::Fully(d));
                },
                Ok(_) => {},
            }
            j += 1;
        }
        Ok(Resolution::Failed)
    }

    /// The answer at the node `base` itself, when the candidate is used up
    /// and none of the imports led to a declaration.
    #[verifier::loop_isolation(false)]
    fn verdict_at(&self, base: &NamedNode<IdentPart, Binding>) -> (r: Result<Resolution, DbError>)
        requires
            self.wf(),
        ensures
            outcome_view(r) == at_node(base.value()@, base.path_view(), self.roots()),
    {
        let value = base.get_value();
        let ghost b = value@;
        if let Some(ast) = &value.type_ast {
            return Ok(Resolution::Fully(ast.clone()));
        }
        if value.alias_for.len() == 0 {
            return Ok(Resolution::Failed);
        }
        let mut i: usize = 0;
        while i < value.alias_for.len()
            invariant
                0 <= i <= value.alias_for@.len(),
                b == value@,
                forall|j: int|
                    0 <= j < i ==> !((#[trigger] b.alias_for[j]).len() > 0 && self.roots().contains(
                        b.alias_for[j][0],
                    )),
            decreases value.alias_for@.len() - i,
        {
            assert(b.alias_for[i as int] == value.alias_for@[i as int].0@);
            match value.alias_for[i].0.first_part() {
                Some(part) => {
                    if self.is_opaque_root(part) {
                        return Ok(
                            Resolution::Fully(
                                DeclAst {
                                    address: GlobalIdent::from_ident_path(base.path()),
                                    ast: Ast::Stub,
                                },
                            ),
                        );
                    }
                },
                None => {},
            }
            i += 1;
        }
        if value.alias_for.len() == 1 {
            Ok(Resolution::Partially(value.alias_for[0].0.clone()))
        } else {
            Err(DbError::AmbiguousPartialResolution(GlobalIdent::from_ident_path(base.path())))
        }
    }
}

} // verus!
