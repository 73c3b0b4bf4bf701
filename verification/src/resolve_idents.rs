//! The resolution pass: every reference inside every declaration of the
//! table is looked up against the table as it stood when the pass began,
//! and the results are written back in one go.

use vstd::prelude::*;
use crate::global_ident::{parent_of, GlobalIdent};
use crate::ident_part::{same_text, IdentPart};
use crate::item::{
    decl_view, Ast, AstView, DeclAst, DeclAstView, Item, ItemView, PathRef,
    PathRefView, PathResolution, PathResolutionView,
};
use crate::lookup_decl::lookup;
use crate::model::{
    alias_kinds, alias_views, Binding, BindingResolution, BindingView, Database, DbError, DbErrorView,
    ImportKind, Resolution, ResolutionView, Snapshot,
};
use crate::named_tree::{FromPath, NamedNode};
use crate::unresolved::{recorded, UnresolvedMap, UnresolvedView};

verus! {

/// What a pass has gathered so far: the verdict on the binding at hand and
/// the record of the names that were not resolved.
pub struct Pass {
    pub verdict: BindingResolution,
    pub unresolved: UnresolvedView,
}

/// The segments of the placeholder for the type that a declaration is
/// about. It is left to the type system.
pub open spec fn self_type() -> Seq<Seq<char>> {
    seq!["Self"@]
}

/// One failure to resolve a name: the name, the scope in which it was
/// looked for, and the declaration that asked for it.
pub struct Failure {
    pub key: Seq<Seq<char>>,
    pub scope: Seq<Seq<char>>,
    pub requestor: Seq<Seq<char>>,
}

/// What a pass finds for one reference: the reference as it is left
/// behind, the verdict that it adds, and the failure to put on record, if
/// it ended unresolved.
pub struct SiteOutcome {
    pub site: PathRefView,
    pub verdict: BindingResolution,
    pub failure: Option<Failure>,
}

/// What a pass finds for the reference `site` inside the declaration at
/// `key`. Nothing but the snapshot is read.
///
/// The placeholder for the own type stays as it is. A reference that
/// names the declaration it stands in, taken relative to the
/// declaration's scope or as it is written, is resolved to that
/// declaration without a lookup. Else the reference is looked up relative
/// to the scope and then as written, and the first declaration found is
/// the answer. Where neither is found, the reference is resolved as far as
/// the one address that the lookups could follow it to, or failed, and
/// the failure goes on record; two different such addresses are an error.
pub open spec fn site_outcome(
    snap: Snapshot,
    roots: Set<Seq<char>>,
    key: Seq<Seq<char>>,
    site: PathRefView,
) -> Result<SiteOutcome, DbErrorView> {
    let scope = parent_of(key);
    let local = scope + site.segments;
    let global = site.segments;
    if site.segments == self_type() {
        Ok(SiteOutcome { site, verdict: BindingResolution::NotAttempted, failure: None })
    } else if local == key || global == key {
        Ok(
            SiteOutcome {
                site: PathRefView { resolution: PathResolutionView::SelfResolved(key), ..site },
                verdict: BindingResolution::Fully,
                failure: None,
            },
        )
    } else {
        match lookup(snap, roots, local) {
            Err(e) => Err(e),
            Ok(ResolutionView::Fully(d)) => Ok(
                SiteOutcome {
                    site: PathRefView {
                        resolution: PathResolutionView::Resolved(d.address),
                        ..site
                    },
                    verdict: BindingResolution::Fully,
                    failure: None,
                },
            ),
            Ok(first) => match lookup(snap, roots, global) {
                Err(e) => Err(e),
                Ok(ResolutionView::Fully(d)) => Ok(
                    SiteOutcome {
                        site: PathRefView {
                            resolution: PathResolutionView::Resolved(d.address),
                            ..site
                        },
                        verdict: BindingResolution::Fully,
                        failure: None,
                    },
                ),
                Ok(second) => unresolved_site(key, site, partial_of(first), partial_of(second)),
            },
        }
    }
}

/// The address that a lookup could follow a name to, where it ended
/// there.
pub open spec fn partial_of(r: ResolutionView) -> Option<Seq<Seq<char>>> {
    match r {
        ResolutionView::Partially(a) => Some(a),
        _ => None,
    }
}

/// What a pass finds for a reference for which no declaration was found,
/// given the addresses that the two lookups could follow it to.
pub open spec fn unresolved_site(
    key: Seq<Seq<char>>,
    site: PathRefView,
    first: Option<Seq<Seq<char>>>,
    second: Option<Seq<Seq<char>>>,
) -> Result<SiteOutcome, DbErrorView> {
    let scope = parent_of(key);
    if first is Some && second is Some && first->0 != second->0 {
        Err(DbErrorView::AmbiguousPartialResolution(key))
    } else if first is Some || second is Some {
        let a = if first is Some {
            first->0
        } else {
            second->0
        };
        Ok(
            SiteOutcome {
                site: PathRefView { resolution: PathResolutionView::PartiallyResolved(a), ..site },
                verdict: BindingResolution::Partially,
                failure: Some(Failure { key: a, scope, requestor: key }),
            },
        )
    } else {
        Ok(
            SiteOutcome {
                site: PathRefView { resolution: PathResolutionView::Failed, ..site },
                verdict: BindingResolution::Failed,
                failure: Some(Failure { key: site.segments, scope, requestor: key }),
            },
        )
    }
}

/// The record `u` with the failure `f`, if there is one, put on it.
pub open spec fn with_failure(u: UnresolvedView, f: Option<Failure>) -> UnresolvedView {
    match f {
        None => u,
        Some(x) => recorded(u, x.key, x.scope, x.requestor),
    }
}

/// What becomes of the reference `site` inside the declaration at `key`,
/// and of what the pass has gathered: the verdict takes in what the
/// reference adds, and the failure, if there is one, goes on record.
pub open spec fn resolve_site(
    snap: Snapshot,
    roots: Set<Seq<char>>,
    key: Seq<Seq<char>>,
    site: PathRefView,
    acc: Pass,
) -> Result<(PathRefView, Pass), DbErrorView> {
    match site_outcome(snap, roots, key, site) {
        Err(e) => Err(e),
        Ok(o) => Ok(
            (
                o.site,
                Pass {
                    verdict: acc.verdict.and_spec(o.verdict),
                    unresolved: with_failure(acc.unresolved, o.failure),
                },
            ),
        ),
    }
}

/// What becomes of the references from position `i` on, one after the
/// other; the first error ends the pass.
pub open spec fn resolve_paths(
    snap: Snapshot,
    roots: Set<Seq<char>>,
    key: Seq<Seq<char>>,
    paths: Seq<PathRefView>,
    i: int,
    acc: Pass,
) -> Result<(Seq<PathRefView>, Pass), DbErrorView>
    decreases paths.len() - i,
{
    if i < 0 || i >= paths.len() {
        Ok((paths, acc))
    } else {
        match resolve_site(snap, roots, key, paths[i], acc) {
            Err(e) => Err(e),
            Ok((site, next)) => resolve_paths(snap, roots, key, paths.update(i, site), i + 1, next),
        }
    }
}

/// The resolved copy of the body of a declaration, if there is one; a
/// stub stays a stub.
pub open spec fn resolve_decl(
    snap: Snapshot,
    roots: Set<Seq<char>>,
    key: Seq<Seq<char>>,
    decl: Option<DeclAstView>,
    acc: Pass,
) -> Result<(Option<AstView>, Pass), DbErrorView> {
    match decl {
        None => Ok((None, acc)),
        Some(d) => match d.ast {
            AstView::Stub => Ok((Some(AstView::Stub), acc)),
            AstView::Real(item) => match resolve_paths(snap, roots, key, item.paths, 0, acc) {
                Err(e) => Err(e),
                Ok((paths, next)) => Ok(
                    (Some(AstView::Real(ItemView { kind: item.kind, paths })), next),
                ),
            },
        },
    }
}

/// The model of what a pass computes for one binding: the resolved copies
/// of its declarations and the verdict on them.
pub struct ResolvedView {
    pub type_ast: Option<AstView>,
    pub non_type_ast: Option<AstView>,
    pub resolution: BindingResolution,
}

/// What a pass computes for the binding `b` at `key`: first the
/// declaration in the type namespace, then the one in the value namespace.
pub open spec fn resolve_binding(
    snap: Snapshot,
    roots: Set<Seq<char>>,
    key: Seq<Seq<char>>,
    b: BindingView,
    unresolved: UnresolvedView,
) -> Result<(ResolvedView, UnresolvedView), DbErrorView> {
    let start = Pass { verdict: BindingResolution::NotAttempted, unresolved };
    match resolve_decl(snap, roots, key, b.type_ast, start) {
        Err(e) => Err(e),
        Ok((type_ast, mid)) => match resolve_decl(snap, roots, key, b.non_type_ast, mid) {
            Err(e) => Err(e),
            Ok((non_type_ast, end)) => Ok(
                (
                    ResolvedView { type_ast, non_type_ast, resolution: end.verdict },
                    end.unresolved,
                ),
            ),
        },
    }
}

/// What a pass computes for the bindings at the addresses `paths` from
/// position `i` on, each against the same snapshot.
pub open spec fn resolve_all(
    snap: Snapshot,
    roots: Set<Seq<char>>,
    paths: Seq<Seq<Seq<char>>>,
    i: int,
    shadow: Map<Seq<Seq<char>>, ResolvedView>,
    unresolved: UnresolvedView,
) -> Result<(Map<Seq<Seq<char>>, ResolvedView>, UnresolvedView), DbErrorView>
    decreases paths.len() - i,
{
    if i < 0 || i >= paths.len() {
        Ok((shadow, unresolved))
    } else {
        match resolve_binding(snap, roots, paths[i], snap[paths[i]], unresolved) {
            Err(e) => Err(e),
            Ok((r, u)) => resolve_all(snap, roots, paths, i + 1, shadow.insert(paths[i], r), u),
        }
    }
}

/// The declaration `d` with its body replaced by `body`, where both are
/// there; else `d` as it is.
pub open spec fn commit_decl(d: Option<DeclAstView>, body: Option<AstView>) -> Option<DeclAstView> {
    match (d, body) {
        (Some(decl), Some(ast)) => Some(DeclAstView { address: decl.address, ast }),
        _ => d,
    }
}

/// The binding `b` after what a pass computed for it, if anything, is
/// written back: the bodies are replaced and the verdict is taken in.
pub open spec fn commit(b: BindingView, r: Option<ResolvedView>) -> BindingView {
    match r {
        None => b,
        Some(x) => BindingView {
            type_ast: commit_decl(b.type_ast, x.type_ast),
            non_type_ast: commit_decl(b.non_type_ast, x.non_type_ast),
            resolution: b.resolution.and_spec(x.resolution),
            ..b
        },
    }
}

/// The record `u` after the failures `fs` were put on it, first to last.
pub open spec fn with_failures(u: UnresolvedView, fs: Seq<Failure>) -> UnresolvedView
    decreases fs.len(),
{
    if fs.len() == 0 {
        u
    } else {
        let last = fs.last();
        recorded(with_failures(u, fs.drop_last()), last.key, last.scope, last.requestor)
    }
}

/// Putting failures on record one list after the other is putting the
/// joined list on record.
pub proof fn lemma_with_failures_concat(u: UnresolvedView, a: Seq<Failure>, b: Seq<Failure>)
    ensures
        with_failures(with_failures(u, a), b) == with_failures(u, a + b),
    decreases b.len(),
{
    if b.len() != 0 {
        lemma_with_failures_concat(u, a, b.drop_last());
        assert((a + b).drop_last() =~= a + b.drop_last());
    }
}

/// One more failure can be put on record before a list of failures as
/// well as after it.
pub proof fn lemma_failure_moves(u: UnresolvedView, f: Failure, fs: Seq<Failure>)
    ensures
        with_failures(recorded(u, f.key, f.scope, f.requestor), fs) == recorded(
            with_failures(u, fs),
            f.key,
            f.scope,
            f.requestor,
        ),
    decreases fs.len(),
{
    if fs.len() > 0 {
        let last = fs.last();
        lemma_failure_moves(u, f, fs.drop_last());
        crate::unresolved::lemma_recorded_commutes(
            with_failures(u, fs.drop_last()),
            f.key,
            f.scope,
            f.requestor,
            last.key,
            last.scope,
            last.requestor,
        );
    }
}

/// The order in which two lists of failures are put on record does not
/// matter.
pub proof fn lemma_failures_commute(u: UnresolvedView, a: Seq<Failure>, b: Seq<Failure>)
    ensures
        with_failures(with_failures(u, a), b) == with_failures(with_failures(u, b), a),
    decreases a.len(),
{
    if a.len() > 0 {
        let last = a.last();
        let front = a.drop_last();
        lemma_failures_commute(u, front, b);
        lemma_failure_moves(with_failures(u, front), last, b);
    }
}

/// The failures of a list of optional failures.
pub open spec fn failures_of(f: Option<Failure>) -> Seq<Failure> {
    match f {
        None => Seq::empty(),
        Some(x) => seq![x],
    }
}

/// Resolving the references from position `i` on reads nothing but the
/// snapshot: the references that come out, the change of the verdict and
/// the failures that are added to the record are the same whatever was on
/// record before. The failures are the result.
pub proof fn lemma_paths_read_snapshot_only(
    snap: Snapshot,
    roots: Set<Seq<char>>,
    key: Seq<Seq<char>>,
    paths: Seq<PathRefView>,
    i: int,
    verdict: BindingResolution,
) -> (fs: Seq<Failure>)
    ensures
        forall|u: UnresolvedView|
            (match (
                resolve_paths(
                    snap,
                    roots,
                    key,
                    paths,
                    i,
                    Pass { verdict, unresolved: Map::empty() },
                ),
                #[trigger] resolve_paths(snap, roots, key, paths, i, Pass { verdict, unresolved: u }),
            ) {
                (Ok((p1, a1)), Ok((p2, a2))) => p1 == p2 && a1.verdict == a2.verdict
                    && a2.unresolved == with_failures(u, fs),
                (Err(e1), Err(e2)) => e1 == e2,
                _ => false,
            }),
    decreases paths.len() - i,
{
    if i < 0 || i >= paths.len() {
        Seq::empty()
    } else {
        match site_outcome(snap, roots, key, paths[i]) {
            Err(e) => Seq::empty(),
            Ok(o) => {
                let rest = lemma_paths_read_snapshot_only(
                    snap,
                    roots,
                    key,
                    paths.update(i, o.site),
                    i + 1,
                    verdict.and_spec(o.verdict),
                );
                let own = failures_of(o.failure);
                let fs = own + rest;
                assert forall|u: UnresolvedView|
                    (match (
                        resolve_paths(
                            snap,
                            roots,
                            key,
                            paths,
                            i,
                            Pass { verdict, unresolved: Map::empty() },
                        ),
                        #[trigger] resolve_paths(
                            snap,
                            roots,
                            key,
                            paths,
                            i,
                            Pass { verdict, unresolved: u },
                        ),
                    ) {
                        (Ok((p1, a1)), Ok((p2, a2))) => p1 == p2 && a1.verdict == a2.verdict
                            && a2.unresolved == with_failures(u, fs),
                        (Err(e1), Err(e2)) => e1 == e2,
                        _ => false,
                    }) by {
                    let next_verdict = verdict.and_spec(o.verdict);
                    let u1 = with_failure(u, o.failure);
                    let e1 = with_failure(Map::empty(), o.failure);
                    assert(resolve_paths(
                        snap,
                        roots,
                        key,
                        paths.update(i, o.site),
                        i + 1,
                        Pass { verdict: next_verdict, unresolved: u1 },
                    ) == resolve_paths(snap, roots, key, paths, i, Pass { verdict, unresolved: u }));
                    assert(resolve_paths(
                        snap,
                        roots,
                        key,
                        paths.update(i, o.site),
                        i + 1,
                        Pass { verdict: next_verdict, unresolved: e1 },
                    ) == resolve_paths(
                        snap,
                        roots,
                        key,
                        paths,
                        i,
                        Pass { verdict, unresolved: Map::empty() },
                    ));
                    lemma_with_failures_concat(u, own, rest);
                    assert(with_failures(u, own) == u1) by {
                        reveal_with_fuel(with_failures, 2);
                    }
                }
                fs
            },
        }
    }
}

/// What a pass computes for one binding: the resolved copies of its
/// declarations and the verdict on them.
#[derive(Debug)]
pub struct Resolved {
    pub type_ast: Option<Ast>,
    pub non_type_ast: Option<Ast>,
    pub resolution: BindingResolution,
}

/// The model of an optional body.
pub open spec fn ast_view(a: Option<Ast>) -> Option<AstView> {
    match a {
        Some(x) => Some(x@),
        None => None,
    }
}

impl View for Resolved {
    type V = ResolvedView;

    open spec fn view(&self) -> ResolvedView {
        ResolvedView {
            type_ast: ast_view(self.type_ast),
            non_type_ast: ast_view(self.non_type_ast),
            resolution: self.resolution,
        }
    }
}

/// What is computed for a binding of which nothing is known.
pub open spec fn nothing_resolved() -> ResolvedView {
    ResolvedView { type_ast: None, non_type_ast: None, resolution: BindingResolution::NotAttempted }
}

impl Default for Resolved {
    fn default() -> (r: Self)
        ensures
            r@ == nothing_resolved(),
    {
        Resolved { type_ast: None, non_type_ast: None, resolution: BindingResolution::NotAttempted }
    }
}

impl FromPath<IdentPart> for Resolved {
    open spec fn made_from(&self, path: Seq<Seq<char>>) -> bool {
        self@ == nothing_resolved()
    }

    fn from_path(path: &[IdentPart]) -> (r: Self) {
        Resolved { type_ast: None, non_type_ast: None, resolution: BindingResolution::NotAttempted }
    }
}

/// The model of what a pass computed for a binding, if anything.
pub open spec fn resolved_view(r: Option<&Resolved>) -> Option<ResolvedView> {
    match r {
        Some(x) => Some(x@),
        None => None,
    }
}

/// Writing back that nothing was computed changes nothing.
pub proof fn lemma_commit_nothing(b: BindingView)
    ensures
        commit(b, Some(nothing_resolved())) == b,
        commit(b, None) == b,
{
}

/// A copy of a list of imports.
fn clone_aliases(v: &Vec<(GlobalIdent, ImportKind)>) -> (r: Vec<(GlobalIdent, ImportKind)>)
    ensures
        alias_views(r@) == alias_views(v@),
        alias_kinds(r@) == alias_kinds(v@),
{
    let mut out: Vec<(GlobalIdent, ImportKind)> = Vec::new();
    let mut i: usize = 0;
    while i < v.len()
        invariant
            0 <= i <= v.len(),
            out@.len() == i,
            forall|j: int| 0 <= j < i ==> out@[j].0@ == v@[j].0@ && out@[j].1 == v@[j].1,
        decreases v.len() - i,
    {
        out.push((v[i].0.clone(), v[i].1));
        i += 1;
    }
    out
}

/// The declaration `d` with its body replaced by a copy of `body`, where
/// both are there; else a copy of `d`.
fn commit_decl_copy(d: &Option<DeclAst>, body: &Option<Ast>) -> (r: Option<DeclAst>)
    ensures
        decl_view(r) == commit_decl(decl_view(*d), ast_view(*body)),
{
    match d {
        None => None,
        Some(decl) => match body {
            None => Some(decl.clone()),
            Some(ast) => Some(DeclAst { address: decl.address.clone(), ast: ast.clone() }),
        },
    }
}

/// The binding `b` after what a pass computed for it, if anything, is
/// written back.
pub fn commit_binding(b: &Binding, r: Option<&Resolved>) -> (out: Binding)
    ensures
        out@ == commit(b@, resolved_view(r)),
{
    let nothing: Option<Ast> = None;
    let (type_ast, non_type_ast, verdict) = match r {
        None => (
            commit_decl_copy(&b.type_ast, &nothing),
            commit_decl_copy(&b.non_type_ast, &nothing),
            BindingResolution::NotAttempted,
        ),
        Some(x) => (
            commit_decl_copy(&b.type_ast, &x.type_ast),
            commit_decl_copy(&b.non_type_ast, &x.non_type_ast),
            x.resolution,
        ),
    };
    let mut resolution = b.resolution;
    resolution.and(verdict);
    Binding {
        address: b.address.clone(),
        non_type_ast,
        type_ast,
        alias_for: clone_aliases(&b.alias_for),
        wildcard_alias_for: b.wildcard_alias_for.duplicate(),
        resolution,
    }
}

/// The address that a lookup could follow a name to, where it ended
/// there.
fn partial_address(r: Resolution) -> (out: Option<GlobalIdent>)
    ensures
        (match out {
            Some(g) => Some(g@),
            None => None,
        }) == partial_of(r@),
{
    match r {
        Resolution::Partially(g) => Some(g),
        _ => None,
    }
}

impl Database {
    /// Resolves one reference inside the declaration at `key`.
    fn resolve_site(
        &self,
        key: &GlobalIdent,
        site: &mut PathRef,
        verdict: &mut BindingResolution,
        unresolved: &mut UnresolvedMap,
    ) -> (r: Result<(), DbError>)
        requires
            self.wf(),
        ensures
            (match resolve_site(
                self.snapshot(),
                self.roots(),
                key@,
                old(site)@,
                Pass { verdict: *old(verdict), unresolved: old(unresolved)@ },
            ) {
                Err(e) => r matches Err(x) && x@ == e,
                Ok((s, p)) => r is Ok && final(site)@ == s && *final(verdict) == p.verdict
                    && final(unresolved)@ == p.unresolved,
            }),
    {
        let ghost before = site@;
        proof {
            reveal_strlit("Self");
        }
        if site.segments.len() == 1 && same_text(site.segments[0].as_str(), "Self") {
            assert(before.segments =~= self_type());
            return Ok(());
        }
        let scope = key.parent();
        let local = GlobalIdent::from_mod_and_path(&scope, site.segments.as_slice());
        let global = GlobalIdent::from_path(site.segments.as_slice());
        if local == *key || global == *key {
            site.resolution = PathResolution::SelfResolved(key.clone());
            verdict.and(BindingResolution::Fully);
            return Ok(());
        }
        let first = match self.lookup_decl(&local) {
            Err(e) => {
                return Err(e);
            },
            Ok(Resolution::Fully(d)) => {
                site.resolution = PathResolution::Resolved(d.address);
                verdict.and(BindingResolution::Fully);
                return Ok(());
            },
            Ok(other) => other,
        };
        let second = match self.lookup_decl(&global) {
            Err(e) => {
                return Err(e);
            },
            Ok(Resolution::Fully(d)) => {
                site.resolution = PathResolution::Resolved(d.address);
                verdict.and(BindingResolution::Fully);
                return Ok(());
            },
            Ok(other) => other,
        };
        let a = partial_address(first);
        let b = partial_address(second);
        let found = match (a, b) {
            (Some(x), Some(y)) => {
                if !(x == y) {
                    return Err(DbError::AmbiguousPartialResolution(key.clone()));
                }
                Some(x)
            },
            (Some(x), None) => Some(x),
            (None, Some(y)) => Some(y),
            (None, None) => None,
        };
        match found {
            Some(x) => {
                unresolved.record(x.clone(), scope, key.clone());
                site.resolution = PathResolution::PartiallyResolved(x);
                verdict.and(BindingResolution::Partially);
            },
            None => {
                unresolved.record(global, scope, key.clone());
                site.resolution = PathResolution::Failed;
                verdict.and(BindingResolution::Failed);
            },
        }
        Ok(())
    }

    /// Resolves the references of `item`, which stands at `key`, one after
    /// the other.
    #[verifier::loop_isolation(false)]
    fn resolve_item(
        &self,
        key: &GlobalIdent,
        item: &mut Item,
        verdict: &mut BindingResolution,
        unresolved: &mut UnresolvedMap,
    ) -> (r: Result<(), DbError>)
        requires
            self.wf(),
        ensures
            (match resolve_paths(
                self.snapshot(),
                self.roots(),
                key@,
                old(item)@.paths,
                0,
                Pass { verdict: *old(verdict), unresolved: old(unresolved)@ },
            ) {
                Err(e) => r matches Err(x) && x@ == e,
                Ok((paths, p)) => r is Ok && final(item)@ == (ItemView {
                    kind: old(item)@.kind,
                    paths,
                }) && *final(verdict) == p.verdict && final(unresolved)@ == p.unresolved,
            }),
    {
        let ghost snap = self.snapshot();
        let ghost roots = self.roots();
        let ghost total = resolve_paths(
            snap,
            roots,
            key@,
            item@.paths,
            0,
            Pass { verdict: *verdict, unresolved: unresolved@ },
        );
        let count = item.paths.len();
        let mut i: usize = 0;
        while i < count
            invariant
                self.wf(),
                snap == self.snapshot(),
                roots == self.roots(),
                0 <= i <= count,
                count == item.paths@.len(),
                item.kind == old(item).kind,
                resolve_paths(
                    snap,
                    roots,
                    key@,
                    item@.paths,
                    i as int,
                    Pass { verdict: *verdict, unresolved: unresolved@ },
                ) == total,
            decreases count - i,
        {
            let ghost before = item@.paths;
            match self.resolve_site(key, &mut item.paths[i], verdict, unresolved) {
                Err(e) => {
                    return Err(e);
                },
                Ok(()) => {},
            }
            proof {
                assert(item@.paths =~= before.update(i as int, item.paths@[i as int]@));
            }
            i += 1;
        }
        Ok(())
    }

    /// The resolved copy of the body of a declaration at `key`, if there is
    /// one.
    fn resolve_decl(
        &self,
        key: &GlobalIdent,
        decl: &Option<DeclAst>,
        verdict: &mut BindingResolution,
        unresolved: &mut UnresolvedMap,
    ) -> (r: Result<Option<Ast>, DbError>)
        requires
            self.wf(),
        ensures
            (match resolve_decl(
                self.snapshot(),
                self.roots(),
                key@,
                decl_view(*decl),
                Pass { verdict: *old(verdict), unresolved: old(unresolved)@ },
            ) {
                Err(e) => r matches Err(x) && x@ == e,
                Ok((body, p)) => r matches Ok(out) && ast_view(out) == body && *final(verdict)
                    == p.verdict && final(unresolved)@ == p.unresolved,
            }),
    {
        match decl {
            None => Ok(None),
            Some(d) => {
                match d.ast.clone() {
                    Ast::Stub => Ok(Some(Ast::Stub)),
                    Ast::Real(copy) => {
                        let mut item = copy;
                        match self.resolve_item(key, &mut item, verdict, unresolved) {
                            Err(e) => Err(e),
                            Ok(()) => Ok(Some(Ast::Real(item))),
                        }
                    },
                }
            },
        }
    }

    /// What a pass computes for the binding `b` at `key`.
    fn resolve_binding(&self, key: &GlobalIdent, b: &Binding, unresolved: &mut UnresolvedMap) -> (r:
        Result<Resolved, DbError>)
        requires
            self.wf(),
        ensures
            (match resolve_binding(self.snapshot(), self.roots(), key@, b@, old(unresolved)@) {
                Err(e) => r matches Err(x) && x@ == e,
                Ok((out, u)) => r matches Ok(x) && x@ == out && final(unresolved)@ == u,
            }),
    {
        let mut verdict = BindingResolution::NotAttempted;
        let type_ast = match self.resolve_decl(key, &b.type_ast, &mut verdict, unresolved) {
            Err(e) => {
                return Err(e);
            },
            Ok(x) => x,
        };
        let non_type_ast = match self.resolve_decl(key, &b.non_type_ast, &mut verdict, unresolved) {
            Err(e) => {
                return Err(e);
            },
            Ok(x) => x,
        };
        Ok(Resolved { type_ast, non_type_ast, resolution: verdict })
    }
}

/// Resolving a declaration reads nothing but the snapshot. The failures
/// that it adds to the record are the result.
proof fn lemma_decl_reads_snapshot_only(
    snap: Snapshot,
    roots: Set<Seq<char>>,
    key: Seq<Seq<char>>,
    decl: Option<DeclAstView>,
    verdict: BindingResolution,
) -> (fs: Seq<Failure>)
    ensures
        forall|u: UnresolvedView|
            (match (
                resolve_decl(
                    snap,
                    roots,
                    key,
                    decl,
                    Pass { verdict, unresolved: Map::empty() },
                ),
                #[trigger] resolve_decl(snap, roots, key, decl, Pass { verdict, unresolved: u }),
            ) {
                (Ok((d1, a1)), Ok((d2, a2))) => d1 == d2 && a1.verdict == a2.verdict
                    && a2.unresolved == with_failures(u, fs),
                (Err(e1), Err(e2)) => e1 == e2,
                _ => false,
            }),
{
    match decl {
        Some(d) => match d.ast {
            AstView::Real(item) => {
                let fs = lemma_paths_read_snapshot_only(snap, roots, key, item.paths, 0, verdict);
                fs
            },
            AstView::Stub => Seq::empty(),
        },
        None => Seq::empty(),
    }
}

/// Snapshot isolation for one binding: what a pass computes for a
/// binding, and whether it runs into an error there, depends on the
/// snapshot alone and not on what was gathered from other bindings. The
/// failures that the binding adds to the record are the result.
pub proof fn lemma_binding_reads_snapshot_only(
    snap: Snapshot,
    roots: Set<Seq<char>>,
    key: Seq<Seq<char>>,
    b: BindingView,
) -> (fs: Seq<Failure>)
    ensures
        forall|u: UnresolvedView|
            (match (
                resolve_binding(snap, roots, key, b, Map::empty()),
                #[trigger] resolve_binding(snap, roots, key, b, u),
            ) {
                (Ok((r1, u1)), Ok((r2, u2))) => r1 == r2 && u2 == with_failures(u, fs),
                (Err(e1), Err(e2)) => e1 == e2,
                _ => false,
            }),
{
    let start = BindingResolution::NotAttempted;
    let first = lemma_decl_reads_snapshot_only(snap, roots, key, b.type_ast, start);
    match resolve_decl(
        snap,
        roots,
        key,
        b.type_ast,
        Pass { verdict: start, unresolved: Map::empty() },
    ) {
        Err(e) => {
            first
        },
        Ok((t, mid)) => {
            let second = lemma_decl_reads_snapshot_only(
                snap,
                roots,
                key,
                b.non_type_ast,
                mid.verdict,
            );
            let fs = first + second;
            assert forall|u: UnresolvedView|
                (match (
                    resolve_binding(snap, roots, key, b, Map::empty()),
                    #[trigger] resolve_binding(snap, roots, key, b, u),
                ) {
                    (Ok((r1, u1)), Ok((r2, u2))) => r1 == r2 && u2 == with_failures(u, fs),
                    (Err(e1), Err(e2)) => e1 == e2,
                    _ => false,
                }) by {
                let r = resolve_decl(
                    snap,
                    roots,
                    key,
                    b.type_ast,
                    Pass { verdict: start, unresolved: u },
                );
                let mid_u = r->Ok_0.1;
                let r2 = resolve_decl(
                    snap,
                    roots,
                    key,
                    b.non_type_ast,
                    Pass { verdict: mid.verdict, unresolved: mid_u.unresolved },
                );
                let r3 = resolve_decl(
                    snap,
                    roots,
                    key,
                    b.non_type_ast,
                    Pass { verdict: mid.verdict, unresolved: mid.unresolved },
                );
                lemma_with_failures_concat(u, first, second);
            }
            fs
        },
    }
}

/// Snapshot isolation for a pass: whichever of two bindings a pass takes
/// first, it computes the same for each of them and leaves the same
/// record behind.
pub proof fn lemma_snapshot_isolation(
    snap: Snapshot,
    roots: Set<Seq<char>>,
    ka: Seq<Seq<char>>,
    a: BindingView,
    kb: Seq<Seq<char>>,
    b: BindingView,
    u: UnresolvedView,
)
    requires
        resolve_binding(snap, roots, ka, a, u) is Ok,
        resolve_binding(snap, roots, kb, b, u) is Ok,
    ensures
        ({
            let a_first = resolve_binding(snap, roots, ka, a, u)->Ok_0;
            let b_first = resolve_binding(snap, roots, kb, b, u)->Ok_0;
            &&& resolve_binding(snap, roots, kb, b, a_first.1) matches Ok(b_second)
            &&& resolve_binding(snap, roots, ka, a, b_first.1) matches Ok(a_second)
            &&& a_first.0 == a_second.0
            &&& b_first.0 == b_second.0
            &&& b_second.1 == a_second.1
        }),
{
    let fa = lemma_binding_reads_snapshot_only(snap, roots, ka, a);
    let fb = lemma_binding_reads_snapshot_only(snap, roots, kb, b);
    let a_first = resolve_binding(snap, roots, ka, a, u)->Ok_0;
    let b_first = resolve_binding(snap, roots, kb, b, u)->Ok_0;
    let b_second = resolve_binding(snap, roots, kb, b, a_first.1);
    let a_second = resolve_binding(snap, roots, ka, a, b_first.1);
    lemma_failures_commute(u, fa, fb);
}

/// What a pass writes back: the body of a declaration is replaced where
/// a resolved copy was computed for it, the verdict is taken in, and all
/// else stays; a binding for which nothing was computed is not touched.
pub proof fn lemma_commit_replaces_bodies(b: BindingView, x: ResolvedView)
    ensures
        commit(b, None) == b,
        commit(b, Some(x)).address == b.address,
        commit(b, Some(x)).alias_for == b.alias_for,
        commit(b, Some(x)).alias_kinds == b.alias_kinds,
        commit(b, Some(x)).wildcard_alias_for == b.wildcard_alias_for,
        commit(b, Some(x)).resolution == b.resolution.and_spec(x.resolution),
        b.type_ast is Some && x.type_ast is Some ==> commit(b, Some(x)).type_ast == Some(
            DeclAstView { address: b.type_ast->0.address, ast: x.type_ast->0 },
        ),
        b.type_ast is None || x.type_ast is None ==> commit(b, Some(x)).type_ast == b.type_ast,
        b.non_type_ast is Some && x.non_type_ast is Some ==> commit(b, Some(x)).non_type_ast
            == Some(DeclAstView { address: b.non_type_ast->0.address, ast: x.non_type_ast->0 }),
        b.non_type_ast is None || x.non_type_ast is None ==> commit(b, Some(x)).non_type_ast
            == b.non_type_ast,
{
}

/// A reference that names the declaration in which it stands is resolved
/// to that declaration without any lookup, and counts as fully resolved.
pub proof fn lemma_self_reference(
    snap: Snapshot,
    roots: Set<Seq<char>>,
    key: Seq<Seq<char>>,
    site: PathRefView,
)
    requires
        site.segments != self_type(),
        parent_of(key) + site.segments == key || site.segments == key,
    ensures
        site_outcome(snap, roots, key, site) == Ok::<SiteOutcome, DbErrorView>(
            SiteOutcome {
                site: PathRefView { resolution: PathResolutionView::SelfResolved(key), ..site },
                verdict: BindingResolution::Fully,
                failure: None,
            },
        ),
{
}

/// A declaration whose only reference names the declaration itself gets
/// the verdict of full resolution, whatever the table holds.
pub proof fn lemma_self_referential_declaration(
    snap: Snapshot,
    roots: Set<Seq<char>>,
    key: Seq<Seq<char>>,
    b: BindingView,
    u: UnresolvedView,
)
    requires
        b.non_type_ast is None,
        b.type_ast matches Some(d) && (d.ast matches AstView::Real(item) && item.paths.len() == 1
            && item.paths[0].segments != self_type() && (parent_of(key) + item.paths[0].segments
            == key || item.paths[0].segments == key)),
    ensures
        resolve_binding(snap, roots, key, b, u) matches Ok((r, after)) && r.resolution
            == BindingResolution::Fully && after == u && (r.type_ast matches Some(
            AstView::Real(item),
        ) && item.paths.len() == 1 && item.paths[0].resolution
            == PathResolutionView::SelfResolved(key)),
{
    reveal_with_fuel(resolve_paths, 3);
    let item = b.type_ast->0.ast->Real_0;
    lemma_self_reference(snap, roots, key, item.paths[0]);
}

/// What stands at `p` in the map that a pass computed, if anything.
pub open spec fn shadow_at(shadow: Map<Seq<Seq<char>>, ResolvedView>, p: Seq<Seq<char>>) -> Option<
    ResolvedView,
> {
    if shadow.dom().contains(p) {
        Some(shadow[p])
    } else {
        None
    }
}

impl Database {
    /// The resolution pass. Every declaration below the root is resolved
    /// against the table as it stands when the pass begins; then the
    /// resolved copies replace the bodies of the declarations, the verdicts
    /// are taken into the bindings, and the record of the names that were
    /// not resolved is replaced. An error leaves the table as it was.
    #[verifier::loop_isolation(false)]
    pub fn resolve_idents(&mut self) -> (r: Result<(), DbError>)
        requires
            old(self).wf(),
        ensures
            (match resolve_all(
                old(self).snapshot(),
                old(self).roots(),
                old(self).decls.walk(),
                0,
                Map::empty(),
                Map::empty(),
            ) {
                Err(e) => r matches Err(x) && x@ == e && *final(self) == *old(self),
                Ok((shadow, u)) => {
                    &&& r is Ok
                    &&& final(self).wf()
                    &&& final(self).roots() == old(self).roots()
                    &&& final(self).wildcard_imports_temp == old(self).wildcard_imports_temp
                    &&& final(self).unresolved@ == u
                    &&& final(self).snapshot().dom() == old(self).snapshot().dom()
                    &&& forall|p: Seq<Seq<char>>| #[trigger]
                        old(self).snapshot().dom().contains(p) ==> final(self).snapshot()[p]
                            == commit(old(self).snapshot()[p], shadow_at(shadow, p))
                },
            }),
    {
        let ghost snap = self.snapshot();
        let ghost roots = self.roots();
        let ghost paths = self.decls.walk();
        let ghost total = resolve_all(snap, roots, paths, 0, Map::empty(), Map::empty());
        let entries = self.decls.entries();
        let mut shadow: NamedNode<IdentPart, Resolved> = NamedNode::new(Resolved::default());
        let mut unresolved = UnresolvedMap::new();
        let ghost mut model: Map<Seq<Seq<char>>, ResolvedView> = Map::empty();
        let count = entries.len();
        let mut i: usize = 0;
        while i < count
            invariant
                0 <= i <= count,
                count == entries@.len(),
                count == paths.len(),
                shadow.wf(),
                shadow.path_view() == Seq::<Seq<char>>::empty(),
                resolve_all(snap, roots, paths, i as int, model, unresolved@) == total,
                forall|q: Seq<Seq<char>>| #[trigger]
                    model.dom().contains(q) ==> shadow@.dom().contains(q) && shadow@[q]@
                        == model[q],
                forall|q: Seq<Seq<char>>|
                    #[trigger] shadow@.dom().contains(q) && !model.dom().contains(q)
                        ==> shadow@[q]@ == nothing_resolved(),
            decreases count - i,
        {
            let path = &entries[i].0;
            let binding = entries[i].1;
            let ghost p = paths[i as int];
            proof {
                self.decls.lemma_walk_lists_paths(p);
            }
            let key = GlobalIdent::from_ident_path(path.as_slice());
            let computed = match self.resolve_binding(&key, binding, &mut unresolved) {
                Err(e) => {
                    return Err(e);
                },
                Ok(x) => x,
            };
            let ghost computed_view = computed@;
            shadow.put(path.as_slice(), computed);
            proof {
                model = model.insert(p, computed_view);
            }
            i += 1;
        }
        let mut merge = |b: &Binding, r: Option<&Resolved>| -> (out: Binding)
            ensures
                out@ == commit(b@, resolved_view(r)),
            { commit_binding(b, r) };
        self.decls.left_join(Some(&shadow), &mut merge);
        self.unresolved = unresolved;
        proof {
            assert forall|p: Seq<Seq<char>>| #[trigger] snap.dom().contains(p) implies self.snapshot()[p]
                == commit(snap[p], shadow_at(model, p)) by {
                lemma_commit_nothing(snap[p]);
                if model.dom().contains(p) {
                } else if shadow.contains(p) {
                    assert(shadow@.dom().contains(p));
                }
            }
        }
        Ok(())
    }

    /// Resolves every reference of every declaration in the table.
    pub fn compile(&mut self) -> (r: Result<(), DbError>)
        requires
            old(self).wf(),
        ensures
            (match resolve_all(
                old(self).snapshot(),
                old(self).roots(),
                old(self).decls.walk(),
                0,
                Map::empty(),
                Map::empty(),
            ) {
                Err(e) => r matches Err(x) && x@ == e && *final(self) == *old(self),
                Ok((shadow, u)) => {
                    &&& r is Ok
                    &&& final(self).wf()
                    &&& final(self).roots() == old(self).roots()
                    &&& final(self).wildcard_imports_temp == old(self).wildcard_imports_temp
                    &&& final(self).unresolved@ == u
                    &&& final(self).snapshot().dom() == old(self).snapshot().dom()
                    &&& forall|p: Seq<Seq<char>>| #[trigger]
                        old(self).snapshot().dom().contains(p) ==> final(self).snapshot()[p]
                            == commit(old(self).snapshot()[p], shadow_at(shadow, p))
                },
            }),
    {
        self.resolve_idents()
    }
}

} // verus!
