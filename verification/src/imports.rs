//! Import statements: which names and scopes a `use` tree brings into a
//! module.

use vstd::prelude::*;
use crate::global_ident::{string_views, GlobalIdent};
use crate::ident_part::same_text;
use crate::ident_set::sorted_insert;
use crate::ingest::{binding_at, with_binding};
use crate::item::clone_strings;
use crate::model::{BindingView, Database, ImportKind, Snapshot, WildcardImportView};

verus! {

/// An import statement, as a tree: a path with a tree below it, a name, a
/// renamed name, a glob, or a group of trees.
#[derive(Debug)]
pub enum UseTree {
    /// `ident::` followed by a tree.
    Path(String, Box<UseTree>),
    /// `ident`.
    Name(String),
    /// `ident as rename`.
    Rename(String, String),
    /// `*`.
    Glob,
    /// `{ .. }`.
    Group(Vec<UseTree>),
}

/// What an import statement asks of the table.
#[derive(Debug, PartialEq, Eq)]
pub enum ImportEdge {
    /// The name `name` imports `target`.
    Alias { name: GlobalIdent, target: GlobalIdent },
    /// The scope `scope` imports every name of `source`.
    Wildcard { scope: GlobalIdent, source: GlobalIdent },
}

/// The model of an `ImportEdge`.
pub enum ImportEdgeView {
    Alias { name: Seq<Seq<char>>, target: Seq<Seq<char>> },
    Wildcard { scope: Seq<Seq<char>>, source: Seq<Seq<char>> },
}

impl View for ImportEdge {
    type V = ImportEdgeView;

    open spec fn view(&self) -> ImportEdgeView {
        match self {
            ImportEdge::Alias { name, target } => ImportEdgeView::Alias {
                name: name@,
                target: target@,
            },
            ImportEdge::Wildcard { scope, source } => ImportEdgeView::Wildcard {
                scope: scope@,
                source: source@,
            },
        }
    }
}

/// The models of a list of edges.
pub open spec fn edge_views(s: Seq<ImportEdge>) -> Seq<ImportEdgeView> {
    s.map_values(|e: ImportEdge| e@)
}

/// The path that an import stands at after the segment `ident`, written in
/// the module `mods` when the import stood at `path`. At the start of an
/// import, `self` is the module itself and `crate` the module's crate.
pub open spec fn step_into(mods: Seq<Seq<char>>, path: Seq<Seq<char>>, ident: Seq<char>) -> Seq<
    Seq<char>,
> {
    if path.len() == 0 {
        if ident == "self"@ {
            mods
        } else if ident == "crate"@ {
            seq![mods[0]]
        } else {
            seq![ident]
        }
    } else {
        path.push(ident)
    }
}

/// What the import `tree`, written in the module `mods` and standing at
/// `path`, asks of the table, in the order in which it is written.
pub open spec fn use_edges(tree: UseTree, mods: Seq<Seq<char>>, path: Seq<Seq<char>>) -> Seq<
    ImportEdgeView,
>
    decreases tree,
{
    match tree {
        UseTree::Path(ident, sub) => use_edges(*sub, mods, step_into(mods, path, ident@)),
        UseTree::Name(ident) => seq![
            ImportEdgeView::Alias { name: mods.push(ident@), target: path.push(ident@) },
        ],
        UseTree::Rename(ident, rename) => seq![
            ImportEdgeView::Alias { name: mods.push(rename@), target: path.push(ident@) },
        ],
        UseTree::Glob => seq![ImportEdgeView::Wildcard { scope: mods, source: path }],
        UseTree::Group(items) => group_edges(items, 0, mods, path),
    }
}

/// What the trees of a group ask of the table, from position `i` on.
pub open spec fn group_edges(
    items: Vec<UseTree>,
    i: int,
    mods: Seq<Seq<char>>,
    path: Seq<Seq<char>>,
) -> Seq<ImportEdgeView>
    decreases items, items@.len() - i,
{
    if 0 <= i < items@.len() {
        use_edges(items@[i], mods, path) + group_edges(items, i + 1, mods, path)
    } else {
        Seq::empty()
    }
}

/// Whether the import `tree`, written where there is no module, reads the
/// crate: it starts with `crate`, after any number of `self`. Such an
/// import needs a module stack, whose first entry is the crate.
pub open spec fn leads_with_crate(tree: UseTree) -> bool
    decreases tree,
{
    match tree {
        UseTree::Path(ident, sub) => ident@ == "crate"@ || (ident@ == "self"@ && leads_with_crate(
            *sub,
        )),
        UseTree::Group(items) => group_leads_with_crate(items, 0),
        _ => false,
    }
}

/// Whether one of the trees of a group, from position `i` on, reads the
/// crate.
pub open spec fn group_leads_with_crate(items: Vec<UseTree>, i: int) -> bool
    decreases items, items@.len() - i,
{
    if 0 <= i < items@.len() {
        leads_with_crate(items@[i]) || group_leads_with_crate(items, i + 1)
    } else {
        false
    }
}

/// Whether the import `tree`, written where there is no module, reads the
/// crate.
#[verifier::loop_isolation(false)]
pub fn needs_crate(tree: &UseTree) -> (r: bool)
    ensures
        r == leads_with_crate(*tree),
    decreases tree,
{
    proof {
        reveal_strlit("self");
        reveal_strlit("crate");
    }
    match tree {
        UseTree::Path(ident, sub) => {
            if same_text(ident.as_str(), "crate") {
                true
            } else if same_text(ident.as_str(), "self") {
                needs_crate(sub)
            } else {
                false
            }
        },
        UseTree::Group(items) => {
            let mut i: usize = 0;
            while i < items.len()
                invariant
                    0 <= i <= items@.len(),
                    group_leads_with_crate(*items, i as int) == group_leads_with_crate(*items, 0),
                decreases items@.len() - i,
            {
                if needs_crate(&items[i]) {
                    return true;
                }
                i += 1;
            }
            false
        },
        _ => false,
    }
}

/// A copy of a list of strings.
fn clone_slice(v: &[String]) -> (r: Vec<String>)
    ensures
        string_views(r@) == string_views(v@),
{
    let mut out: Vec<String> = Vec::new();
    let mut i: usize = 0;
    while i < v.len()
        invariant
            0 <= i <= v.len(),
            out@.len() == i,
            forall|j: int| 0 <= j < i ==> out@[j]@ == v@[j]@,
        decreases v.len() - i,
    {
        out.push(v[i].clone());
        i += 1;
    }
    out
}

/// Appends to `out` what the import `tree` asks of the table.
#[verifier::loop_isolation(false)]
fn collect_into(tree: &UseTree, mod_stack: &[String], path: Vec<String>, out: &mut Vec<ImportEdge>)
    requires
        mod_stack@.len() > 0 || path@.len() > 0 || !leads_with_crate(*tree),
    ensures
        edge_views(final(out)@) == edge_views(old(out)@) + use_edges(
            *tree,
            string_views(mod_stack@),
            string_views(path@),
        ),
    decreases tree,
{
    let ghost mods = string_views(mod_stack@);
    let ghost here = string_views(path@);
    let ghost before = edge_views(out@);
    match tree {
        UseTree::Path(ident, sub) => {
            proof {
                reveal_strlit("self");
                reveal_strlit("crate");
            }
            let next = if path.len() == 0 {
                if same_text(ident.as_str(), "self") {
                    clone_slice(mod_stack)
                } else if same_text(ident.as_str(), "crate") {
                    let mut v: Vec<String> = Vec::new();
                    v.push(mod_stack[0].clone());
                    assert(string_views(v@) =~= seq![mods[0]]);
                    v
                } else {
                    let mut v: Vec<String> = Vec::new();
                    v.push(ident.clone());
                    assert(string_views(v@) =~= seq![ident@]);
                    v
                }
            } else {
                let mut v = path;
                v.push(ident.clone());
                assert(string_views(v@) =~= here.push(ident@));
                v
            };
            collect_into(sub, mod_stack, next, out);
        },
        UseTree::Name(ident) => {
            let name = GlobalIdent::from_path_and_name(mod_stack, ident.as_str());
            let target = GlobalIdent::from_path_and_name(path.as_slice(), ident.as_str());
            out.push(ImportEdge::Alias { name, target });
        },
        UseTree::Rename(ident, rename) => {
            let name = GlobalIdent::from_path_and_name(mod_stack, rename.as_str());
            let target = GlobalIdent::from_path_and_name(path.as_slice(), ident.as_str());
            out.push(ImportEdge::Alias { name, target });
        },
        UseTree::Glob => {
            let scope = GlobalIdent::from_path(mod_stack);
            let source = GlobalIdent::from_path(path.as_slice());
            out.push(ImportEdge::Wildcard { scope, source });
        },
        UseTree::Group(items) => {
            let mut i: usize = 0;
            while i < items.len()
                invariant
                    0 <= i <= items@.len(),
                    mod_stack@.len() > 0 || path@.len() > 0 || !group_leads_with_crate(
                        *items,
                        i as int,
                    ),
                    mods == string_views(mod_stack@),
                    here == string_views(path@),
                    edge_views(out@) + group_edges(*items, i as int, mods, here) == before
                        + group_edges(*items, 0, mods, here),
                decreases items@.len() - i,
            {
                let copy = clone_strings(&path);
                assert(copy@.len() == string_views(copy@).len());
                assert(path@.len() == string_views(path@).len());
                collect_into(&items[i], mod_stack, copy, out);
                i += 1;
            }
        },
    }
}

/// What the import `tree`, written in the module `mod_stack`, asks of the
/// table, in the order in which it is written. The first entry of the
/// module stack is the crate: an import that starts with `crate` cannot be
/// read where the stack is empty.
pub fn collect_uses(tree: &UseTree, mod_stack: &[String]) -> (r: Vec<ImportEdge>)
    requires
        mod_stack@.len() > 0 || !leads_with_crate(*tree),
    ensures
        edge_views(r@) == use_edges(*tree, string_views(mod_stack@), Seq::empty()),
{
    let mut out: Vec<ImportEdge> = Vec::new();
    let path: Vec<String> = Vec::new();
    collect_into(tree, mod_stack, path, &mut out);
    proof {
        assert(string_views(path@) =~= Seq::<Seq<char>>::empty());
    }
    out
}

/// The snapshot after the import `e` was recorded.
pub open spec fn with_edge(snap: Snapshot, e: ImportEdgeView) -> Snapshot {
    match e {
        ImportEdgeView::Alias { name, target } => with_binding(
            snap,
            name,
            BindingView {
                alias_for: binding_at(snap, name).alias_for.push(target),
                alias_kinds: binding_at(snap, name).alias_kinds.push(ImportKind::Normal),
                ..binding_at(snap, name)
            },
        ),
        ImportEdgeView::Wildcard { scope, source } => with_binding(
            snap,
            scope,
            BindingView {
                wildcard_alias_for: sorted_insert(
                    binding_at(snap, scope).wildcard_alias_for,
                    source,
                ),
                ..binding_at(snap, scope)
            },
        ),
    }
}

/// The snapshot after the imports `edges` were recorded, first to last.
pub open spec fn with_edges(snap: Snapshot, edges: Seq<ImportEdgeView>) -> Snapshot
    decreases edges.len(),
{
    if edges.len() == 0 {
        snap
    } else {
        with_edge(with_edges(snap, edges.drop_last()), edges.last())
    }
}

/// The glob import that the import `e` adds to the list of glob imports,
/// if it is one.
pub open spec fn glob_of(e: ImportEdgeView) -> Seq<WildcardImportView> {
    match e {
        ImportEdgeView::Alias { .. } => Seq::empty(),
        ImportEdgeView::Wildcard { scope, source } => seq![
            WildcardImportView { target: scope, source },
        ],
    }
}

/// The glob imports among `edges`, in their order.
pub open spec fn globs_of(edges: Seq<ImportEdgeView>) -> Seq<WildcardImportView>
    decreases edges.len(),
{
    if edges.len() == 0 {
        Seq::empty()
    } else {
        globs_of(edges.drop_last()) + glob_of(edges.last())
    }
}

impl Database {
    /// Records one import: an import of a name on the binding of the
    /// importing name, as an import of the kind `Normal`; a glob import on
    /// the importing scope and in the list of glob imports.
    pub fn add_import(&mut self, edge: &ImportEdge)
        requires
            old(self).wf(),
        ensures
            final(self).wf(),
            final(self).snapshot() == with_edge(old(self).snapshot(), edge@),
            final(self).globs() == old(self).globs() + glob_of(edge@),
            final(self).roots() == old(self).roots(),
            final(self).unresolved == old(self).unresolved,
    {
        match edge {
            ImportEdge::Alias { name, target } => {
                self.add_alias(name, target.clone(), ImportKind::Normal);
            },
            ImportEdge::Wildcard { scope, source } => {
                self.add_wildcard(scope, source.clone());
            },
        }
    }

    /// Records the imports of the statement `tree`, written in the module
    /// `mod_stack`. An import that starts with `crate` cannot be read where
    /// the stack is empty.
    pub fn add_use(&mut self, tree: &UseTree, mod_stack: &[String])
        requires
            old(self).wf(),
            mod_stack@.len() > 0 || !leads_with_crate(*tree),
        ensures
            final(self).wf(),
            final(self).snapshot() == with_edges(
                old(self).snapshot(),
                use_edges(*tree, string_views(mod_stack@), Seq::empty()),
            ),
            final(self).globs() == old(self).globs() + globs_of(
                use_edges(*tree, string_views(mod_stack@), Seq::empty()),
            ),
            final(self).roots() == old(self).roots(),
            final(self).unresolved == old(self).unresolved,
    {
        let edges = collect_uses(tree, mod_stack);
        let ghost all = edge_views(edges@);
        let ghost start = self.snapshot();
        let count = edges.len();
        let mut i: usize = 0;
        while i < count
            invariant
                self.wf(),
                0 <= i <= count,
                count == edges@.len(),
                all == edge_views(edges@),
                self.snapshot() == with_edges(start, all.subrange(0, i as int)),
                self.globs() == old(self).globs() + globs_of(all.subrange(0, i as int)),
                self.roots() == old(self).roots(),
                self.unresolved == old(self).unresolved,
            decreases count - i,
        {
            proof {
                let next = all.subrange(0, i + 1);
                assert(next.drop_last() =~= all.subrange(0, i as int));
            }
            self.add_import(&edges[i]);
            i += 1;
        }
        proof {
            assert(all.subrange(0, count as int) =~= all);
        }
    }
}

} // verus!
