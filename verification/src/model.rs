//! The symbol table: what is bound to each qualified name, and the table
//! of all bindings.

use vstd::prelude::*;
use crate::global_ident::GlobalIdent;
use crate::ident_part::IdentPart;
use crate::ident_set::IdentSet;
use crate::item::{decl_view, Ast, AstView, DeclAst, DeclAstView, Item};
use crate::named_tree::{FromPath, NamedNode};
use crate::path_key::key_views;
use crate::unresolved::{UnresolvedCtxView, UnresolvedMap};

verus! {

/// How an import brings a name in.
#[derive(Clone, Copy, Debug, PartialEq, Eq, Structural)]
pub enum ImportKind {
    Normal,
    Wildcard,
}

/// The verdict on a binding: how the references inside its declarations
/// fared, taken together.
#[derive(Clone, Copy, Debug, PartialEq, Eq, Structural)]
pub enum BindingResolution {
    NotAttempted,
    Fully,
    Partially,
    Failed,
}

impl BindingResolution {
    /// How bad a verdict is: nothing attempted, then full, partial and
    /// failed resolution.
    pub open spec fn rank(self) -> nat {
        match self {
            BindingResolution::NotAttempted => 0,
            BindingResolution::Fully => 1,
            BindingResolution::Partially => 2,
            BindingResolution::Failed => 3,
        }
    }

    /// The verdict on two things that both count: the worse of the two.
    pub open spec fn and_spec(self, other: BindingResolution) -> BindingResolution {
        if self.rank() >= other.rank() {
            self
        } else {
            other
        }
    }

    /// The verdict on two attempts of which one suffices: the better of
    /// the two, where an attempt not made does not count.
    pub open spec fn or_spec(self, other: BindingResolution) -> BindingResolution {
        if other == BindingResolution::NotAttempted {
            self
        } else if self == BindingResolution::NotAttempted {
            other
        } else if self.rank() <= other.rank() {
            self
        } else {
            other
        }
    }

    /// Takes `other` into the verdict as something that counts as well.
    pub fn and(&mut self, other: BindingResolution)
        ensures
            *final(self) == old(self).and_spec(other),
    {
        match other {
            BindingResolution::NotAttempted => {},
            BindingResolution::Fully => {
                *self = match *self {
                    BindingResolution::NotAttempted => BindingResolution::Fully,
                    BindingResolution::Fully => BindingResolution::Fully,
                    BindingResolution::Partially => BindingResolution::Partially,
                    BindingResolution::Failed => BindingResolution::Failed,
                }
            },
            BindingResolution::Partially => {
                *self = match *self {
                    BindingResolution::Failed => BindingResolution::Failed,
                    _ => BindingResolution::Partially,
                }
            },
            BindingResolution::Failed => {
                *self = BindingResolution::Failed;
            },
        }
    }

    /// Takes `other` into the verdict as another attempt at the same.
    pub fn or(&mut self, other: BindingResolution)
        ensures
            *final(self) == old(self).or_spec(other),
    {
        match other {
            BindingResolution::NotAttempted => {},
            BindingResolution::Fully => {
                *self = BindingResolution::Fully;
            },
            BindingResolution::Partially => {
                *self = match *self {
                    BindingResolution::Fully => BindingResolution::Fully,
                    _ => BindingResolution::Partially,
                }
            },
            BindingResolution::Failed => {
                *self = match *self {
                    BindingResolution::NotAttempted => BindingResolution::Failed,
                    other_verdict => other_verdict,
                }
            },
        }
    }
}

/// Both ways of combining verdicts are commutative, associative and
/// idempotent, and a verdict not attempted changes nothing.
pub proof fn lemma_verdict_algebra(a: BindingResolution, b: BindingResolution, c: BindingResolution)
    ensures
        a.and_spec(b) == b.and_spec(a),
        a.and_spec(b).and_spec(c) == a.and_spec(b.and_spec(c)),
        a.and_spec(a) == a,
        a.and_spec(BindingResolution::NotAttempted) == a,
        a.or_spec(b) == b.or_spec(a),
        a.or_spec(b).or_spec(c) == a.or_spec(b.or_spec(c)),
        a.or_spec(a) == a,
        a.or_spec(BindingResolution::NotAttempted) == a,
{
}

/// A failure never turns into anything better by taking more into the
/// verdict, and a success once found is never lost to a later attempt.
pub proof fn lemma_verdict_monotone(a: BindingResolution, b: BindingResolution)
    ensures
        a.and_spec(b).rank() >= a.rank(),
        a.and_spec(b).rank() >= b.rank(),
        a == BindingResolution::Fully ==> a.or_spec(b) == BindingResolution::Fully,
{
}

impl Default for BindingResolution {
    fn default() -> (r: Self)
        ensures
            r == BindingResolution::NotAttempted,
    {
        BindingResolution::NotAttempted
    }
}

impl FromPath<IdentPart> for BindingResolution {
    open spec fn made_from(&self, path: Seq<Seq<char>>) -> bool {
        *self == BindingResolution::NotAttempted
    }

    fn from_path(path: &[IdentPart]) -> (r: Self) {
        BindingResolution::NotAttempted
    }
}

impl<T, K: View> FromPath<K> for Option<T> {
    open spec fn made_from(&self, path: Seq<K::V>) -> bool {
        *self is None
    }

    fn from_path(path: &[K]) -> (r: Self) {
        None
    }
}

/// A glob import: the scope `target` imports everything from `source`.
#[derive(Debug)]
pub struct WildcardImport {
    pub target: GlobalIdent,
    pub source: GlobalIdent,
}

/// The model of a `WildcardImport`.
pub struct WildcardImportView {
    pub target: Seq<Seq<char>>,
    pub source: Seq<Seq<char>>,
}

impl View for WildcardImport {
    type V = WildcardImportView;

    open spec fn view(&self) -> WildcardImportView {
        WildcardImportView { target: self.target@, source: self.source@ }
    }
}

/// A module scope and the scopes it imports wholesale.
#[derive(Debug)]
pub struct Mod {
    pub address: GlobalIdent,
    pub wildcard_imported_mods: IdentSet,
}

/// Who failed to resolve a name: the scopes in which it was looked for and
/// the declarations that asked for it.
#[derive(Debug)]
pub struct UnresolvedCtx {
    pub scopes: IdentSet,
    pub requestors: IdentSet,
}

impl Default for UnresolvedCtx {
    fn default() -> (r: Self)
        ensures
            r.scopes@.len() == 0,
            r.requestors@.len() == 0,
    {
        UnresolvedCtx { scopes: IdentSet::new(), requestors: IdentSet::new() }
    }
}

/// The models of a list of import targets.
pub open spec fn alias_views(s: Seq<(GlobalIdent, ImportKind)>) -> Seq<Seq<Seq<char>>> {
    s.map_values(|a: (GlobalIdent, ImportKind)| a.0@)
}

/// The kinds of a list of imports, in the same order.
pub open spec fn alias_kinds(s: Seq<(GlobalIdent, ImportKind)>) -> Seq<ImportKind> {
    s.map_values(|a: (GlobalIdent, ImportKind)| a.1)
}

/// What is bound to one qualified name. A name can hold a declaration in
/// the type namespace and one in the value namespace at the same time.
#[derive(Debug)]
pub struct Binding {
    /// The name itself.
    pub address: GlobalIdent,
    /// The declaration in the value namespace.
    pub non_type_ast: Option<DeclAst>,
    /// The declaration in the type namespace.
    pub type_ast: Option<DeclAst>,
    /// The names that this name imports, in the order of the imports.
    pub alias_for: Vec<(GlobalIdent, ImportKind)>,
    /// The scopes whose names this scope imports wholesale.
    pub wildcard_alias_for: IdentSet,
    /// The verdict on the references inside the declarations.
    pub resolution: BindingResolution,
}

/// The model of a `Binding`.
pub struct BindingView {
    pub address: Seq<Seq<char>>,
    pub non_type_ast: Option<DeclAstView>,
    pub type_ast: Option<DeclAstView>,
    /// The names that the name imports, in the order of the imports.
    pub alias_for: Seq<Seq<Seq<char>>>,
    /// How each of them is imported, in the same order.
    pub alias_kinds: Seq<ImportKind>,
    pub wildcard_alias_for: Seq<Seq<Seq<char>>>,
    pub resolution: BindingResolution,
}

impl View for Binding {
    type V = BindingView;

    open spec fn view(&self) -> BindingView {
        BindingView {
            address: self.address@,
            non_type_ast: decl_view(self.non_type_ast),
            type_ast: decl_view(self.type_ast),
            alias_for: alias_views(self.alias_for@),
            alias_kinds: alias_kinds(self.alias_for@),
            wildcard_alias_for: self.wildcard_alias_for@,
            resolution: self.resolution,
        }
    }
}

/// The binding of a name to which nothing is bound yet.
pub open spec fn empty_binding(address: Seq<Seq<char>>) -> BindingView {
    BindingView {
        address,
        non_type_ast: None,
        type_ast: None,
        alias_for: Seq::empty(),
        alias_kinds: Seq::empty(),
        wildcard_alias_for: Seq::empty(),
        resolution: BindingResolution::NotAttempted,
    }
}

impl Binding {
    /// The binding of `path` to nothing.
    pub fn new_empty(path: GlobalIdent) -> (r: Self)
        ensures
            r@ == empty_binding(path@),
    {
        let r = Binding {
            address: path,
            non_type_ast: None,
            type_ast: None,
            alias_for: Vec::new(),
            wildcard_alias_for: IdentSet::new(),
            resolution: BindingResolution::NotAttempted,
        };
        assert(r@.alias_for =~= Seq::empty());
        assert(r@.alias_kinds =~= Seq::empty());
        assert(r@.wildcard_alias_for =~= Seq::empty());
        r
    }

    /// The binding of `path` to the declaration `item` in the type
    /// namespace.
    pub fn new_type_ast(path: GlobalIdent, item: Item) -> (r: Self)
        ensures
            r@ == (BindingView {
                type_ast: Some(DeclAstView { address: path@, ast: AstView::Real(item@) }),
                ..empty_binding(path@)
            }),
    {
        let address = path.clone();
        let r = Binding {
            address,
            non_type_ast: None,
            type_ast: Some(DeclAst { address: path, ast: Ast::Real(item) }),
            alias_for: Vec::new(),
            wildcard_alias_for: IdentSet::new(),
            resolution: BindingResolution::NotAttempted,
        };
        assert(r@.alias_for =~= Seq::empty());
        assert(r@.alias_kinds =~= Seq::empty());
        assert(r@.wildcard_alias_for =~= Seq::empty());
        r
    }

    /// The binding of `path` to the declaration `item` in the value
    /// namespace.
    pub fn new_non_type_ast(path: GlobalIdent, item: Item) -> (r: Self)
        ensures
            r@ == (BindingView {
                non_type_ast: Some(DeclAstView { address: path@, ast: AstView::Real(item@) }),
                ..empty_binding(path@)
            }),
    {
        let address = path.clone();
        let r = Binding {
            address,
            non_type_ast: Some(DeclAst { address: path, ast: Ast::Real(item) }),
            type_ast: None,
            alias_for: Vec::new(),
            wildcard_alias_for: IdentSet::new(),
            resolution: BindingResolution::NotAttempted,
        };
        assert(r@.alias_for =~= Seq::empty());
        assert(r@.alias_kinds =~= Seq::empty());
        assert(r@.wildcard_alias_for =~= Seq::empty());
        r
    }

    /// The binding of `path` to a stub in the type namespace.
    pub fn new_type_stub(path: GlobalIdent) -> (r: Self)
        ensures
            r@ == (BindingView {
                type_ast: Some(DeclAstView { address: path@, ast: AstView::Stub }),
                ..empty_binding(path@)
            }),
    {
        let address = path.clone();
        let r = Binding {
            address,
            non_type_ast: None,
            type_ast: Some(DeclAst { address: path, ast: Ast::Stub }),
            alias_for: Vec::new(),
            wildcard_alias_for: IdentSet::new(),
            resolution: BindingResolution::NotAttempted,
        };
        assert(r@.alias_for =~= Seq::empty());
        assert(r@.alias_kinds =~= Seq::empty());
        assert(r@.wildcard_alias_for =~= Seq::empty());
        r
    }
}

impl FromPath<IdentPart> for Binding {
    open spec fn made_from(&self, path: Seq<Seq<char>>) -> bool {
        self@ == empty_binding(path)
    }

    fn from_path(path: &[IdentPart]) -> (r: Self) {
        Binding::new_empty(GlobalIdent::from_ident_path(path))
    }
}

/// What a name was found to refer to.
#[derive(Debug)]
pub enum Resolution {
    /// The declaration that the name refers to.
    Fully(DeclAst),
    /// The address up to which the name could be followed.
    Partially(GlobalIdent),
    /// Nothing.
    Failed,
}

/// The model of a `Resolution`.
pub enum ResolutionView {
    Fully(DeclAstView),
    Partially(Seq<Seq<char>>),
    Failed,
}

impl View for Resolution {
    type V = ResolutionView;

    open spec fn view(&self) -> ResolutionView {
        match self {
            Resolution::Fully(d) => ResolutionView::Fully(d@),
            Resolution::Partially(g) => ResolutionView::Partially(g@),
            Resolution::Failed => ResolutionView::Failed,
        }
    }
}

/// What can be bound to a name.
#[derive(Debug)]
pub enum Decl {
    Nothing,
    Ast(DeclAst),
    Import(GlobalIdent, ImportKind),
    Mod(Mod),
}

impl Default for Decl {
    fn default() -> (r: Self)
        ensures
            r is Nothing,
    {
        Decl::Nothing
    }
}

/// Why the table refused an operation.
#[derive(Debug, PartialEq, Eq)]
pub enum DbError {
    /// Something is bound already where a declaration was to be added; the
    /// payload is the address.
    DuplicateDefinition(GlobalIdent),
    /// A qualified name could not be read; the payload is the text given.
    MalformedPath(String),
    /// A name leads to several imports and to nothing else; the payload is
    /// the address of the binding that holds them.
    AmbiguousPartialResolution(GlobalIdent),
}

/// The model of a `DbError`.
pub enum DbErrorView {
    DuplicateDefinition(Seq<Seq<char>>),
    MalformedPath(Seq<char>),
    AmbiguousPartialResolution(Seq<Seq<char>>),
}

impl View for DbError {
    type V = DbErrorView;

    open spec fn view(&self) -> DbErrorView {
        match self {
            DbError::DuplicateDefinition(g) => DbErrorView::DuplicateDefinition(g@),
            DbError::MalformedPath(s) => DbErrorView::MalformedPath(s@),
            DbError::AmbiguousPartialResolution(g) => DbErrorView::AmbiguousPartialResolution(g@),
        }
    }
}

/// The bindings of a table, by address.
pub type Snapshot = Map<Seq<Seq<char>>, BindingView>;

/// The models of a map of bindings.
pub open spec fn snapshot_of(m: Map<Seq<Seq<char>>, Binding>) -> Snapshot {
    Map::new(|p: Seq<Seq<char>>| m.dom().contains(p), |p: Seq<Seq<char>>| m[p]@)
}

/// The symbol table: one tree of bindings, rooted at the empty name.
#[derive(Debug)]
pub struct Database {
    /// The bindings, each at the node that its address leads to.
    pub decls: NamedNode<IdentPart, Binding>,
    /// The glob imports recorded so far.
    pub wildcard_imports_temp: Vec<WildcardImport>,
    /// Who failed on which name in the last resolution pass.
    pub unresolved: UnresolvedMap,
    /// The first segments of the names that lead out of the table: what is
    /// imported from below them counts as declared elsewhere.
    pub opaque_roots: Vec<IdentPart>,
}

impl Database {
    /// The invariant of the table: the tree is well formed and its root
    /// stands for the empty name.
    pub open spec fn wf(&self) -> bool {
        &&& self.decls.wf()
        &&& self.decls.path_view().len() == 0
    }

    /// The bindings of the table, by address.
    pub open spec fn snapshot(&self) -> Snapshot {
        snapshot_of(self.decls@)
    }

    /// The glob imports recorded so far, in the order in which they were
    /// recorded.
    pub open spec fn globs(&self) -> Seq<WildcardImportView> {
        self.wildcard_imports_temp@.map_values(|w: WildcardImport| w@)
    }

    /// The first segments that lead out of the table.
    pub open spec fn roots(&self) -> Set<Seq<char>> {
        key_views(self.opaque_roots@).to_set()
    }

    /// Whether `name` is the first segment of names that lead out of the
    /// table.
    pub fn is_opaque_root(&self, name: &IdentPart) -> (r: bool)
        ensures
            r == self.roots().contains(name@),
    {
        let mut i: usize = 0;
        while i < self.opaque_roots.len()
            invariant
                0 <= i <= self.opaque_roots@.len(),
                forall|j: int| 0 <= j < i ==> self.opaque_roots@[j]@ != name@,
            decreases self.opaque_roots@.len() - i,
        {
            if self.opaque_roots[i] == *name {
                assert(key_views(self.opaque_roots@)[i as int] == name@);
                return true;
            }
            i += 1;
        }
        proof {
            if self.roots().contains(name@) {
                let j = choose|j: int|
                    0 <= j < key_views(self.opaque_roots@).len() && key_views(
                        self.opaque_roots@,
                    )[j] == name@;
            }
        }
        false
    }
}

impl Default for Database {
    /// The table that holds nothing but its root, with `std` and `core`
    /// leading out of it.
    fn default() -> (r: Self)
        ensures
            r.wf(),
            r.snapshot() == Map::<Seq<Seq<char>>, BindingView>::empty().insert(
                Seq::empty(),
                empty_binding(Seq::empty()),
            ),
            r.roots() == set!["std"@, "core"@],
            r.wildcard_imports_temp@.len() == 0,
            r.unresolved@ == Map::<Seq<Seq<char>>, UnresolvedCtxView>::empty(),
    {
        let mut opaque_roots: Vec<IdentPart> = Vec::new();
        opaque_roots.push(IdentPart::from_name("std"));
        opaque_roots.push(IdentPart::from_name("core"));
        let r = Database {
            decls: NamedNode::new(Binding::new_empty(GlobalIdent::root())),
            wildcard_imports_temp: Vec::new(),
            unresolved: UnresolvedMap::new(),
            opaque_roots,
        };
        proof {
            let kv = key_views(r.opaque_roots@);
            assert(kv[0] == "std"@);
            assert(kv[1] == "core"@);
        }
        r
    }
}

} // verus!
