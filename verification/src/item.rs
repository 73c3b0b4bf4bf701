//! Declarations as the resolver sees them: what kind of item a declaration
//! is, and the qualified names that its signature refers to.

use vstd::prelude::*;
use crate::global_ident::{string_views, GlobalIdent};

verus! {

/// The namespace that a declaration's name lives in.
#[derive(Clone, Copy, Debug, PartialEq, Eq, Structural)]
pub enum Slot {
    /// Structs, enums, unions, traits, trait aliases and type aliases.
    Type,
    /// Functions, constants and statics.
    Value,
}

/// The kinds of items that a module can hold.
#[derive(Clone, Copy, Debug, PartialEq, Eq, Structural)]
pub enum ItemKind {
    Const,
    Enum,
    ExternCrate,
    Fn,
    ForeignMod,
    Impl,
    Macro,
    Mod,
    Static,
    Struct,
    Trait,
    TraitAlias,
    Type,
    Union,
    Use,
}

impl ItemKind {
    /// The namespace in which an item of this kind binds its name; none
    /// for the kinds that introduce no name to resolve.
    pub open spec fn slot_of(self) -> Option<Slot> {
        match self {
            ItemKind::Struct | ItemKind::Enum | ItemKind::Union | ItemKind::Trait
            | ItemKind::TraitAlias | ItemKind::Type => Some(Slot::Type),
            ItemKind::Fn | ItemKind::Const | ItemKind::Static => Some(Slot::Value),
            ItemKind::ExternCrate | ItemKind::ForeignMod | ItemKind::Impl | ItemKind::Macro
            | ItemKind::Mod | ItemKind::Use => None,
        }
    }

    /// The namespace in which an item of this kind binds its name.
    pub fn slot(&self) -> (r: Option<Slot>)
        ensures
            r == self.slot_of(),
    {
        match self {
            ItemKind::Struct => Some(Slot::Type),
            ItemKind::Enum => Some(Slot::Type),
            ItemKind::Union => Some(Slot::Type),
            ItemKind::Trait => Some(Slot::Type),
            ItemKind::TraitAlias => Some(Slot::Type),
            ItemKind::Type => Some(Slot::Type),
            ItemKind::Fn => Some(Slot::Value),
            ItemKind::Const => Some(Slot::Value),
            ItemKind::Static => Some(Slot::Value),
            ItemKind::ExternCrate => None,
            ItemKind::ForeignMod => None,
            ItemKind::Impl => None,
            ItemKind::Macro => None,
            ItemKind::Mod => None,
            ItemKind::Use => None,
        }
    }
}

/// What is known of one reference after a resolution pass.
#[derive(Debug, PartialEq, Eq)]
pub enum PathResolution {
    /// No pass has looked at the reference.
    NotAttempted,
    /// The reference names the declaration it stands in.
    SelfResolved(GlobalIdent),
    /// The reference names the declaration at this address.
    Resolved(GlobalIdent),
    /// The reference could be followed as far as this address.
    PartiallyResolved(GlobalIdent),
    /// Nothing was found.
    Failed,
}

/// The model of a `PathResolution`.
pub enum PathResolutionView {
    NotAttempted,
    SelfResolved(Seq<Seq<char>>),
    Resolved(Seq<Seq<char>>),
    PartiallyResolved(Seq<Seq<char>>),
    Failed,
}

impl View for PathResolution {
    type V = PathResolutionView;

    open spec fn view(&self) -> PathResolutionView {
        match self {
            PathResolution::NotAttempted => PathResolutionView::NotAttempted,
            PathResolution::SelfResolved(g) => PathResolutionView::SelfResolved(g@),
            PathResolution::Resolved(g) => PathResolutionView::Resolved(g@),
            PathResolution::PartiallyResolved(g) => PathResolutionView::PartiallyResolved(g@),
            PathResolution::Failed => PathResolutionView::Failed,
        }
    }
}

impl Clone for PathResolution {
    fn clone(&self) -> (r: Self)
        ensures
            r@ == self@,
    {
        match self {
            PathResolution::NotAttempted => PathResolution::NotAttempted,
            PathResolution::SelfResolved(g) => PathResolution::SelfResolved(g.clone()),
            PathResolution::Resolved(g) => PathResolution::Resolved(g.clone()),
            PathResolution::PartiallyResolved(g) => PathResolution::PartiallyResolved(g.clone()),
            PathResolution::Failed => PathResolution::Failed,
        }
    }
}

/// One place in a declaration where a qualified name is written.
#[derive(Debug, PartialEq, Eq)]
pub struct PathRef {
    /// The name as written, segment by segment.
    pub segments: Vec<String>,
    /// What the last resolution pass found.
    pub resolution: PathResolution,
}

/// The model of a `PathRef`.
pub struct PathRefView {
    pub segments: Seq<Seq<char>>,
    pub resolution: PathResolutionView,
}

impl View for PathRef {
    type V = PathRefView;

    open spec fn view(&self) -> PathRefView {
        PathRefView { segments: string_views(self.segments@), resolution: self.resolution@ }
    }
}

/// A copy of a list of strings.
pub fn clone_strings(v: &Vec<String>) -> (r: Vec<String>)
    ensures
        string_views(r@) == string_views(v@),
{
    let mut out: Vec<String> = Vec::new();
    let mut i: usize = 0;
    while i < v.len()
        invariant
            0 <= i <= v.len(),
            out@.len() == i,
            forall|j: int| 0 <= j < i ==> out@[j]@ == v@[j]@,
        decreases v.len() - i,
    {
        out.push(v[i].clone());
        i += 1;
    }
    out
}

impl Clone for PathRef {
    fn clone(&self) -> (r: Self)
        ensures
            r@ == self@,
    {
        PathRef { segments: clone_strings(&self.segments), resolution: self.resolution.clone() }
    }
}

impl PathRef {
    /// A reference to the name written as `segments`, not yet resolved.
    pub fn new(segments: Vec<String>) -> (r: PathRef)
        ensures
            r@.segments == string_views(segments@),
            r@.resolution == PathResolutionView::NotAttempted,
    {
        PathRef { segments, resolution: PathResolution::NotAttempted }
    }
}

/// The models of a list of references.
pub open spec fn path_ref_views(s: Seq<PathRef>) -> Seq<PathRefView> {
    s.map_values(|p: PathRef| p@)
}

/// A declaration: its kind and the references that its signature, field
/// types and bounds hold, in the order in which they are written.
#[derive(Debug, PartialEq, Eq)]
pub struct Item {
    pub kind: ItemKind,
    pub paths: Vec<PathRef>,
}

/// The model of an `Item`.
pub struct ItemView {
    pub kind: ItemKind,
    pub paths: Seq<PathRefView>,
}

impl View for Item {
    type V = ItemView;

    open spec fn view(&self) -> ItemView {
        ItemView { kind: self.kind, paths: path_ref_views(self.paths@) }
    }
}

impl Clone for Item {
    fn clone(&self) -> (r: Self)
        ensures
            r@ == self@,
    {
        let mut paths: Vec<PathRef> = Vec::new();
        let mut i: usize = 0;
        while i < self.paths.len()
            invariant
                0 <= i <= self.paths.len(),
                paths@.len() == i,
                forall|j: int| 0 <= j < i ==> paths@[j]@ == self.paths@[j]@,
            decreases self.paths.len() - i,
        {
            paths.push(self.paths[i].clone());
            i += 1;
        }
        let r = Item { kind: self.kind, paths };
        assert(r@.paths =~= self@.paths);
        r
    }
}

impl PathResolutionView {
    /// Whether the reference is still open: no pass looked at it, or the
    /// last pass found nothing.
    pub open spec fn is_open(self) -> bool {
        self is NotAttempted || self is Failed
    }
}

/// The positions in `paths`, below `n`, of the references that are open.
pub open spec fn open_below(paths: Seq<PathRefView>, n: int) -> Seq<usize>
    decreases n,
{
    if n <= 0 {
        Seq::empty()
    } else if paths[n - 1].resolution.is_open() {
        open_below(paths, n - 1).push((n - 1) as usize)
    } else {
        open_below(paths, n - 1)
    }
}

impl Item {
    /// The positions of the references that are still open, in increasing
    /// order.
    pub fn open_paths(&self) -> (r: Vec<usize>)
        ensures
            r@ == open_below(self@.paths, self@.paths.len() as int),
    {
        let mut out: Vec<usize> = Vec::new();
        let mut i: usize = 0;
        while i < self.paths.len()
            invariant
                0 <= i <= self.paths@.len(),
                out@ == open_below(self@.paths, i as int),
            decreases self.paths@.len() - i,
        {
            let open = match self.paths[i].resolution {
                PathResolution::NotAttempted => true,
                PathResolution::Failed => true,
                _ => false,
            };
            if open {
                out.push(i);
            }
            i += 1;
        }
        out
    }
}

/// The body of a declaration: a real item, or a stub for a declaration
/// whose inside is not modelled.
#[derive(Debug, PartialEq, Eq)]
pub enum Ast {
    Real(Item),
    Stub,
}

/// The model of an `Ast`.
pub enum AstView {
    Real(ItemView),
    Stub,
}

impl View for Ast {
    type V = AstView;

    open spec fn view(&self) -> AstView {
        match self {
            Ast::Real(item) => AstView::Real(item@),
            Ast::Stub => AstView::Stub,
        }
    }
}

impl Clone for Ast {
    fn clone(&self) -> (r: Self)
        ensures
            r@ == self@,
    {
        match self {
            Ast::Real(item) => Ast::Real(item.clone()),
            Ast::Stub => Ast::Stub,
        }
    }
}

impl Default for Ast {
    fn default() -> (r: Self)
        ensures
            r@ == AstView::Stub,
    {
        Ast::Stub
    }
}

impl Ast {
    /// The item, where the body is a real one.
    pub fn as_ref(&self) -> (r: Option<&Item>)
        ensures
            r == (match self {
                Ast::Real(item) => Some(item),
                Ast::Stub => None,
            }),
    {
        match self {
            Ast::Real(item) => Some(item),
            Ast::Stub => None,
        }
    }

    /// The item, where the body is a real one; the body is given up.
    pub fn into_item(self) -> (r: Option<Item>)
        ensures
            r == (match self {
                Ast::Real(item) => Some(item),
                Ast::Stub => None,
            }),
    {
        match self {
            Ast::Real(item) => Some(item),
            Ast::Stub => None,
        }
    }
}

/// A declaration together with the address it is bound to.
#[derive(Debug, PartialEq, Eq)]
pub struct DeclAst {
    pub address: GlobalIdent,
    pub ast: Ast,
}

/// The model of a `DeclAst`.
pub struct DeclAstView {
    pub address: Seq<Seq<char>>,
    pub ast: AstView,
}

impl View for DeclAst {
    type V = DeclAstView;

    open spec fn view(&self) -> DeclAstView {
        DeclAstView { address: self.address@, ast: self.ast@ }
    }
}

impl Clone for DeclAst {
    fn clone(&self) -> (r: Self)
        ensures
            r@ == self@,
    {
        DeclAst { address: self.address.clone(), ast: self.ast.clone() }
    }
}

/// The model of an optional declaration.
pub open spec fn decl_view(d: Option<DeclAst>) -> Option<DeclAstView> {
    match d {
        Some(x) => Some(x@),
        None => None,
    }
}

} // verus!
