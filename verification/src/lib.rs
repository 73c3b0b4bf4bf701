//! A cross-module symbol table: an ordered, path-indexed declaration tree and
//! the engine that resolves every qualified name inside the stored
//! declarations to the declaration it refers to.

pub mod text;
pub mod path_key;
pub mod path_map;
pub mod ident_part;
pub mod global_ident;
pub mod named_tree;
pub mod ident_set;
pub mod item;
pub mod model;
pub mod lookup_decl;
pub mod unresolved;
pub mod resolve_idents;
pub mod ingest;
pub mod imports;

pub use global_ident::GlobalIdent;
pub use ident_part::IdentPart;
pub use item::{Ast, DeclAst, Item, ItemKind, PathRef, PathResolution, Slot};
pub use model::{
    Binding, BindingResolution, Database, DbError, Decl, ImportKind, Mod, Resolution,
    UnresolvedCtx, WildcardImport,
};
