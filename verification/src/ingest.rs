//! Filling the table: modules, declarations, imports and stubs.

use vstd::prelude::*;
use vstd::string::*;
use crate::global_ident::{split_qualified, string_views, GlobalIdent};
use crate::ident_part::{same_text, IdentPart};
use crate::item::{Ast, AstView, DeclAst, DeclAstView, Item, Slot};
use crate::ident_set::sorted_insert;
use crate::model::{
    empty_binding, snapshot_of, Binding, BindingView, Database, DbError, DbErrorView, ImportKind,
    Snapshot, WildcardImport, WildcardImportView,
};
use crate::named_tree::materialized;
use crate::path_key::key_views;
use crate::path_map::graft;
use crate::text::{dashes_replaced, module_name};

verus! {

/// The snapshot `snap` with `b` bound at `p`: every name on the way to `p`
/// that was not there is bound to nothing, and all else stays.
pub open spec fn with_binding(snap: Snapshot, p: Seq<Seq<char>>, b: BindingView) -> Snapshot {
    Map::new(
        |q: Seq<Seq<char>>| snap.dom().contains(q) || q.is_prefix_of(p),
        |q: Seq<Seq<char>>|
            if q == p {
                b
            } else if snap.dom().contains(q) {
                snap[q]
            } else {
                empty_binding(q)
            },
    )
}

/// What is bound at `p` in `snap`; nothing where `p` is not there.
pub open spec fn binding_at(snap: Snapshot, p: Seq<Seq<char>>) -> BindingView {
    if snap.dom().contains(p) {
        snap[p]
    } else {
        empty_binding(p)
    }
}

/// Placing a binding: where a tree was materialized along `p` and the
/// value at `p` was then set to `v`, the snapshot is the old one with
/// `v` bound at `p`.
proof fn lemma_binding_placed(
    before: Map<Seq<Seq<char>>, Binding>,
    after: Map<Seq<Seq<char>>, Binding>,
    p: Seq<Seq<char>>,
    handed: Map<Seq<Seq<char>>, Binding>,
    v: Binding,
)
    requires
        materialized::<IdentPart, Binding>(before, graft(after, p, handed), Seq::empty(), p),
        after == graft(graft(after, p, handed), p, handed.insert(Seq::empty(), v)),
        handed.dom().contains(Seq::empty()),
    ensures
        snapshot_of(after) == with_binding(snapshot_of(before), p, v@),
{
    let t = graft(after, p, handed);
    let e = Seq::<Seq<char>>::empty();
    let lhs = snapshot_of(after);
    let rhs = with_binding(snapshot_of(before), p, v@);
    assert(p.skip(p.len() as int) =~= e);
    assert forall|q: Seq<Seq<char>>| #[trigger]
        lhs.dom().contains(q) == rhs.dom().contains(q) && (lhs.dom().contains(q) ==> lhs[q]
            == rhs[q]) by {
        if p.is_prefix_of(q) {
            let tail = q.skip(p.len() as int);
            if q != p {
                assert(tail != e) by {
                    if tail == e {
                        assert(q =~= p);
                    }
                }
            }
        }
        if q != p && t.dom().contains(q) {
        }
    }
}

impl Database {
    /// Records that the name `name` imports `target`: lookups that reach
    /// `name` go on at `target`. Imports are tried in the order in which
    /// they were recorded.
    pub fn add_alias(&mut self, name: &GlobalIdent, target: GlobalIdent, kind: ImportKind)
        requires
            old(self).wf(),
        ensures
            final(self).wf(),
            final(self).snapshot() == with_binding(
                old(self).snapshot(),
                name@,
                BindingView {
                    alias_for: binding_at(old(self).snapshot(), name@).alias_for.push(target@),
                    alias_kinds: binding_at(old(self).snapshot(), name@).alias_kinds.push(kind),
                    ..binding_at(old(self).snapshot(), name@)
                },
            ),
            final(self).roots() == old(self).roots(),
            final(self).wildcard_imports_temp == old(self).wildcard_imports_temp,
            final(self).unresolved == old(self).unresolved,
    {
        let ghost p = name@;
        let ghost before = self.decls;
        proof {
            if before.contains(p) {
                before.lemma_subtree_view(p);
            }
        }
        let node = self.decls.find_or_create(name.parts());
        let ghost handed = *node;
        proof {
            if !before.contains(p) {
                handed.lemma_leaf_view();
            }
        }
        let b = node.get_value_mut();
        let ghost was = b@;
        b.alias_for.push((target, kind));
        proof {
            assert(b@.alias_for =~= was.alias_for.push(target@));
            assert(b@.alias_kinds =~= was.alias_kinds.push(kind));
            lemma_binding_placed(before@, self.decls@, p, handed@, self.decls@[p]);
        }
    }
}

/// Whether `c` may stand in a plain path: a letter or a digit, an
/// underscore, a colon, or a character outside ASCII.
pub open spec fn plain_char(c: char) -> bool {
    ||| 'a' <= c <= 'z'
    ||| 'A' <= c <= 'Z'
    ||| '0' <= c <= '9'
    ||| c == '_'
    ||| c == ':'
    ||| c > '\u{7f}'
}

/// Whether a text holds nothing but the characters of plain paths: no
/// space, no bracket and no operator.
pub open spec fn plain_text(name: Seq<char>) -> bool {
    forall|i: int| 0 <= i < name.len() ==> plain_char(#[trigger] name[i])
}

/// Whether a text holds nothing but the characters of plain paths.
pub fn is_plain_text(name: &str) -> (r: bool)
    ensures
        r == plain_text(name@),
{
    for c in it: name.chars()
        invariant
            it.seq() == name@,
            forall|i: int| 0 <= i < it.index() ==> plain_char(#[trigger] name@[i]),
    {
        let plain = ('a' <= c && c <= 'z') || ('A' <= c && c <= 'Z') || ('0' <= c && c <= '9') || c
            == '_' || c == ':' || c > '\u{7f}';
        if !plain {
            return false;
        }
    }
    true
}

/// Whether the parser of `syn` accepts a text as a path.
pub uninterp spec fn syn_path_parses(name: Seq<char>) -> bool;

/// Asks `syn::parse_str::<syn::Path>` whether `name` is a path.
///
/// Trusted: the parser is taken to answer for a text the same way every
/// time, so that its verdict can be given the name `syn_path_parses`.
/// Nothing else is claimed of it. This library is no procedural macro, so
/// the parser reads the text with its own lexer, which looks at nothing
/// but the text. Only plain texts are handed to it: on
/// brackets and operators the parser descends, a level for each, and a
/// text with enough of them makes it run out of stack.
#[verifier::external_body]
fn parses_as_path(name: &str) -> (r: bool)
    requires
        plain_text(name@),
    ensures
        r == syn_path_parses(name@),
{
    syn::parse_str::<syn::Path>(name).is_ok()
}

/// Whether a text is read as a qualified name: it is plain, and the
/// parser of `syn` accepts it as a path.
pub open spec fn well_formed_name(name: Seq<char>) -> bool {
    plain_text(name) && syn_path_parses(name)
}

/// Whether `name` is the name of a module of tests, which is left out of
/// the table.
pub fn names_test_module(name: &str) -> (r: bool)
    ensures
        r == (name@ == "test"@ || name@ == "tests"@),
{
    same_text(name, "test") || same_text(name, "tests")
}

/// The binding `b` with `d` bound in the namespace `slot`.
pub open spec fn with_decl(b: BindingView, slot: Slot, d: DeclAstView) -> BindingView {
    match slot {
        Slot::Type => BindingView { type_ast: Some(d), ..b },
        Slot::Value => BindingView { non_type_ast: Some(d), ..b },
    }
}

/// What `b` holds in the namespace `slot`.
pub open spec fn decl_in(b: BindingView, slot: Slot) -> Option<DeclAstView> {
    match slot {
        Slot::Type => b.type_ast,
        Slot::Value => b.non_type_ast,
    }
}

impl Database {
    /// Records that the scope `scope` imports every name of `source`.
    pub fn add_wildcard(&mut self, scope: &GlobalIdent, source: GlobalIdent)
        requires
            old(self).wf(),
        ensures
            final(self).wf(),
            final(self).snapshot() == with_binding(
                old(self).snapshot(),
                scope@,
                BindingView {
                    wildcard_alias_for: sorted_insert(
                        binding_at(old(self).snapshot(), scope@).wildcard_alias_for,
                        source@,
                    ),
                    ..binding_at(old(self).snapshot(), scope@)
                },
            ),
            final(self).roots() == old(self).roots(),
            final(self).unresolved == old(self).unresolved,
            final(self).globs() == old(self).globs().push(
                WildcardImportView { target: scope@, source: source@ },
            ),
    {
        let ghost p = scope@;
        let ghost before = self.decls;
        proof {
            if before.contains(p) {
                before.lemma_subtree_view(p);
            }
        }
        let edge = WildcardImport { target: scope.clone(), source: source.clone() };
        let node = self.decls.find_or_create(scope.parts());
        let ghost handed = *node;
        proof {
            if !before.contains(p) {
                handed.lemma_leaf_view();
            }
        }
        let b = node.get_value_mut();
        b.wildcard_alias_for.insert(source);
        proof {
            lemma_binding_placed(before@, self.decls@, p, handed@, self.decls@[p]);
        }
        self.wildcard_imports_temp.push(edge);
    }

    /// Makes sure that the module `address` and every module above it are
    /// in the table. Refused where something is bound at `address`
    /// already.
    pub fn add_mod(&mut self, address: &GlobalIdent) -> (r: Result<(), DbError>)
        requires
            old(self).wf(),
        ensures
            final(self).wf(),
            final(self).roots() == old(self).roots(),
            final(self).wildcard_imports_temp == old(self).wildcard_imports_temp,
            final(self).unresolved == old(self).unresolved,
            r is Err <==> old(self).snapshot().dom().contains(address@),
            r matches Err(e) ==> e@ == DbErrorView::DuplicateDefinition(address@) && final(self).decls == old(self).decls,
            r is Ok ==> final(self).snapshot() == with_binding(
                old(self).snapshot(),
                address@,
                empty_binding(address@),
            ),
    {
        if self.decls.find(address.parts()).is_some() {
            return Err(DbError::DuplicateDefinition(address.clone()));
        }
        let ghost p = address@;
        let ghost before = self.decls;
        let node = self.decls.find_or_create(address.parts());
        proof {
            node.lemma_leaf_view();
            let handed = node@;
            assert(handed.insert(Seq::empty(), node.value()) =~= handed);
            lemma_binding_placed(before@, self.decls@, p, handed, node.value());
        }
        Ok(())
    }

    /// Binds the declaration `item` to `address`, in the namespace that
    /// its kind belongs to. An item of a kind that introduces no name is
    /// left out, with the answer `false`. Refused where the namespace is
    /// taken at `address`.
    pub fn add_decl(&mut self, address: &GlobalIdent, item: Item) -> (r: Result<bool, DbError>)
        requires
            old(self).wf(),
        ensures
            final(self).wf(),
            final(self).roots() == old(self).roots(),
            final(self).wildcard_imports_temp == old(self).wildcard_imports_temp,
            final(self).unresolved == old(self).unresolved,
            item.kind.slot_of() is None ==> r == Ok::<bool, DbError>(false) && final(self).decls
                == old(self).decls,
            item.kind.slot_of() matches Some(slot) ==> {
                let b = binding_at(old(self).snapshot(), address@);
                if decl_in(b, slot) is Some {
                    r matches Err(e) && e@ == DbErrorView::DuplicateDefinition(address@) && final(self).decls == old(self).decls
                } else {
                    r == Ok::<bool, DbError>(true) && final(self).snapshot() == with_binding(
                        old(self).snapshot(),
                        address@,
                        with_decl(
                            b,
                            slot,
                            DeclAstView { address: address@, ast: AstView::Real(item@) },
                        ),
                    )
                }
            },
    {
        let slot = match item.kind.slot() {
            None => {
                return Ok(false);
            },
            Some(slot) => slot,
        };
        let ghost p = address@;
        let ghost before = self.decls;
        match self.decls.find_value(address.parts()) {
            Some(b) => {
                let taken = match slot {
                    Slot::Type => b.type_ast.is_some(),
                    Slot::Value => b.non_type_ast.is_some(),
                };
                if taken {
                    return Err(DbError::DuplicateDefinition(address.clone()));
                }
            },
            None => {},
        }
        proof {
            if before.contains(p) {
                before.lemma_subtree_view(p);
            }
        }
        let decl = DeclAst { address: address.clone(), ast: Ast::Real(item) };
        let node = self.decls.find_or_create(address.parts());
        let ghost handed = *node;
        proof {
            if !before.contains(p) {
                handed.lemma_leaf_view();
            }
        }
        let b = node.get_value_mut();
        match slot {
            Slot::Type => {
                b.type_ast = Some(decl);
            },
            Slot::Value => {
                b.non_type_ast = Some(decl);
            },
        }
        proof {
            lemma_binding_placed(before@, self.decls@, p, handed@, self.decls@[p]);
        }
        Ok(true)
    }

    /// Binds a stub in the type namespace to the name written as `name`,
    /// given whether `name` was found to be well formed. Refused where
    /// `name` is not well formed, and where the name is in the table
    /// already.
    pub fn add_type_stub_checked(&mut self, name: &str, well_formed: bool) -> (r: Result<
        (),
        DbError,
    >)
        requires
            old(self).wf(),
        ensures
            final(self).wf(),
            final(self).roots() == old(self).roots(),
            final(self).wildcard_imports_temp == old(self).wildcard_imports_temp,
            final(self).unresolved == old(self).unresolved,
            !well_formed ==> (r matches Err(e) && e@ == DbErrorView::MalformedPath(name@)) && final(self).decls == old(self).decls,
            well_formed && old(self).snapshot().dom().contains(split_qualified(name@)) ==> (
            r matches Err(e) && e@ == DbErrorView::DuplicateDefinition(split_qualified(name@)))
                && final(self).decls == old(self).decls,
            well_formed && !old(self).snapshot().dom().contains(split_qualified(name@)) ==> r is Ok
                && final(self).snapshot() == with_binding(
                old(self).snapshot(),
                split_qualified(name@),
                BindingView {
                    type_ast: Some(
                        DeclAstView { address: split_qualified(name@), ast: AstView::Stub },
                    ),
                    ..empty_binding(split_qualified(name@))
                },
            ),
    {
        if !well_formed {
            return Err(DbError::MalformedPath(name.to_owned()));
        }
        let address = GlobalIdent::from_qualified_name(name);
        if self.decls.find(address.parts()).is_some() {
            return Err(DbError::DuplicateDefinition(address));
        }
        let ghost p = address@;
        let ghost before = self.decls;
        let path = address.to_parts();
        let stub = Binding::new_type_stub(address);
        self.decls.put(path.as_slice(), stub);
        proof {
            let after = self.decls@;
            let lhs = snapshot_of(after);
            let rhs = with_binding(snapshot_of(before@), p, stub@);
            assert forall|q: Seq<Seq<char>>| #[trigger]
                lhs.dom().contains(q) == rhs.dom().contains(q) && (lhs.dom().contains(q) ==> lhs[q]
                    == rhs[q]) by {
                if after.dom().contains(q) {
                }
            }
        }
        Ok(())
    }

    /// Binds a stub in the type namespace to the name written as `name`:
    /// a declaration that stands for a type declared outside the table.
    /// Refused where `name` is not plain or `syn` does not read it as a
    /// path, and where the name is in the table already.
    pub fn add_type_stub(&mut self, name: &str) -> (r: Result<(), DbError>)
        requires
            old(self).wf(),
        ensures
            final(self).wf(),
            final(self).roots() == old(self).roots(),
            final(self).wildcard_imports_temp == old(self).wildcard_imports_temp,
            final(self).unresolved == old(self).unresolved,
            !well_formed_name(name@) ==> (r matches Err(e) && e@ == DbErrorView::MalformedPath(
                name@,
            )) && final(self).decls == old(self).decls,
            well_formed_name(name@) && old(self).snapshot().dom().contains(split_qualified(name@))
                ==> (r matches Err(e) && e@ == DbErrorView::DuplicateDefinition(
                split_qualified(name@),
            )) && final(self).decls == old(self).decls,
            well_formed_name(name@) && !old(self).snapshot().dom().contains(split_qualified(name@))
                ==> r is Ok && final(self).snapshot() == with_binding(
                old(self).snapshot(),
                split_qualified(name@),
                BindingView {
                    type_ast: Some(
                        DeclAstView { address: split_qualified(name@), ast: AstView::Stub },
                    ),
                    ..empty_binding(split_qualified(name@))
                },
            ),
    {
        let well_formed = is_plain_text(name) && parses_as_path(name);
        self.add_type_stub_checked(name, well_formed)
    }

    /// Binds the declaration `item`, named `name` and written in the module
    /// `mod_stack`, to its address. What is named like a module of tests is
    /// left out, with the answer `false`, and so is an item of a kind that
    /// introduces no name.
    pub fn add_item(&mut self, mod_stack: &[String], name: &str, item: Item) -> (r: Result<
        bool,
        DbError,
    >)
        requires
            old(self).wf(),
        ensures
            final(self).wf(),
            final(self).roots() == old(self).roots(),
            final(self).wildcard_imports_temp == old(self).wildcard_imports_temp,
            final(self).unresolved == old(self).unresolved,
            name@ == "test"@ || name@ == "tests"@ || item.kind.slot_of() is None ==> r == Ok::<
                bool,
                DbError,
            >(false) && final(self).decls == old(self).decls,
            name@ != "test"@ && name@ != "tests"@ && item.kind.slot_of() is Some ==> {
                let address = string_views(mod_stack@).push(name@);
                let slot = item.kind.slot_of()->0;
                let b = binding_at(old(self).snapshot(), address);
                if decl_in(b, slot) is Some {
                    r matches Err(e) && e@ == DbErrorView::DuplicateDefinition(address) && final(self).decls == old(self).decls
                } else {
                    r == Ok::<bool, DbError>(true) && final(self).snapshot() == with_binding(
                        old(self).snapshot(),
                        address,
                        with_decl(b, slot, DeclAstView { address, ast: AstView::Real(item@) }),
                    )
                }
            },
    {
        if names_test_module(name) {
            return Ok(false);
        }
        let address = GlobalIdent::from_path_and_name(mod_stack, name);
        self.add_decl(&address, item)
    }

    /// Enters the module `name` of the module `mod_stack`: the module is
    /// added to the table under its name with dashes replaced, and that
    /// name is put on the stack. Refused, with the stack left as it is,
    /// where something is bound at the module's address already.
    pub fn enter_mod(&mut self, mod_stack: &mut Vec<String>, name: &str) -> (r: Result<
        (),
        DbError,
    >)
        requires
            old(self).wf(),
        ensures
            final(self).wf(),
            final(self).roots() == old(self).roots(),
            final(self).wildcard_imports_temp == old(self).wildcard_imports_temp,
            final(self).unresolved == old(self).unresolved,
            r is Err <==> old(self).snapshot().dom().contains(
                string_views(old(mod_stack)@).push(dashes_replaced(name@)),
            ),
            r matches Err(e) ==> e@ == DbErrorView::DuplicateDefinition(
                string_views(old(mod_stack)@).push(dashes_replaced(name@)),
            ) && final(self).decls == old(self).decls && final(mod_stack)@ == old(mod_stack)@,
            r is Ok ==> string_views(final(mod_stack)@) == string_views(old(mod_stack)@).push(
                dashes_replaced(name@),
            ) && final(self).snapshot() == with_binding(
                old(self).snapshot(),
                string_views(final(mod_stack)@),
                empty_binding(string_views(final(mod_stack)@)),
            ),
    {
        let plain = module_name(name);
        let address = GlobalIdent::from_path_and_name(mod_stack.as_slice(), plain.as_str());
        match self.add_mod(&address) {
            Err(e) => Err(e),
            Ok(()) => {
                let ghost before = mod_stack@;
                mod_stack.push(plain);
                assert(string_views(mod_stack@) =~= string_views(before).push(
                    dashes_replaced(name@),
                ));
                Ok(())
            },
        }
    }

    /// Forgets the list of glob imports recorded so far. The imports stay
    /// on the scopes that made them, where lookups read them.
    pub fn bake_wildcards(&mut self)
        ensures
            final(self).wildcard_imports_temp@.len() == 0,
            final(self).decls == old(self).decls,
            final(self).opaque_roots == old(self).opaque_roots,
            final(self).unresolved == old(self).unresolved,
    {
        self.wildcard_imports_temp.clear();
    }

    /// Registers `name` as the first segment of names that lead out of
    /// the table.
    pub fn register_opaque_root(&mut self, name: &str)
        ensures
            final(self).roots() == old(self).roots().insert(name@),
            final(self).decls == old(self).decls,
            final(self).wildcard_imports_temp == old(self).wildcard_imports_temp,
            final(self).unresolved == old(self).unresolved,
    {
        let ghost before = key_views(self.opaque_roots@);
        self.opaque_roots.push(IdentPart::from_name(name));
        proof {
            let after = key_views(self.opaque_roots@);
            assert(after =~= before.push(name@));
            assert forall|x: Seq<char>| after.contains(x) <==> before.contains(x) || x == name@ by {
                if before.contains(x) {
                    let j = choose|j: int| 0 <= j < before.len() && before[j] == x;
                    assert(after[j] == x);
                }
                if x == name@ {
                    assert(after[before.len() as int] == x);
                }
            }
        }
    }
}

} // verus!
