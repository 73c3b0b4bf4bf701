use syg::global_ident::GlobalIdent;
use syg::item::{Ast, Item, ItemKind, PathRef, PathResolution};
use syg::model::{Binding, BindingResolution, Database, DbError, ImportKind};
use syg::resolve_idents::{commit_binding, Resolved};

fn g(name: &str) -> GlobalIdent {
    GlobalIdent::from_qualified_name(name)
}

fn reference(name: &str) -> PathRef {
    PathRef::new(name.split("::").map(|s| s.to_string()).collect())
}

fn item(kind: ItemKind, refs: &[&str]) -> Item {
    Item { kind, paths: refs.iter().map(|r| reference(r)).collect() }
}

fn binding<'a>(db: &'a Database, name: &str) -> &'a Binding {
    db.decls.find_value(&g(name).to_parts()).expect(name)
}

fn type_sites(db: &Database, name: &str) -> Vec<PathResolution> {
    match &binding(db, name).type_ast.as_ref().unwrap().ast {
        Ast::Real(item) => item.paths.iter().map(|p| p.resolution.clone()).collect(),
        Ast::Stub => panic!("stub"),
    }
}

fn value_sites(db: &Database, name: &str) -> Vec<PathResolution> {
    match &binding(db, name).non_type_ast.as_ref().unwrap().ast {
        Ast::Real(item) => item.paths.iter().map(|p| p.resolution.clone()).collect(),
        Ast::Stub => panic!("stub"),
    }
}

fn names(set: &syg::ident_set::IdentSet) -> Vec<String> {
    set.as_slice().iter().map(|x| x.to_string()).collect()
}

#[test]
fn a_renamed_import_resolves_to_the_imported_declaration() {
    let mut db = Database::default();
    db.add_mod(&g("a")).unwrap();
    db.add_decl(&g("a::S"), item(ItemKind::Struct, &[])).unwrap();
    db.add_mod(&g("b")).unwrap();
    db.add_alias(&g("b::T"), g("a::S"), ImportKind::Normal);
    db.add_decl(&g("b::f"), item(ItemKind::Fn, &["T"])).unwrap();
    assert_eq!(db.compile(), Ok(()));
    assert_eq!(value_sites(&db, "b::f"), vec![PathResolution::Resolved(g("a::S"))]);
    assert_eq!(binding(&db, "b::f").resolution, BindingResolution::Fully);
    assert_eq!(binding(&db, "a::S").resolution, BindingResolution::NotAttempted);
    assert_eq!(db.unresolved.len(), 0);
}

#[test]
fn a_glob_import_resolves_a_bare_name() {
    let mut db = Database::default();
    db.add_mod(&g("a")).unwrap();
    db.add_decl(&g("a::S"), item(ItemKind::Struct, &[])).unwrap();
    db.add_mod(&g("c")).unwrap();
    db.add_wildcard(&g("c"), g("a"));
    db.add_decl(&g("c::g"), item(ItemKind::Fn, &["S"])).unwrap();
    assert_eq!(db.compile(), Ok(()));
    assert_eq!(value_sites(&db, "c::g"), vec![PathResolution::Resolved(g("a::S"))]);
    assert_eq!(binding(&db, "c::g").resolution, BindingResolution::Fully);
}

#[test]
fn a_declaration_that_names_itself_resolves_fully() {
    let mut db = Database::default();
    db.add_decl(&g("m::Node"), item(ItemKind::Struct, &["Node"])).unwrap();
    db.add_decl(&g("m::List"), item(ItemKind::Struct, &["m::List"])).unwrap();
    assert_eq!(db.compile(), Ok(()));
    assert_eq!(type_sites(&db, "m::Node"), vec![PathResolution::SelfResolved(g("m::Node"))]);
    assert_eq!(binding(&db, "m::Node").resolution, BindingResolution::Fully);
    assert_eq!(type_sites(&db, "m::List"), vec![PathResolution::SelfResolved(g("m::List"))]);
    assert_eq!(binding(&db, "m::List").resolution, BindingResolution::Fully);
}

#[test]
fn the_own_type_placeholder_is_left_alone() {
    let mut db = Database::default();
    db.add_decl(&g("m::T"), item(ItemKind::Trait, &["Self"])).unwrap();
    db.add_decl(&g("m::U"), item(ItemKind::Trait, &["Self", "T"])).unwrap();
    assert_eq!(db.compile(), Ok(()));
    assert_eq!(type_sites(&db, "m::T"), vec![PathResolution::NotAttempted]);
    assert_eq!(binding(&db, "m::T").resolution, BindingResolution::NotAttempted);
    assert_eq!(
        type_sites(&db, "m::U"),
        vec![PathResolution::NotAttempted, PathResolution::Resolved(g("m::T"))]
    );
    assert_eq!(binding(&db, "m::U").resolution, BindingResolution::Fully);
}

#[test]
fn names_are_tried_in_the_scope_first_and_then_as_written() {
    let mut db = Database::default();
    db.add_decl(&g("S"), item(ItemKind::Struct, &[])).unwrap();
    db.add_decl(&g("m::S"), item(ItemKind::Struct, &[])).unwrap();
    db.add_decl(&g("k::Only"), item(ItemKind::Struct, &[])).unwrap();
    db.add_decl(&g("m::f"), item(ItemKind::Fn, &["S", "k::Only", "m::S"])).unwrap();
    db.add_decl(&g("n::f"), item(ItemKind::Fn, &["S"])).unwrap();
    assert_eq!(db.compile(), Ok(()));
    assert_eq!(
        value_sites(&db, "m::f"),
        vec![
            PathResolution::Resolved(g("m::S")),
            PathResolution::Resolved(g("k::Only")),
            PathResolution::Resolved(g("m::S")),
        ]
    );
    assert_eq!(value_sites(&db, "n::f"), vec![PathResolution::Resolved(g("S"))]);
}

#[test]
fn declarations_that_name_each_other_resolve_from_one_snapshot() {
    let build = |first_a: bool| {
        let mut db = Database::default();
        let a = item(ItemKind::Struct, &["B", "Missing"]);
        let b = item(ItemKind::Struct, &["A", "Gone"]);
        if first_a {
            db.add_decl(&g("m::A"), a).unwrap();
            db.add_decl(&g("m::B"), b).unwrap();
        } else {
            db.add_decl(&g("m::B"), b).unwrap();
            db.add_decl(&g("m::A"), a).unwrap();
        }
        assert_eq!(db.compile(), Ok(()));
        db
    };
    let one = build(true);
    let other = build(false);
    for db in [&one, &other] {
        assert_eq!(
            type_sites(db, "m::A"),
            vec![PathResolution::Resolved(g("m::B")), PathResolution::Failed]
        );
        assert_eq!(
            type_sites(db, "m::B"),
            vec![PathResolution::Resolved(g("m::A")), PathResolution::Failed]
        );
        assert_eq!(binding(db, "m::A").resolution, BindingResolution::Failed);
        assert_eq!(binding(db, "m::B").resolution, BindingResolution::Failed);
    }
    assert_eq!(one.unresolved.keys(), other.unresolved.keys());
    let keys: Vec<String> = one.unresolved.keys().iter().map(|k| k.to_string()).collect();
    assert_eq!(keys, vec!["Gone", "Missing"]);
}

#[test]
fn unresolved_names_go_on_record() {
    let mut db = Database::default();
    db.add_decl(&g("m::f"), item(ItemKind::Fn, &["Zed", "deep::Zed"])).unwrap();
    db.add_decl(&g("n::inner::h"), item(ItemKind::Fn, &["Zed"])).unwrap();
    db.add_decl(&g("n::inner::T"), item(ItemKind::Type, &["Zed"])).unwrap();
    assert_eq!(db.compile(), Ok(()));
    assert_eq!(value_sites(&db, "m::f"), vec![PathResolution::Failed, PathResolution::Failed]);
    assert_eq!(binding(&db, "m::f").resolution, BindingResolution::Failed);
    let keys: Vec<String> = db.unresolved.keys().iter().map(|k| k.to_string()).collect();
    assert_eq!(keys, vec!["Zed", "deep::Zed"]);
    let zed = db.unresolved.get(&g("Zed")).unwrap();
    assert_eq!(names(&zed.scopes), vec!["m", "n::inner"]);
    assert_eq!(names(&zed.requestors), vec!["m::f", "n::inner::T", "n::inner::h"]);
    let deep = db.unresolved.get(&g("deep::Zed")).unwrap();
    assert_eq!(names(&deep.scopes), vec!["m"]);
    assert_eq!(names(&deep.requestors), vec!["m::f"]);
}

#[test]
fn a_partial_resolution_is_recorded_under_its_address() {
    let mut db = Database::default();
    db.add_alias(&g("m::T"), g("gone::S"), ImportKind::Normal);
    db.add_decl(&g("m::f"), item(ItemKind::Fn, &["T"])).unwrap();
    assert_eq!(db.compile(), Ok(()));
    assert_eq!(value_sites(&db, "m::f"), vec![PathResolution::PartiallyResolved(g("gone::S"))]);
    assert_eq!(binding(&db, "m::f").resolution, BindingResolution::Partially);
    let ctx = db.unresolved.get(&g("gone::S")).unwrap();
    assert_eq!(names(&ctx.scopes), vec!["m"]);
    assert_eq!(names(&ctx.requestors), vec!["m::f"]);
    assert_eq!(db.unresolved.len(), 1);
}

#[test]
fn the_verdict_is_the_worst_of_the_references() {
    let mut db = Database::default();
    db.add_decl(&g("m::S"), item(ItemKind::Struct, &[])).unwrap();
    db.add_alias(&g("m::T"), g("gone::S"), ImportKind::Normal);
    db.add_decl(&g("m::full"), item(ItemKind::Fn, &["S", "S"])).unwrap();
    db.add_decl(&g("m::part"), item(ItemKind::Fn, &["S", "T", "S"])).unwrap();
    db.add_decl(&g("m::fail"), item(ItemKind::Fn, &["T", "Nope", "S"])).unwrap();
    db.add_decl(&g("m::none"), item(ItemKind::Fn, &[])).unwrap();
    assert_eq!(db.compile(), Ok(()));
    assert_eq!(binding(&db, "m::full").resolution, BindingResolution::Fully);
    assert_eq!(binding(&db, "m::part").resolution, BindingResolution::Partially);
    assert_eq!(binding(&db, "m::fail").resolution, BindingResolution::Failed);
    assert_eq!(binding(&db, "m::none").resolution, BindingResolution::NotAttempted);
    assert_eq!(binding(&db, "m::S").resolution, BindingResolution::NotAttempted);
}

#[test]
fn both_namespaces_of_a_name_count_for_its_verdict() {
    let mut db = Database::default();
    db.add_decl(&g("m::S"), item(ItemKind::Struct, &[])).unwrap();
    db.add_decl(&g("m::x"), item(ItemKind::Struct, &["S"])).unwrap();
    db.add_decl(&g("m::x"), item(ItemKind::Fn, &["Nope"])).unwrap();
    assert_eq!(db.compile(), Ok(()));
    assert_eq!(type_sites(&db, "m::x"), vec![PathResolution::Resolved(g("m::S"))]);
    assert_eq!(value_sites(&db, "m::x"), vec![PathResolution::Failed]);
    assert_eq!(binding(&db, "m::x").resolution, BindingResolution::Failed);
}

#[test]
fn two_different_partial_resolutions_are_an_error() {
    let mut db = Database::default();
    db.add_alias(&g("m::T"), g("gone::S"), ImportKind::Normal);
    db.add_alias(&g("T"), g("lost::S"), ImportKind::Normal);
    db.add_decl(&g("m::f"), item(ItemKind::Fn, &["T"])).unwrap();
    assert_eq!(db.compile(), Err(DbError::AmbiguousPartialResolution(g("m::f"))));
    assert_eq!(value_sites(&db, "m::f"), vec![PathResolution::NotAttempted]);
    assert_eq!(binding(&db, "m::f").resolution, BindingResolution::NotAttempted);
}

#[test]
fn the_same_partial_resolution_twice_is_no_error() {
    let mut db = Database::default();
    db.add_alias(&g("m::T"), g("gone::S"), ImportKind::Normal);
    db.add_alias(&g("T"), g("gone::S"), ImportKind::Normal);
    db.add_decl(&g("m::f"), item(ItemKind::Fn, &["T"])).unwrap();
    assert_eq!(db.compile(), Ok(()));
    assert_eq!(value_sites(&db, "m::f"), vec![PathResolution::PartiallyResolved(g("gone::S"))]);
}

#[test]
fn an_ambiguous_import_stops_the_pass_and_changes_nothing() {
    let mut db = Database::default();
    db.add_decl(&g("a::S"), item(ItemKind::Struct, &[])).unwrap();
    db.add_decl(&g("a::ok"), item(ItemKind::Fn, &["S"])).unwrap();
    db.add_alias(&g("m::T"), g("gone::S"), ImportKind::Normal);
    db.add_alias(&g("m::T"), g("lost::S"), ImportKind::Normal);
    db.add_decl(&g("m::f"), item(ItemKind::Fn, &["T"])).unwrap();
    assert_eq!(db.compile(), Err(DbError::AmbiguousPartialResolution(g("m::T"))));
    assert_eq!(value_sites(&db, "a::ok"), vec![PathResolution::NotAttempted]);
    assert_eq!(binding(&db, "a::ok").resolution, BindingResolution::NotAttempted);
    assert_eq!(db.unresolved.len(), 0);
}

#[test]
fn stubs_and_empty_bindings_pass_through() {
    let mut db = Database::default();
    db.add_type_stub("u8").unwrap();
    db.add_mod(&g("m")).unwrap();
    db.add_decl(&g("m::f"), item(ItemKind::Fn, &["u8"])).unwrap();
    assert_eq!(db.compile(), Ok(()));
    assert_eq!(binding(&db, "u8").type_ast.as_ref().unwrap().ast, Ast::Stub);
    assert_eq!(binding(&db, "u8").resolution, BindingResolution::NotAttempted);
    assert!(binding(&db, "m").type_ast.is_none());
    assert_eq!(value_sites(&db, "m::f"), vec![PathResolution::Resolved(g("u8"))]);
}

#[test]
fn a_pass_keeps_addresses_imports_and_shape() {
    let mut db = Database::default();
    db.add_decl(&g("a::S"), item(ItemKind::Struct, &["Q"])).unwrap();
    db.add_alias(&g("b::T"), g("a::S"), ImportKind::Normal);
    db.add_wildcard(&g("b"), g("a"));
    let before: Vec<String> =
        db.decls.entries().iter().map(|(p, _)| GlobalIdent::from_ident_path(p).to_string()).collect();
    assert_eq!(db.compile(), Ok(()));
    let after: Vec<String> =
        db.decls.entries().iter().map(|(p, _)| GlobalIdent::from_ident_path(p).to_string()).collect();
    assert_eq!(before, after);
    assert_eq!(binding(&db, "b::T").alias_for, vec![(g("a::S"), ImportKind::Normal)]);
    assert_eq!(names(&binding(&db, "b").wildcard_alias_for), vec!["a"]);
    assert_eq!(binding(&db, "a::S").address, g("a::S"));
    assert_eq!(binding(&db, "a::S").type_ast.as_ref().unwrap().address, g("a::S"));
    assert_eq!(db.wildcard_imports_temp.len(), 1);
}

#[test]
fn a_second_pass_takes_new_stubs_into_account() {
    let mut db = Database::default();
    db.add_decl(&g("m::f"), item(ItemKind::Fn, &["usize"])).unwrap();
    assert_eq!(db.compile(), Ok(()));
    assert_eq!(value_sites(&db, "m::f"), vec![PathResolution::Failed]);
    assert_eq!(db.unresolved.len(), 1);
    db.add_type_stub("usize").unwrap();
    assert_eq!(db.compile(), Ok(()));
    assert_eq!(value_sites(&db, "m::f"), vec![PathResolution::Resolved(g("usize"))]);
    assert_eq!(binding(&db, "m::f").resolution, BindingResolution::Failed);
    assert_eq!(db.unresolved.len(), 0);
}

#[test]
fn commit_replaces_bodies_and_takes_in_the_verdict() {
    let mut live = Binding::new_type_ast(g("m::S"), item(ItemKind::Struct, &["A"]));
    live.alias_for.push((g("x::y"), ImportKind::Normal));
    live.resolution = BindingResolution::Fully;
    let mut resolved_item = item(ItemKind::Struct, &["A"]);
    resolved_item.paths[0].resolution = PathResolution::Resolved(g("m::A"));
    let shadow = Resolved {
        type_ast: Some(Ast::Real(resolved_item.clone())),
        non_type_ast: Some(Ast::Real(item(ItemKind::Fn, &[]))),
        resolution: BindingResolution::Partially,
    };
    let out = commit_binding(&live, Some(&shadow));
    assert_eq!(out.address, g("m::S"));
    assert_eq!(out.type_ast.as_ref().unwrap().address, g("m::S"));
    assert_eq!(out.type_ast.as_ref().unwrap().ast, Ast::Real(resolved_item));
    assert!(out.non_type_ast.is_none());
    assert_eq!(out.alias_for, vec![(g("x::y"), ImportKind::Normal)]);
    assert_eq!(out.resolution, BindingResolution::Partially);
    let untouched = commit_binding(&live, None);
    assert_eq!(untouched.type_ast, live.type_ast);
    assert_eq!(untouched.resolution, BindingResolution::Fully);
    assert_eq!(untouched.alias_for, live.alias_for);
    let nothing = commit_binding(&live, Some(&Resolved::default()));
    assert_eq!(nothing.type_ast, live.type_ast);
    assert_eq!(nothing.resolution, BindingResolution::Fully);
}

#[test]
fn open_references_are_listed_by_position() {
    let mut it = item(ItemKind::Type, &["A", "B", "C", "D", "E"]);
    it.paths[1].resolution = PathResolution::Resolved(g("m::B"));
    it.paths[2].resolution = PathResolution::Failed;
    it.paths[3].resolution = PathResolution::PartiallyResolved(g("x::D"));
    it.paths[4].resolution = PathResolution::SelfResolved(g("m::E"));
    assert_eq!(it.open_paths(), vec![0, 2]);
    assert!(item(ItemKind::Type, &[]).open_paths().is_empty());
    assert_eq!(it.clone(), it);
}
