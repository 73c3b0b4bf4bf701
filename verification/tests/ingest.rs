use syg::global_ident::GlobalIdent;
use syg::ingest::{is_plain_text, names_test_module};
use syg::item::{Ast, Item, ItemKind, PathRef, PathResolution};
use syg::model::{Binding, BindingResolution, Database, DbError, Decl, ImportKind};

fn g(name: &str) -> GlobalIdent {
    GlobalIdent::from_qualified_name(name)
}

fn plain(kind: ItemKind) -> Item {
    Item { kind, paths: Vec::new() }
}

fn binding<'a>(db: &'a Database, name: &str) -> &'a Binding {
    db.decls.find_value(&g(name).to_parts()).expect(name)
}

fn addresses(db: &Database) -> Vec<String> {
    db.decls.entries().iter().map(|(p, _)| GlobalIdent::from_ident_path(p).to_string()).collect()
}

#[test]
fn an_empty_table_holds_its_root_only() {
    let db = Database::default();
    assert!(addresses(&db).is_empty());
    let root = db.decls.get_value();
    assert_eq!(root.address, GlobalIdent::root());
    assert!(root.type_ast.is_none());
    assert!(root.non_type_ast.is_none());
    assert!(root.alias_for.is_empty());
    assert!(root.wildcard_alias_for.is_empty());
    assert_eq!(root.resolution, BindingResolution::NotAttempted);
    assert!(db.wildcard_imports_temp.is_empty());
    assert_eq!(db.unresolved.len(), 0);
}

#[test]
fn bindings_start_with_what_they_are_given() {
    let empty = Binding::new_empty(g("a::b"));
    assert_eq!(empty.address, g("a::b"));
    assert!(empty.type_ast.is_none() && empty.non_type_ast.is_none());
    let typed = Binding::new_type_ast(g("a::S"), plain(ItemKind::Struct));
    let decl = typed.type_ast.as_ref().unwrap();
    assert_eq!(decl.address, g("a::S"));
    assert_eq!(decl.ast.as_ref(), Some(&plain(ItemKind::Struct)));
    assert!(typed.non_type_ast.is_none());
    let valued = Binding::new_non_type_ast(g("a::f"), plain(ItemKind::Fn));
    assert_eq!(valued.non_type_ast.as_ref().unwrap().address, g("a::f"));
    assert!(valued.type_ast.is_none());
    let stub = Binding::new_type_stub(g("u8"));
    assert_eq!(stub.type_ast.as_ref().unwrap().ast, Ast::Stub);
    assert_eq!(stub.type_ast.as_ref().unwrap().ast.as_ref(), None);
    assert_eq!(Ast::default(), Ast::Stub);
    assert_eq!(Ast::Real(plain(ItemKind::Fn)).into_item(), Some(plain(ItemKind::Fn)));
    assert_eq!(Ast::Stub.into_item(), None);
    assert!(matches!(Decl::default(), Decl::Nothing));
}

#[test]
fn a_stub_materializes_its_ancestors() {
    let mut db = Database::default();
    assert_eq!(db.add_type_stub("std::io::Error"), Ok(()));
    assert_eq!(addresses(&db), vec!["std", "std::io", "std::io::Error"]);
    let stub = binding(&db, "std::io::Error");
    assert_eq!(stub.address, g("std::io::Error"));
    let decl = stub.type_ast.as_ref().unwrap();
    assert_eq!(decl.address, g("std::io::Error"));
    assert_eq!(decl.ast, Ast::Stub);
    assert!(stub.non_type_ast.is_none());
    let ancestor = binding(&db, "std::io");
    assert_eq!(ancestor.address, g("std::io"));
    assert!(ancestor.type_ast.is_none());
    assert_eq!(db.add_type_stub("usize"), Ok(()));
    assert_eq!(addresses(&db), vec!["std", "std::io", "std::io::Error", "usize"]);
}

#[test]
fn a_stub_is_refused_twice() {
    let mut db = Database::default();
    db.add_type_stub("std::rc::Rc").unwrap();
    assert_eq!(db.add_type_stub("std::rc::Rc"), Err(DbError::DuplicateDefinition(g("std::rc::Rc"))));
    assert_eq!(db.add_type_stub("std::rc"), Err(DbError::DuplicateDefinition(g("std::rc"))));
    assert_eq!(addresses(&db), vec!["std", "std::rc", "std::rc::Rc"]);
}

#[test]
fn a_malformed_name_is_refused_by_the_parser() {
    let mut db = Database::default();
    for name in ["", "not a path", "a::", "1abc", "a::<", "a-b", "a::::b"] {
        assert_eq!(db.add_type_stub(name), Err(DbError::MalformedPath(name.to_string())), "{name:?}");
    }
    assert!(addresses(&db).is_empty());
}

#[test]
fn the_checked_form_goes_by_the_flag_it_is_given() {
    let mut db = Database::default();
    assert_eq!(
        db.add_type_stub_checked("a::B", false),
        Err(DbError::MalformedPath("a::B".to_string()))
    );
    assert!(addresses(&db).is_empty());
    assert_eq!(db.add_type_stub_checked("a::B", true), Ok(()));
    assert_eq!(addresses(&db), vec!["a", "a::B"]);
    assert_eq!(db.add_type_stub_checked("", true), Err(DbError::DuplicateDefinition(GlobalIdent::root())));
}

#[test]
fn declarations_go_to_their_namespace() {
    let mut db = Database::default();
    assert_eq!(db.add_decl(&g("m::Thing"), plain(ItemKind::Struct)), Ok(true));
    assert_eq!(db.add_decl(&g("m::Thing"), plain(ItemKind::Fn)), Ok(true));
    let b = binding(&db, "m::Thing");
    assert_eq!(b.type_ast.as_ref().unwrap().ast, Ast::Real(plain(ItemKind::Struct)));
    assert_eq!(b.type_ast.as_ref().unwrap().address, g("m::Thing"));
    assert_eq!(b.non_type_ast.as_ref().unwrap().ast, Ast::Real(plain(ItemKind::Fn)));
    assert_eq!(addresses(&db), vec!["m", "m::Thing"]);
}

#[test]
fn a_second_declaration_in_a_namespace_is_refused() {
    let mut db = Database::default();
    db.add_decl(&g("m::Thing"), plain(ItemKind::Struct)).unwrap();
    assert_eq!(
        db.add_decl(&g("m::Thing"), plain(ItemKind::Enum)),
        Err(DbError::DuplicateDefinition(g("m::Thing")))
    );
    assert_eq!(
        db.add_decl(&g("m::Thing"), plain(ItemKind::Trait)),
        Err(DbError::DuplicateDefinition(g("m::Thing")))
    );
    assert_eq!(binding(&db, "m::Thing").type_ast.as_ref().unwrap().ast, Ast::Real(plain(ItemKind::Struct)));
    db.add_decl(&g("m::run"), plain(ItemKind::Const)).unwrap();
    assert_eq!(
        db.add_decl(&g("m::run"), plain(ItemKind::Static)),
        Err(DbError::DuplicateDefinition(g("m::run")))
    );
    db.add_type_stub("m::Ext").unwrap();
    assert_eq!(
        db.add_decl(&g("m::Ext"), plain(ItemKind::Union)),
        Err(DbError::DuplicateDefinition(g("m::Ext")))
    );
}

#[test]
fn items_that_introduce_no_name_are_left_out() {
    let mut db = Database::default();
    for kind in [
        ItemKind::Impl,
        ItemKind::ForeignMod,
        ItemKind::Macro,
        ItemKind::Use,
        ItemKind::Mod,
        ItemKind::ExternCrate,
    ] {
        assert_eq!(db.add_decl(&g("m::x"), plain(kind)), Ok(false));
    }
    assert!(addresses(&db).is_empty());
}

#[test]
fn modules_are_added_once() {
    let mut db = Database::default();
    assert_eq!(db.add_mod(&g("k::inner")), Ok(()));
    assert_eq!(addresses(&db), vec!["k", "k::inner"]);
    assert_eq!(binding(&db, "k::inner").address, g("k::inner"));
    assert_eq!(db.add_mod(&g("k::inner")), Err(DbError::DuplicateDefinition(g("k::inner"))));
    assert_eq!(db.add_mod(&g("k")), Err(DbError::DuplicateDefinition(g("k"))));
    assert_eq!(db.add_mod(&GlobalIdent::root()), Err(DbError::DuplicateDefinition(GlobalIdent::root())));
    assert_eq!(addresses(&db), vec!["k", "k::inner"]);
}

#[test]
fn aliases_keep_the_order_of_their_imports() {
    let mut db = Database::default();
    db.add_alias(&g("b::T"), g("z::S"), ImportKind::Normal);
    db.add_alias(&g("b::T"), g("a::S"), ImportKind::Wildcard);
    db.add_alias(&g("b::T"), g("z::S"), ImportKind::Normal);
    let b = binding(&db, "b::T");
    assert_eq!(
        b.alias_for,
        vec![
            (g("z::S"), ImportKind::Normal),
            (g("a::S"), ImportKind::Wildcard),
            (g("z::S"), ImportKind::Normal)
        ]
    );
    assert_eq!(b.address, g("b::T"));
    assert_eq!(addresses(&db), vec!["b", "b::T"]);
}

#[test]
fn glob_imports_are_a_set_on_the_importing_scope() {
    let mut db = Database::default();
    db.add_wildcard(&g("c"), g("z"));
    db.add_wildcard(&g("c"), g("a::inner"));
    db.add_wildcard(&g("c"), g("z"));
    let sources: Vec<String> =
        binding(&db, "c").wildcard_alias_for.as_slice().iter().map(|s| s.to_string()).collect();
    assert_eq!(sources, vec!["a::inner", "z"]);
    assert_eq!(db.wildcard_imports_temp.len(), 3);
    assert_eq!(db.wildcard_imports_temp[1].target, g("c"));
    assert_eq!(db.wildcard_imports_temp[1].source, g("a::inner"));
    assert_eq!(addresses(&db), vec!["c"]);
    db.bake_wildcards();
    assert!(db.wildcard_imports_temp.is_empty());
    assert_eq!(binding(&db, "c").wildcard_alias_for.len(), 2);
}

#[test]
fn test_modules_are_named_test_or_tests() {
    assert!(names_test_module("test"));
    assert!(names_test_module("tests"));
    assert!(!names_test_module("testing"));
    assert!(!names_test_module("Test"));
    assert!(!names_test_module(""));
}

#[test]
fn references_start_unresolved() {
    let r = PathRef::new(vec!["a".to_string(), "B".to_string()]);
    assert_eq!(r.segments, vec!["a".to_string(), "B".to_string()]);
    assert_eq!(r.resolution, PathResolution::NotAttempted);
    assert_eq!(r.clone(), r);
}

#[test]
fn only_plain_names_are_handed_to_the_parser() {
    assert!(is_plain_text("std::vec::Vec"));
    assert!(is_plain_text("a_1::B2::été"));
    assert!(is_plain_text(""));
    for name in ["Vec<T>", "a b", "a::(b)", "&a", "a-b", "a::b!", "[a]", "a\tb", "a.b", "'a"] {
        assert!(!is_plain_text(name), "{name:?}");
    }
    let mut db = Database::default();
    assert_eq!(db.add_type_stub("Vec<T>"), Err(DbError::MalformedPath("Vec<T>".to_string())));
    assert_eq!(db.add_type_stub("a :: b"), Err(DbError::MalformedPath("a :: b".to_string())));
    assert_eq!(db.add_type_stub("::a::été"), Ok(()));
    assert_eq!(db.add_type_stub("r2::d2"), Ok(()));
    assert_eq!(db.add_type_stub("fn"), Err(DbError::MalformedPath("fn".to_string())));
    assert_eq!(db.add_type_stub("a::2b"), Err(DbError::MalformedPath("a::2b".to_string())));
    assert_eq!(db.add_type_stub("a:b"), Err(DbError::MalformedPath("a:b".to_string())));
}

#[test]
fn deeply_nested_names_are_refused_unread() {
    let mut db = Database::default();
    for depth in [10usize, 1000, 100_000] {
        let generic = format!("{}a{}", "a<".repeat(depth), ">".repeat(depth));
        assert_eq!(db.add_type_stub(&generic), Err(DbError::MalformedPath(generic.clone())));
        let tuples = format!("a<{}{}>", "(".repeat(depth), ")".repeat(depth));
        assert_eq!(db.add_type_stub(&tuples), Err(DbError::MalformedPath(tuples.clone())));
        let refs = format!("a<{}u8>", "&".repeat(depth));
        assert_eq!(db.add_type_stub(&refs), Err(DbError::MalformedPath(refs.clone())));
    }
    assert!(addresses(&db).is_empty());
}

#[test]
fn long_plain_names_are_read() {
    let mut db = Database::default();
    let long = vec!["seg"; 300].join("::");
    assert_eq!(db.add_type_stub(&long), Ok(()));
    assert_eq!(addresses(&db).len(), 300);
    let wide = "x".repeat(50_000);
    assert_eq!(db.add_type_stub(&wide), Ok(()));
    let colons = ":".repeat(10_001);
    assert_eq!(db.add_type_stub(&colons), Err(DbError::MalformedPath(colons.clone())));
}

#[test]
fn items_are_added_under_their_module() {
    let mut db = Database::default();
    let mods = vec!["k".to_string(), "m".to_string()];
    assert_eq!(db.add_item(&mods, "Thing", plain(ItemKind::Struct)), Ok(true));
    assert_eq!(db.add_item(&mods, "tests", plain(ItemKind::Struct)), Ok(false));
    assert_eq!(db.add_item(&mods, "test", plain(ItemKind::Fn)), Ok(false));
    assert_eq!(db.add_item(&mods, "helper", plain(ItemKind::Impl)), Ok(false));
    assert_eq!(db.add_item(&mods, "inner", plain(ItemKind::Mod)), Ok(false));
    assert_eq!(
        db.add_item(&mods, "Thing", plain(ItemKind::Enum)),
        Err(DbError::DuplicateDefinition(g("k::m::Thing")))
    );
    assert_eq!(db.add_item(&[], "top", plain(ItemKind::Const)), Ok(true));
    assert_eq!(addresses(&db), vec!["k", "k::m", "k::m::Thing", "top"]);
    assert!(binding(&db, "top").non_type_ast.is_some());
}

#[test]
fn entering_a_module_puts_it_on_the_stack() {
    let mut db = Database::default();
    let mut mods: Vec<String> = Vec::new();
    assert_eq!(db.enter_mod(&mut mods, "fyrox-core"), Ok(()));
    assert_eq!(mods, vec!["fyrox_core".to_string()]);
    assert_eq!(db.enter_mod(&mut mods, "pool"), Ok(()));
    assert_eq!(mods, vec!["fyrox_core".to_string(), "pool".to_string()]);
    assert_eq!(addresses(&db), vec!["fyrox_core", "fyrox_core::pool"]);
    mods.pop();
    assert_eq!(
        db.enter_mod(&mut mods, "pool"),
        Err(DbError::DuplicateDefinition(g("fyrox_core::pool")))
    );
    assert_eq!(mods, vec!["fyrox_core".to_string()]);
}

#[test]
fn an_alias_keeps_the_kind_it_is_given() {
    let mut db = Database::default();
    db.add_alias(&g("b::T"), g("a::S"), ImportKind::Wildcard);
    db.add_alias(&g("b::T"), g("a::R"), ImportKind::Normal);
    assert_eq!(
        binding(&db, "b::T").alias_for,
        vec![(g("a::S"), ImportKind::Wildcard), (g("a::R"), ImportKind::Normal)]
    );
    assert!(db.wildcard_imports_temp.is_empty());
}
