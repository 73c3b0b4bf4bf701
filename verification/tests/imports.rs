use syg::global_ident::GlobalIdent;
use syg::imports::{collect_uses, needs_crate, ImportEdge, UseTree};
use syg::model::{Database, ImportKind};
use syg::text::{
    add_file_segment, add_rust_segment, collect_chars, get_and_inc, module_dir,
    module_file, module_file_candidates, module_name,
};

fn g(name: &str) -> GlobalIdent {
    GlobalIdent::from_qualified_name(name)
}

fn strings(parts: &[&str]) -> Vec<String> {
    parts.iter().map(|p| p.to_string()).collect()
}

fn path(segments: &[&str], leaf: UseTree) -> UseTree {
    segments.iter().rev().fold(leaf, |tree, s| UseTree::Path(s.to_string(), Box::new(tree)))
}

fn name(n: &str) -> UseTree {
    UseTree::Name(n.to_string())
}

fn alias(name: &str, target: &str) -> ImportEdge {
    ImportEdge::Alias { name: g(name), target: g(target) }
}

#[test]
fn a_plain_import_binds_the_last_name() {
    let tree = path(&["a", "b"], name("S"));
    assert_eq!(collect_uses(&tree, &strings(&["k", "m"])), vec![alias("k::m::S", "a::b::S")]);
}

#[test]
fn a_renamed_import_binds_the_new_name() {
    let tree = path(&["a"], UseTree::Rename("S".to_string(), "T".to_string()));
    assert_eq!(collect_uses(&tree, &strings(&["b"])), vec![alias("b::T", "a::S")]);
}

#[test]
fn a_glob_import_names_scope_and_source() {
    let tree = path(&["a", "inner"], UseTree::Glob);
    assert_eq!(
        collect_uses(&tree, &strings(&["k", "c"])),
        vec![ImportEdge::Wildcard { scope: g("k::c"), source: g("a::inner") }]
    );
}

#[test]
fn a_group_lists_its_imports_in_order() {
    let tree = path(
        &["a"],
        UseTree::Group(vec![
            name("X"),
            path(&["b"], UseTree::Group(vec![name("Y"), UseTree::Glob])),
            UseTree::Rename("Z".to_string(), "W".to_string()),
            UseTree::Group(vec![]),
        ]),
    );
    assert_eq!(
        collect_uses(&tree, &strings(&["k"])),
        vec![
            alias("k::X", "a::X"),
            alias("k::Y", "a::b::Y"),
            ImportEdge::Wildcard { scope: g("k"), source: g("a::b") },
            alias("k::W", "a::Z"),
        ]
    );
}

#[test]
fn crate_and_self_are_read_at_the_start_only() {
    let mods = strings(&["my_crate", "m", "n"]);
    assert_eq!(
        collect_uses(&path(&["crate", "x"], name("S")), &mods),
        vec![alias("my_crate::m::n::S", "my_crate::x::S")]
    );
    assert_eq!(
        collect_uses(&path(&["self", "x"], name("S")), &mods),
        vec![alias("my_crate::m::n::S", "my_crate::m::n::x::S")]
    );
    assert_eq!(
        collect_uses(&path(&["a", "crate", "self"], name("S")), &mods),
        vec![alias("my_crate::m::n::S", "a::crate::self::S")]
    );
    assert_eq!(collect_uses(&name("top"), &mods), vec![alias("my_crate::m::n::top", "top")]);
}

#[test]
fn imports_are_recorded_in_the_table() {
    let mut db = Database::default();
    let tree = path(
        &["a"],
        UseTree::Group(vec![UseTree::Rename("S".to_string(), "T".to_string()), UseTree::Glob]),
    );
    db.add_use(&tree, &strings(&["b"]));
    let t = db.decls.find_value(&g("b::T").to_parts()).unwrap();
    assert_eq!(t.alias_for, vec![(g("a::S"), ImportKind::Normal)]);
    let b = db.decls.find_value(&g("b").to_parts()).unwrap();
    let sources: Vec<String> = b.wildcard_alias_for.as_slice().iter().map(|s| s.to_string()).collect();
    assert_eq!(sources, vec!["a"]);
    assert_eq!(db.wildcard_imports_temp.len(), 1);
    db.add_import(&alias("b::T", "c::S"));
    let t = db.decls.find_value(&g("b::T").to_parts()).unwrap();
    assert_eq!(t.alias_for.len(), 2);
    assert_eq!(t.alias_for[1].0, g("c::S"));
}

#[test]
fn texts_are_joined_with_their_separators() {
    assert_eq!(add_file_segment("base/src", "lib.rs"), "base/src/lib.rs");
    assert_eq!(syg::text::concat("abc", "def"), "abcdef");
    assert_eq!(syg::text::concat("", ""), "");
    assert_eq!(add_rust_segment("a::b", "c"), "a::b::c");
}

#[test]
fn module_files_lie_below_the_crate_source() {
    assert_eq!(module_dir("/x/src", &strings(&["my_crate"])), "/x/src/");
    assert_eq!(module_dir("/x/src", &[]), "/x/src/");
    assert_eq!(module_dir("/x/src", &strings(&["my_crate", "a", "b"])), "/x/src/a/b/");
    assert_eq!(
        module_file_candidates("/x/src/a/", "m"),
        ("/x/src/a/m/mod.rs".to_string(), "/x/src/a/m.rs".to_string())
    );
}

#[test]
fn a_module_lies_in_the_first_file_that_fits() {
    let dir = "d/m/mod.rs".to_string();
    let file = "d/m.rs".to_string();
    assert_eq!(module_file(Some("d/x.rs".to_string()), true, dir.clone(), file.clone()), "d/x.rs");
    assert_eq!(module_file(Some("d/x.rs".to_string()), false, dir.clone(), file.clone()), "d/x.rs");
    assert_eq!(module_file(None, true, dir.clone(), file.clone()), "d/m/mod.rs");
    assert_eq!(module_file(None, false, dir, file), "d/m.rs");
}

#[test]
fn counters_hand_out_numbers_in_turn() {
    let mut counter = 5usize;
    assert_eq!(get_and_inc(&mut counter), 5);
    assert_eq!(get_and_inc(&mut counter), 6);
    assert_eq!(counter, 7);
}

#[test]
fn module_names_have_no_dashes() {
    assert_eq!(module_name("fyrox-core"), "fyrox_core");
    assert_eq!(module_name("a--b-"), "a__b_");
    assert_eq!(module_name("-"), "_");
    assert_eq!(module_name("plain_name"), "plain_name");
    assert_eq!(module_name(""), "");
    assert_eq!(module_name("é-日本"), "é_日本");
    assert_eq!(collect_chars("aé-"), vec!['a', 'é', '-']);
}

#[test]
fn imports_without_a_module_go_to_the_root() {
    let none: Vec<String> = Vec::new();
    assert_eq!(collect_uses(&path(&["a"], name("S")), &none), vec![alias("S", "a::S")]);
    assert_eq!(
        collect_uses(&path(&["a"], UseTree::Glob), &none),
        vec![ImportEdge::Wildcard { scope: GlobalIdent::root(), source: g("a") }]
    );
    assert_eq!(collect_uses(&path(&["self", "a"], name("S")), &none), vec![alias("S", "a::S")]);
    let mut db = Database::default();
    db.add_use(&path(&["a"], UseTree::Rename("S".to_string(), "T".to_string())), &none);
    assert_eq!(
        db.decls.find_value(&g("T").to_parts()).unwrap().alias_for,
        vec![(g("a::S"), ImportKind::Normal)]
    );
}

#[test]
fn only_imports_from_the_crate_need_a_module() {
    assert!(needs_crate(&path(&["crate", "x"], name("S"))));
    assert!(needs_crate(&path(&["self", "self", "crate"], UseTree::Glob)));
    assert!(needs_crate(&UseTree::Group(vec![name("a"), path(&["crate"], name("b"))])));
    assert!(needs_crate(&path(&["self"], UseTree::Group(vec![path(&["crate"], name("b"))]))));
    assert!(!needs_crate(&path(&["a", "crate"], name("S"))));
    assert!(!needs_crate(&path(&["self", "a"], name("S"))));
    assert!(!needs_crate(&name("crate")));
    assert!(!needs_crate(&UseTree::Glob));
    assert!(!needs_crate(&UseTree::Group(vec![])));
}

#[test]
fn imports_of_names_are_of_the_normal_kind_and_globs_are_listed() {
    let mut db = Database::default();
    let tree = path(
        &["a"],
        UseTree::Group(vec![name("X"), UseTree::Glob, path(&["b"], UseTree::Glob), name("Y")]),
    );
    db.add_use(&tree, &strings(&["k"]));
    for n in ["k::X", "k::Y"] {
        let b = db.decls.find_value(&g(n).to_parts()).unwrap();
        assert_eq!(b.alias_for.len(), 1);
        assert_eq!(b.alias_for[0].1, ImportKind::Normal);
    }
    let listed: Vec<(String, String)> = db
        .wildcard_imports_temp
        .iter()
        .map(|w| (w.target.to_string(), w.source.to_string()))
        .collect();
    assert_eq!(
        listed,
        vec![("k".to_string(), "a".to_string()), ("k".to_string(), "a::b".to_string())]
    );
    db.add_import(&alias("k::X", "c::X"));
    assert_eq!(db.wildcard_imports_temp.len(), 2);
    db.add_import(&ImportEdge::Wildcard { scope: g("k"), source: g("z") });
    assert_eq!(db.wildcard_imports_temp.len(), 3);
    assert_eq!(db.wildcard_imports_temp[2].source, g("z"));
}
