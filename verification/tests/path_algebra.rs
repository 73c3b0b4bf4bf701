use syg::global_ident::GlobalIdent;
use syg::ident_part::{same_text, IdentPart};
use syg::path_key::{KeyOrder, PathKey};

fn strings(parts: &[&str]) -> Vec<String> {
    parts.iter().map(|p| p.to_string()).collect()
}

fn texts(g: &GlobalIdent) -> Vec<String> {
    g.to_parts().iter().map(|p| p.to_string()).collect()
}

#[test]
fn ident_part_keeps_its_text() {
    let p = IdentPart::from_name("Vec");
    assert_eq!(p.as_str(), "Vec");
    assert_eq!(p.to_string(), "Vec");
    assert!(p.is_name("Vec"));
    assert!(!p.is_name("vec"));
    assert!(!p.is_name("Ve"));
    assert_eq!(p, IdentPart::from_name("Vec"));
    assert_ne!(p, IdentPart::from_name("Vecs"));
    assert_eq!(p.clone(), p);
}

#[test]
fn ident_parts_are_ordered_as_their_texts() {
    let cases = [
        ("a", "b"),
        ("a", "aa"),
        ("", "a"),
        ("B", "a"),
        ("abc", "abd"),
        ("z", "é"),
        ("é", "日本"),
    ];
    for (x, y) in cases {
        let a = IdentPart::from_name(x);
        let b = IdentPart::from_name(y);
        assert_eq!(a.compare(&b), KeyOrder::Less, "{x} < {y}");
        assert_eq!(b.compare(&a), KeyOrder::Greater, "{y} > {x}");
        assert_eq!(a.compare(&a), KeyOrder::Equal);
        assert!(x < y);
        assert!(a < b);
    }
}

#[test]
fn same_text_compares_whole_texts() {
    assert!(same_text("Self", "Self"));
    assert!(!same_text("Self", "self"));
    assert!(!same_text("Self", "Sel"));
    assert!(same_text("", ""));
}

#[test]
fn root_has_no_parts() {
    let root = GlobalIdent::root();
    assert!(root.is_root());
    assert_eq!(root.len(), 0);
    assert!(root.to_parts().is_empty());
    assert_eq!(root.to_string(), "");
    assert_eq!(root.parent(), GlobalIdent::root());
    assert_eq!(root.last_part(), IdentPart::from_name(""));
    assert!(root.first_part().is_none());
    assert_eq!(GlobalIdent::from_qualified_name(""), root);
}

#[test]
fn qualified_name_splits_on_separator() {
    let g = GlobalIdent::from_qualified_name("a::b::c");
    assert_eq!(texts(&g), strings(&["a", "b", "c"]));
    assert_eq!(g.len(), 3);
    assert!(!g.is_root());
    assert_eq!(g.to_string(), "a::b::c");
    assert_eq!(g.first_part().unwrap(), &IdentPart::from_name("a"));
    assert_eq!(texts(&GlobalIdent::from_qualified_name("usize")), strings(&["usize"]));
}

#[test]
fn qualified_name_separators_are_matched_leftmost_first() {
    assert_eq!(texts(&GlobalIdent::from_qualified_name("a:::b")), strings(&["a", ":b"]));
    assert_eq!(texts(&GlobalIdent::from_qualified_name("a::::b")), strings(&["a", "", "b"]));
    assert_eq!(texts(&GlobalIdent::from_qualified_name("::a")), strings(&["", "a"]));
    assert_eq!(texts(&GlobalIdent::from_qualified_name("a::")), strings(&["a", ""]));
    assert_eq!(texts(&GlobalIdent::from_qualified_name("a:b")), strings(&["a:b"]));
    assert_eq!(texts(&GlobalIdent::from_qualified_name("::")), strings(&["", ""]));
    assert_eq!(texts(&GlobalIdent::from_qualified_name("é::日本")), strings(&["é", "日本"]));
}

#[test]
fn rendering_a_split_name_gives_the_name_back() {
    for name in ["a", "a::b", "std::vec::Vec", "a:::b", "::a", "a::", "x::é::y"] {
        assert_eq!(GlobalIdent::from_qualified_name(name).to_string(), name);
    }
}

#[test]
fn parent_drops_the_last_part() {
    let g = GlobalIdent::from_qualified_name("std::vec::Vec");
    assert_eq!(g.parent(), GlobalIdent::from_qualified_name("std::vec"));
    assert_eq!(g.parent().parent(), GlobalIdent::from_qualified_name("std"));
    assert_eq!(g.parent().parent().parent(), GlobalIdent::root());
    assert_eq!(g.last_part(), IdentPart::from_name("Vec"));
}

#[test]
fn parent_and_last_part_round_trip() {
    for name in ["x", "a::b", "std::vec::Vec", "a::::b"] {
        let g = GlobalIdent::from_qualified_name(name);
        let parent = texts(&g.parent());
        let back = GlobalIdent::from_path_and_name(&parent, g.last_part().as_str());
        assert_eq!(back, g);
    }
}

#[test]
fn parent_of_path_and_name_is_the_path() {
    let path = strings(&["a", "b"]);
    let g = GlobalIdent::from_path_and_name(&path, "c");
    assert_eq!(g, GlobalIdent::from_qualified_name("a::b::c"));
    assert_eq!(g.parent(), GlobalIdent::from_path(&path));
    assert_eq!(GlobalIdent::from_path_and_name(&[], "c"), GlobalIdent::from_qualified_name("c"));
}

#[test]
fn names_are_built_from_scopes_and_paths() {
    let scope = GlobalIdent::from_qualified_name("crate_a::m");
    assert_eq!(
        GlobalIdent::from_mod_and_path(&scope, &strings(&["x", "Y"])),
        GlobalIdent::from_qualified_name("crate_a::m::x::Y")
    );
    assert_eq!(GlobalIdent::from_mod_and_path(&scope, &[]), scope);
    assert_eq!(
        GlobalIdent::from_mod_and_path(&GlobalIdent::root(), &strings(&["x", "Y"])),
        GlobalIdent::from_qualified_name("x::Y")
    );
    assert_eq!(
        GlobalIdent::from_mod_and_name(&scope, "f"),
        GlobalIdent::from_qualified_name("crate_a::m::f")
    );
    assert_eq!(
        GlobalIdent::from_mod_and_name(&GlobalIdent::root(), "f"),
        GlobalIdent::from_qualified_name("f")
    );
    assert_eq!(GlobalIdent::from_path(&strings(&["p", "q"])), GlobalIdent::from_qualified_name("p::q"));
    assert_eq!(GlobalIdent::from_path(&[]), GlobalIdent::root());
    let parts = vec![IdentPart::from_name("p"), IdentPart::from_name("q")];
    assert_eq!(GlobalIdent::from_ident_path(&parts), GlobalIdent::from_qualified_name("p::q"));
    assert_eq!(
        GlobalIdent::join(&scope, &parts),
        GlobalIdent::from_qualified_name("crate_a::m::p::q")
    );
    assert_eq!(GlobalIdent::from_qualified_name("p::q").parts(), &parts[..]);
}

#[test]
fn a_segment_is_taken_whole() {
    let g = GlobalIdent::from_mod_and_name(&GlobalIdent::root(), "a::b");
    assert_eq!(g.len(), 1);
    assert_ne!(g, GlobalIdent::from_qualified_name("a::b"));
}

#[test]
fn qualify_puts_the_base_in_front() {
    let base = GlobalIdent::from_qualified_name("a::b");
    let mut path = strings(&["S"]);
    base.qualify_syn_path(&mut path);
    assert_eq!(path, strings(&["a", "b", "S"]));
    let mut longer = strings(&["x", "Y"]);
    GlobalIdent::from_qualified_name("m").qualify_syn_path(&mut longer);
    assert_eq!(longer, strings(&["m", "x", "Y"]));
    let mut empty: Vec<String> = Vec::new();
    base.qualify_syn_path(&mut empty);
    assert_eq!(empty, strings(&["a", "b"]));
    let mut untouched = strings(&["x"]);
    GlobalIdent::root().qualify_syn_path(&mut untouched);
    assert_eq!(untouched, strings(&["x"]));
}

#[test]
fn qualify_with_the_scope_of_a_declaration() {
    let address = GlobalIdent::from_qualified_name("a::b::S");
    let mut path = strings(&["T"]);
    address.parent().qualify_syn_path(&mut path);
    assert_eq!(path, strings(&["a", "b", "T"]));
    assert_eq!(GlobalIdent::from_path(&path), GlobalIdent::from_mod_and_path(&address.parent(), &strings(&["T"])));
}

#[test]
fn replace_base_needs_a_proper_prefix() {
    let g = GlobalIdent::from_qualified_name("a::b::c");
    let to = GlobalIdent::from_qualified_name("x::y");
    assert_eq!(
        g.try_replace_base(&GlobalIdent::from_qualified_name("a"), &to),
        Some(GlobalIdent::from_qualified_name("x::y::b::c"))
    );
    assert_eq!(
        g.try_replace_base(&GlobalIdent::from_qualified_name("a::b"), &to),
        Some(GlobalIdent::from_qualified_name("x::y::c"))
    );
    assert_eq!(g.try_replace_base(&GlobalIdent::from_qualified_name("a::b::c"), &to), None);
    assert_eq!(g.try_replace_base(&GlobalIdent::from_qualified_name("b"), &to), None);
    assert_eq!(g.try_replace_base(&GlobalIdent::root(), &to), None);
    assert_eq!(
        GlobalIdent::from_qualified_name("ab::c").try_replace_base(&GlobalIdent::from_qualified_name("a"), &to),
        None
    );
    assert_eq!(
        g.try_replace_base(&GlobalIdent::from_qualified_name("a"), &GlobalIdent::root()),
        Some(GlobalIdent::from_qualified_name("b::c"))
    );
    assert_eq!(
        GlobalIdent::from_qualified_name("a::b::a::c")
            .try_replace_base(&GlobalIdent::from_qualified_name("a"), &to),
        Some(GlobalIdent::from_qualified_name("x::y::b::a::c"))
    );
}

#[test]
fn names_are_ordered_segment_by_segment() {
    let lt = [
        ("", "a"),
        ("a", "a::b"),
        ("a::b", "a::c"),
        ("a::z", "b"),
        ("a::b", "a1"),
        ("a::b::c", "a::c"),
    ];
    for (x, y) in lt {
        let a = GlobalIdent::from_qualified_name(x);
        let b = GlobalIdent::from_qualified_name(y);
        assert_eq!(a.compare(&b), KeyOrder::Less, "{x} < {y}");
        assert_eq!(b.compare(&a), KeyOrder::Greater);
        assert_eq!(PathKey::compare(&a, &b), KeyOrder::Less);
        assert!(a < b);
        assert!(a != b);
    }
    let g = GlobalIdent::from_qualified_name("a::b");
    assert_eq!(g.compare(&g.clone()), KeyOrder::Equal);
    assert_eq!(g.duplicate(), g);
}

#[test]
fn numbers_are_keys_too() {
    assert_eq!(3usize.compare(&4), KeyOrder::Less);
    assert_eq!(4usize.compare(&4), KeyOrder::Equal);
    assert_eq!(5usize.compare(&4), KeyOrder::Greater);
    assert_eq!(7usize.duplicate(), 7);
}

#[test]
fn segments_make_a_qualified_name() {
    let parts = vec![IdentPart::from_name("a"), IdentPart::from_name("b")];
    assert_eq!(syg::ident_part::to_global_path(&parts), GlobalIdent::from_qualified_name("a::b"));
    assert_eq!(syg::ident_part::to_global_path(&[]), GlobalIdent::root());
}
