use syg::global_ident::GlobalIdent;
use syg::ident_part::IdentPart;
use syg::named_tree::{FromPath, NamedNode, PathDisplay, TreeError};

fn key(name: &str) -> IdentPart {
    IdentPart::from_name(name)
}

fn path(name: &str) -> Vec<IdentPart> {
    GlobalIdent::from_qualified_name(name).to_parts()
}

fn shown(parts: &[IdentPart]) -> String {
    GlobalIdent::from_ident_path(parts).to_string()
}

type Tree = NamedNode<IdentPart, Option<u32>>;

fn listing(tree: &Tree) -> Vec<(String, Option<u32>)> {
    tree.entries().iter().map(|(p, v)| (shown(p), **v)).collect()
}

#[test]
fn new_tree_is_a_lone_root() {
    let tree: Tree = NamedNode::new(Some(7));
    assert!(!tree.has_children());
    assert!(tree.children().is_empty());
    assert!(tree.path().is_empty());
    assert_eq!(tree.get_value(), &Some(7));
    assert!(tree.entries().is_empty());
    assert_eq!(tree.find_value(&[]), Some(&Some(7)));
    assert_eq!(tree.find_value(&path("a")), None);
}

#[test]
fn default_tree_holds_the_default_value() {
    let tree: NamedNode<IdentPart, u8> = NamedNode::default();
    assert_eq!(*tree.get_value(), 0);
    assert!(!tree.has_children());
    assert!(tree.path().is_empty());
}

#[test]
fn values_are_replaced_in_place() {
    let mut tree: Tree = NamedNode::new(None);
    tree.set_value(Some(1));
    assert_eq!(tree.get_value(), &Some(1));
    *tree.get_value_mut() = Some(2);
    assert_eq!(tree.get_value(), &Some(2));
}

#[test]
fn add_child_inserts_a_leaf() {
    let mut tree: Tree = NamedNode::new(None);
    assert_eq!(tree.add_child(key("b"), Some(2)), Ok(()));
    assert_eq!(tree.add_child(key("a"), Some(1)), Ok(()));
    assert!(tree.has_children());
    let child = tree.get_child(&key("a")).unwrap();
    assert_eq!(child.get_value(), &Some(1));
    assert_eq!(child.path(), &path("a")[..]);
    assert!(!child.has_children());
    assert!(tree.get_child(&key("c")).is_none());
    assert_eq!(listing(&tree), vec![("a".to_string(), Some(1)), ("b".to_string(), Some(2))]);
}

#[test]
fn add_child_refuses_a_taken_key() {
    let mut tree: Tree = NamedNode::new(None);
    tree.add_child(key("a"), Some(1)).unwrap();
    assert_eq!(
        tree.add_child(key("a"), Some(9)),
        Err(TreeError::DuplicatePath("a".to_string()))
    );
    assert_eq!(tree.get_child(&key("a")).unwrap().get_value(), &Some(1));
    assert_eq!(tree.children().len(), 1);
    let child = tree.get_child_mut(&key("a")).unwrap();
    child.add_child(key("x"), Some(2)).unwrap();
    assert_eq!(
        child.add_child(key("x"), Some(3)),
        Err(TreeError::DuplicatePath("a::x".to_string()))
    );
}

#[test]
fn children_keep_the_path_of_their_parent() {
    let mut tree: Tree = NamedNode::new(None);
    tree.find_or_create(&path("m::n")).add_child(key("leaf"), Some(5)).unwrap();
    let leaf = tree.find(&path("m::n::leaf")).unwrap();
    assert_eq!(leaf.path(), &path("m::n::leaf")[..]);
    assert_eq!(leaf.get_value(), &Some(5));
}

#[test]
fn find_or_create_materializes_every_ancestor() {
    let mut tree: Tree = NamedNode::new(Some(0));
    {
        let node = tree.find_or_create(&path("a::b::c"));
        assert_eq!(node.path(), &path("a::b::c")[..]);
        assert_eq!(node.get_value(), &None);
        node.set_value(Some(3));
    }
    assert_eq!(
        listing(&tree),
        vec![("a".to_string(), None), ("a::b".to_string(), None), ("a::b::c".to_string(), Some(3))]
    );
    assert_eq!(tree.get_value(), &Some(0));
    {
        let again = tree.find_or_create(&path("a::b"));
        assert_eq!(again.path(), &path("a::b")[..]);
        assert!(again.has_children());
        again.set_value(Some(2));
    }
    assert_eq!(tree.find_value(&path("a::b::c")), Some(&Some(3)));
    assert_eq!(tree.find_value(&path("a::b")), Some(&Some(2)));
    assert!(tree.find_or_create(&[]).path().is_empty());
}

#[test]
fn a_created_path_is_found_under_its_own_path() {
    let mut tree: Tree = NamedNode::new(None);
    for name in ["x", "a::b::c", "a::d", "z::y", "a::b"] {
        tree.find_or_create(&path(name));
        let found = tree.find_mut(&path(name)).unwrap();
        assert_eq!(found.path(), &path(name)[..]);
    }
    assert!(tree.find_mut(&path("a::nope")).is_none());
    assert!(tree.find_mut(&path("q")).is_none());
    assert_eq!(tree.find_mut_unchecked(&path("a::d")).path(), &path("a::d")[..]);
}

#[test]
fn find_mut_changes_the_tree_below_the_path_only() {
    let mut tree: Tree = NamedNode::new(None);
    tree.put(&path("a::b"), Some(1));
    tree.put(&path("a::c"), Some(2));
    tree.put(&path("d"), Some(3));
    tree.find_mut(&path("a::b")).unwrap().set_value(Some(10));
    tree.find_mut(&path("a")).unwrap().add_child(key("bb"), Some(11)).unwrap();
    assert_eq!(
        listing(&tree),
        vec![
            ("a".to_string(), None),
            ("a::b".to_string(), Some(10)),
            ("a::bb".to_string(), Some(11)),
            ("a::c".to_string(), Some(2)),
            ("d".to_string(), Some(3)),
        ]
    );
}

#[test]
fn get_or_create_child_hands_out_the_value() {
    let mut tree: Tree = NamedNode::new(None);
    assert_eq!(*tree.get_or_create_child(&key("a")), None);
    *tree.get_or_create_child(&key("a")) = Some(4);
    assert_eq!(*tree.get_or_create_child(&key("a")), Some(4));
    assert_eq!(tree.children().len(), 1);
    assert_eq!(tree.get_child(&key("a")).unwrap().path(), &path("a")[..]);
}

#[test]
fn put_stores_a_value_at_a_path() {
    let mut tree: Tree = NamedNode::new(None);
    tree.put(&path("p::q"), Some(1));
    tree.put(&path("p"), Some(2));
    tree.put(&path("p::q"), Some(3));
    tree.put(&[], Some(4));
    assert_eq!(tree.get_value(), &Some(4));
    assert_eq!(listing(&tree), vec![("p".to_string(), Some(2)), ("p::q".to_string(), Some(3))]);
}

#[test]
fn entries_come_in_preorder_with_siblings_by_key() {
    let mut tree: Tree = NamedNode::new(None);
    for (i, name) in ["m::z", "b", "m::a::k", "a", "m", "m::a", "c::c"].iter().enumerate() {
        tree.put(&path(name), Some(i as u32));
    }
    let order: Vec<String> = tree.entries().iter().map(|(p, _)| shown(p)).collect();
    assert_eq!(order, vec!["a", "b", "c", "c::c", "m", "m::a", "m::a::k", "m::z"]);
    let mut sorted = tree.entries().iter().map(|(p, _)| GlobalIdent::from_ident_path(p)).collect::<Vec<_>>();
    let before = sorted.clone();
    sorted.sort();
    assert_eq!(sorted, before);
}

#[test]
fn for_each_visits_every_node_below_the_root() {
    let mut tree: Tree = NamedNode::new(Some(100));
    tree.put(&path("a::b"), Some(1));
    tree.put(&path("c"), Some(2));
    let mut seen: Vec<(String, Option<u32>)> = Vec::new();
    tree.for_each(&mut |p: &[IdentPart], v: &Option<u32>| seen.push((shown(p), *v)));
    assert_eq!(
        seen,
        vec![("a".to_string(), None), ("a::b".to_string(), Some(1)), ("c".to_string(), Some(2))]
    );
}

#[test]
fn left_join_merges_matching_paths() {
    let mut live: Tree = NamedNode::new(Some(0));
    live.put(&path("a"), Some(1));
    live.put(&path("a::b"), Some(2));
    live.put(&path("c"), Some(3));
    let mut shadow: NamedNode<IdentPart, Option<String>> = NamedNode::new(Some("root".to_string()));
    shadow.put(&path("a::b"), Some("ab".to_string()));
    shadow.put(&path("x"), Some("x".to_string()));
    let mut calls = 0;
    live.left_join(Some(&shadow), &mut |mine: &Option<u32>, other: Option<&Option<String>>| {
        calls += 1;
        match other {
            Some(Some(text)) => Some(mine.unwrap_or(0) + 10 * text.len() as u32),
            Some(None) => mine.map(|m| m + 1000),
            None => *mine,
        }
    });
    assert_eq!(calls, 4);
    assert_eq!(live.get_value(), &Some(40));
    assert_eq!(
        listing(&live),
        vec![("a".to_string(), Some(1001)), ("a::b".to_string(), Some(22)), ("c".to_string(), Some(3))]
    );
    assert!(live.find(&path("x")).is_none());
}

#[test]
fn left_join_without_other_tree_sees_nothing() {
    let mut live: Tree = NamedNode::new(Some(1));
    live.put(&path("a"), Some(2));
    let nothing: Option<&NamedNode<IdentPart, Option<u32>>> = None;
    live.left_join(nothing, &mut |mine: &Option<u32>, other: Option<&Option<u32>>| {
        assert!(other.is_none());
        mine.map(|m| m * 2)
    });
    assert_eq!(live.get_value(), &Some(2));
    assert_eq!(listing(&live), vec![("a".to_string(), Some(4))]);
}

#[test]
fn trees_can_be_keyed_by_numbers() {
    let mut tree: NamedNode<usize, Option<String>> = NamedNode::new(None);
    tree.put(&[3, 1], Some("x".to_string()));
    tree.put(&[2], Some("y".to_string()));
    tree.put(&[3, 0], Some("z".to_string()));
    let order: Vec<Vec<usize>> = tree.entries().iter().map(|(p, _)| p.clone()).collect();
    assert_eq!(order, vec![vec![2], vec![3], vec![3, 0], vec![3, 1]]);
    assert_eq!(tree.find_value(&[3, 0]), Some(&Some("z".to_string())));
    assert_eq!(tree.find(&[3]).unwrap().path(), &[3]);
}

#[test]
fn paths_are_displayed_as_qualified_names() {
    assert_eq!(IdentPart::display_path(&path("a::b::c")), "a::b::c");
    assert_eq!(IdentPart::display_path(&[]), "");
}

#[test]
fn option_values_are_made_empty() {
    let made: Option<u32> = FromPath::<IdentPart>::from_path(&path("a"));
    assert_eq!(made, None);
}

#[test]
fn for_each_mut_replaces_every_value_below_the_root() {
    let mut tree: Tree = NamedNode::new(Some(100));
    tree.put(&path("a::b"), Some(1));
    tree.put(&path("c"), Some(2));
    let mut seen: Vec<(String, String)> = Vec::new();
    tree.find_mut(&path("a")).unwrap().for_each_mut(
        &mut |rel: &[IdentPart], v: &Option<u32>, full: &[IdentPart]| {
            seen.push((shown(rel), shown(full)));
            v.map(|x| x + 10)
        },
    );
    assert_eq!(seen, vec![("b".to_string(), "a::b".to_string())]);
    let mut order: Vec<String> = Vec::new();
    tree.for_each_mut(&mut |rel: &[IdentPart], v: &Option<u32>, full: &[IdentPart]| {
        assert_eq!(rel, full);
        order.push(shown(rel));
        Some(v.unwrap_or(0) + 1)
    });
    assert_eq!(order, vec!["a", "a::b", "c"]);
    assert_eq!(tree.get_value(), &Some(100));
    assert_eq!(
        listing(&tree),
        vec![("a".to_string(), Some(1)), ("a::b".to_string(), Some(12)), ("c".to_string(), Some(3))]
    );
}
