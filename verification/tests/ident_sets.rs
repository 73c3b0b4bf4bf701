use syg::global_ident::GlobalIdent;
use syg::ident_set::IdentSet;
use syg::unresolved::UnresolvedMap;

fn g(name: &str) -> GlobalIdent {
    GlobalIdent::from_qualified_name(name)
}

fn names(set: &IdentSet) -> Vec<String> {
    set.as_slice().iter().map(|x| x.to_string()).collect()
}

#[test]
fn set_keeps_names_in_order_and_once() {
    let mut set = IdentSet::new();
    assert!(set.is_empty());
    assert_eq!(set.len(), 0);
    assert!(set.insert(g("b::x")));
    assert!(set.insert(g("a::z")));
    assert!(set.insert(g("c")));
    assert!(!set.insert(g("a::z")));
    assert!(set.insert(g("a")));
    assert_eq!(names(&set), vec!["a", "a::z", "b::x", "c"]);
    assert_eq!(set.len(), 4);
    assert!(!set.is_empty());
    assert!(set.contains(&g("b::x")));
    assert!(!set.contains(&g("b")));
    let copy = set.duplicate();
    assert_eq!(names(&copy), names(&set));
}

#[test]
fn record_gathers_scopes_and_requestors_by_name() {
    let mut record = UnresolvedMap::new();
    assert_eq!(record.len(), 0);
    assert!(record.get(&g("Zed")).is_none());
    record.record(g("Zed"), g("m"), g("m::f"));
    record.record(g("Abc"), g("m"), g("m::g"));
    record.record(g("Zed"), g("n"), g("n::h"));
    record.record(g("Zed"), g("m"), g("m::f"));
    assert_eq!(record.len(), 2);
    let keys: Vec<String> = record.keys().iter().map(|k| k.to_string()).collect();
    assert_eq!(keys, vec!["Abc", "Zed"]);
    let zed = record.get(&g("Zed")).unwrap();
    assert_eq!(names(&zed.scopes), vec!["m", "n"]);
    assert_eq!(names(&zed.requestors), vec!["m::f", "n::h"]);
    let abc = record.get(&g("Abc")).unwrap();
    assert_eq!(names(&abc.scopes), vec!["m"]);
    assert_eq!(names(&abc.requestors), vec!["m::g"]);
}

#[test]
fn the_order_of_records_does_not_matter() {
    let mut one = UnresolvedMap::new();
    one.record(g("K"), g("s1"), g("r1"));
    one.record(g("L"), g("s2"), g("r2"));
    one.record(g("K"), g("s3"), g("r3"));
    let mut other = UnresolvedMap::new();
    other.record(g("K"), g("s3"), g("r3"));
    other.record(g("L"), g("s2"), g("r2"));
    other.record(g("K"), g("s1"), g("r1"));
    assert_eq!(one.keys(), other.keys());
    for key in one.keys() {
        let a = one.get(key).unwrap();
        let b = other.get(key).unwrap();
        assert_eq!(names(&a.scopes), names(&b.scopes));
        assert_eq!(names(&a.requestors), names(&b.requestors));
    }
}
