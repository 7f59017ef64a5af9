use std::sync::Arc;
use toid::name_map::NameMap;

fn name(s: &str) -> String {
    String::from(s)
}

#[test]
fn name_map_keeps_values_under_names() {
    let empty: NameMap<u32> = NameMap::new();
    assert_eq!(empty.len(), 0);
    assert!(empty.get(&name("a")).is_none());
    let one = empty.with(name("a"), Arc::new(1));
    let two = one.with(name("b"), Arc::new(2));
    assert_eq!(**two.get(&name("a")).unwrap(), 1);
    assert_eq!(**two.get(&name("b")).unwrap(), 2);
    assert!(two.get(&name("c")).is_none());
    assert_eq!(two.find(&name("b")), Some(1));
    assert_eq!(two.find(&name("")), None);
}

#[test]
fn name_map_replaces_in_place() {
    let map = NameMap::new()
        .with(name("a"), Arc::new(1))
        .with(name("b"), Arc::new(2))
        .with(name("c"), Arc::new(3))
        .with(name("b"), Arc::new(20));
    assert_eq!(map.len(), 3);
    assert_eq!(map.name_at(1), "b");
    assert_eq!(**map.value_at(1), 20);
    assert_eq!(map.name_at(2), "c");
    assert_eq!(**map.value_at(0), 1);
}

#[test]
fn name_map_with_leaves_the_old_map_and_shares_values() {
    let kept = Arc::new(String::from("kept"));
    let before = NameMap::new().with(name("a"), kept.clone());
    let after = before.with(name("b"), Arc::new(String::from("new")));
    assert_eq!(before.len(), 1);
    assert!(before.get(&name("b")).is_none());
    assert!(Arc::ptr_eq(after.get(&name("a")).unwrap(), &kept));
}

#[test]
fn name_map_from_entries_needs_distinct_names() {
    let map = NameMap::from_entries(vec![(name("a"), 1), (name("b"), 2), (name("c"), 3)]).unwrap();
    assert_eq!(map.len(), 3);
    assert_eq!(map.name_at(0), "a");
    assert_eq!(**map.value_at(2), 3);
    assert_eq!(**map.get(&name("b")).unwrap(), 2);
    assert!(NameMap::from_entries(vec![(name("a"), 1), (name("b"), 2), (name("a"), 3)]).is_none());
    assert!(NameMap::from_entries(vec![(name("a"), 1), (name("a"), 1)]).is_none());
    assert_eq!(NameMap::<u32>::from_entries(vec![]).unwrap().len(), 0);
}
