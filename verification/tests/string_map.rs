use aktenfux::string_map::StringMap;

#[test]
fn a_new_map_is_empty() {
    let map: StringMap<u8> = StringMap::new();
    assert_eq!(map.len(), 0);
    assert!(map.is_empty());
    assert!(map.get("a").is_none());
    assert!(!map.contains_key(""));
    assert_eq!(map.position("a"), 0);
}

#[test]
fn insert_appends_or_replaces_in_place() {
    let mut map = StringMap::new();
    assert_eq!(map.insert("b".to_string(), 1), None);
    assert_eq!(map.insert("a".to_string(), 2), None);
    assert_eq!(map.insert("b".to_string(), 3), Some(1));
    assert_eq!(map.len(), 2);
    assert!(!map.is_empty());
    assert_eq!(map.key_at(0), "b");
    assert_eq!(*map.value_at(0), 3);
    assert_eq!(map.key_at(1), "a");
    assert_eq!(*map.value_at(1), 2);
    assert_eq!(map.get("b"), Some(&3));
    assert_eq!(map.get("a"), Some(&2));
    assert_eq!(map.get("B"), None);
    assert!(map.contains_key("a"));
    assert_eq!(map.position("a"), 1);
    assert_eq!(map.position("c"), 2);
}

#[test]
fn replace_at_keeps_the_key() {
    let mut map = StringMap::new();
    map.insert("x".to_string(), 10);
    map.insert("y".to_string(), 20);
    assert_eq!(map.replace_at(1, 21), 20);
    assert_eq!(map.key_at(1), "y");
    assert_eq!(map.get("y"), Some(&21));
    assert_eq!(map.get("x"), Some(&10));
}

#[test]
fn lookup_by_lowercase() {
    let mut map = StringMap::new();
    map.insert("Über".to_string(), 1);
    map.insert("über".to_string(), 2);
    map.insert("Plain".to_string(), 3);
    assert_eq!(map.position_ignoring_case("ÜBER"), 0);
    assert_eq!(map.position_ignoring_case("plain"), 2);
    assert_eq!(map.position_ignoring_case("none"), 3);
    assert_eq!(map.get_ignoring_case("über"), Some(&2));
    assert_eq!(map.get_ignoring_case("ÜBER"), Some(&1));
    assert_eq!(map.get_ignoring_case("PLAIN"), Some(&3));
    assert_eq!(map.get_ignoring_case("none"), None);
}

#[test]
fn counting() {
    let mut counts: StringMap<usize> = StringMap::new();
    counts.add_one("a");
    counts.add_one("b");
    counts.add_one("a");
    assert_eq!(counts.len(), 2);
    assert_eq!(counts.get("a"), Some(&2));
    assert_eq!(counts.get("b"), Some(&1));
    assert_eq!(counts.key_at(0), "a");
}

#[test]
fn a_clone_holds_the_same_entries_in_the_same_order() {
    let mut map = StringMap::new();
    map.insert("b".to_string(), "x".to_string());
    map.insert("a".to_string(), "y".to_string());
    let copy = map.clone();
    map.insert("c".to_string(), "z".to_string());
    assert_eq!(copy.len(), 2);
    assert_eq!(copy.key_at(0), "b");
    assert_eq!(copy.value_at(0), "x");
    assert_eq!(copy.key_at(1), "a");
    assert_eq!(copy.value_at(1), "y");
}
