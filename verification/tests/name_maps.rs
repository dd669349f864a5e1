use egglog_experimental::name_map::NameMap;

#[test]
fn a_name_map_remembers_what_is_put_in() {
    let mut map = NameMap::new();
    assert!(!map.contains_key("a"));
    map.insert("a".to_string(), 1);
    map.insert("b".to_string(), 2);
    map.insert("a".to_string(), 3);
    assert_eq!(map.get("a"), Some(&3));
    assert_eq!(map.get("b"), Some(&2));
    assert_eq!(map.get("c"), None);
    assert!(map.contains_key("a"));
}

#[test]
fn a_value_that_is_missing_is_put_in() {
    let mut map = NameMap::new();
    *map.or_insert("a".to_string(), 1) += 10;
    *map.or_insert("a".to_string(), 5) += 10;
    assert_eq!(map.get("a"), Some(&21));
}

#[test]
fn a_removed_name_is_gone() {
    let mut map = NameMap::new();
    map.insert("a".to_string(), 1);
    map.insert("b".to_string(), 2);
    map.insert("c".to_string(), 3);
    assert_eq!(map.remove("a"), Some(1));
    assert_eq!(map.remove("a"), None);
    assert_eq!(map.get("b"), Some(&2));
    assert_eq!(map.get("c"), Some(&3));
}
