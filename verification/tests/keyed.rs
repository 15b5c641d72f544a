use radiochron::keyed::OrderedMap;

#[test]
fn ordered_map_keeps_keys_sorted_and_replaces_on_upsert() {
    let mut map: OrderedMap<String> = OrderedMap::new();
    assert!(map.is_empty());
    assert!(map.upsert("b".to_string(), "2".to_string()));
    assert!(map.upsert("a".to_string(), "1".to_string()));
    assert!(map.upsert("c".to_string(), "3".to_string()));
    assert!(!map.upsert("b".to_string(), "two".to_string()));
    assert_eq!(map.len(), 3);
    let keys: Vec<&str> = (0..map.len()).map(|i| map.key_at(i).as_str()).collect();
    assert_eq!(keys, vec!["a", "b", "c"]);
    assert_eq!(map.get("b").map(String::as_str), Some("two"));
    assert_eq!(map.find("c"), Some(2));
    assert_eq!(map.find("d"), None);
    assert_eq!(map.get("d"), None);
}

#[test]
fn ordered_map_remove_at_takes_the_entry_out() {
    let mut map: OrderedMap<String> = OrderedMap::new();
    map.upsert("x".to_string(), "10".to_string());
    map.upsert("y".to_string(), "20".to_string());
    let (k, v) = map.remove_at(0);
    assert_eq!((k.as_str(), v.as_str()), ("x", "10"));
    assert_eq!(map.len(), 1);
    assert_eq!(map.value_at(0), "20");
    assert_eq!(map.get("x"), None);
}
