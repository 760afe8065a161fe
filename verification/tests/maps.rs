use nix_build_graph::maps::{SortedMap, TextMap};

#[test]
fn sorted_map_keeps_its_keys_in_order() {
    let mut map: SortedMap<u32> = SortedMap::new();
    for (key, value) in [("b", 1), ("a", 2), ("c", 3), ("b", 4), ("", 5), ("é", 6)] {
        map.insert(key.to_string(), value);
    }
    assert_eq!(map.len(), 5);
    let keys: Vec<&str> = (0..map.len()).map(|i| map.key_at(i)).collect();
    assert_eq!(keys, vec!["", "a", "b", "c", "é"]);
    let values: Vec<u32> = (0..map.len()).map(|i| *map.value_at(i)).collect();
    assert_eq!(values, vec![5, 2, 4, 3, 6]);
    assert_eq!(map.get("b"), Some(&4));
    assert_eq!(map.get("d"), None);
    assert!(map.contains_key(""));
    let copy = map.clone();
    assert_eq!(copy.get("é"), Some(&6));
    assert_eq!(copy.len(), 5);
}

#[test]
fn text_map_keeps_the_order_of_arrival() {
    let mut map: TextMap<u32> = TextMap::new();
    for (key, value) in [("b", 1), ("a", 2), ("b", 3)] {
        map.insert(key.to_string(), value);
    }
    assert_eq!(map.len(), 2);
    assert_eq!(map.key_at(0), "b");
    assert_eq!(*map.value_at(0), 3);
    assert_eq!(map.key_at(1), "a");
    assert_eq!(map.get("a"), Some(&2));
    assert_eq!(map.get("c"), None);
    assert!(!map.contains_key("c"));
}
