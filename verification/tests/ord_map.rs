use solc_artifacts::ord_map::OrdMap;
use std::collections::BTreeMap;

fn keys(map: &OrdMap<String, u32>) -> Vec<String> {
    map.iter().into_iter().map(|(key, _)| key.clone()).collect()
}

#[test]
fn walks_in_the_order_of_a_tree_map() {
    let texts = ["b", "a", "", "aa", "Z", "é", "z", "\u{10000}", "\u{ffff}", "a/b", "a-b", "a"];
    let mut map = OrdMap::new();
    let mut tree = BTreeMap::new();
    for (i, text) in texts.iter().enumerate() {
        assert_eq!(map.insert(text.to_string(), i as u32), tree.insert(text.to_string(), i as u32));
    }
    assert_eq!(map.len(), tree.len());
    let walked: Vec<(String, u32)> = map.iter().into_iter().map(|(k, v)| (k.clone(), *v)).collect();
    let expected: Vec<(String, u32)> = tree.into_iter().collect();
    assert_eq!(walked, expected);
    assert_eq!(map.clone().into_entries(), expected);
    assert_eq!(map.clone(), map);
}

#[test]
fn gives_back_what_was_set() {
    let mut map = OrdMap::new();
    assert!(map.is_empty());
    assert_eq!(map.get(&"x".to_string()), None);
    assert_eq!(map.insert("x".to_string(), 1), None);
    assert_eq!(map.insert("x".to_string(), 2), Some(1));
    assert_eq!(map.get(&"x".to_string()), Some(&2));
    assert!(map.contains_key(&"x".to_string()));
    assert_eq!(map.remove(&"y".to_string()), None);
    assert_eq!(map.remove(&"x".to_string()), Some(2));
    assert!(!map.contains_key(&"x".to_string()));
    assert!(map.is_empty());
    assert_eq!(map, OrdMap::default());
}

#[test]
fn extending_prefers_the_added_values() {
    let mut map = OrdMap::new();
    map.insert("a".to_string(), 1);
    map.insert("c".to_string(), 3);
    let mut other = OrdMap::new();
    other.insert("c".to_string(), 30);
    other.insert("b".to_string(), 20);
    map.extend(other);
    assert_eq!(keys(&map), ["a", "b", "c"]);
    assert_eq!(map.get(&"a".to_string()), Some(&1));
    assert_eq!(map.get(&"b".to_string()), Some(&20));
    assert_eq!(map.get(&"c".to_string()), Some(&30));
}

#[test]
fn entries_are_reached_by_position() {
    let mut map = OrdMap::new();
    map.insert("b".to_string(), 2);
    map.insert("a".to_string(), 1);
    assert_eq!(map.nth(0), (&"a".to_string(), &1));
    assert_eq!(map.replace_nth(1, 5), 2);
    assert_eq!(map.nth(1), (&"b".to_string(), &5));
    assert_eq!(OrdMap::from_increasing(vec![("a".to_string(), 1), ("b".to_string(), 5)]), map);
}
