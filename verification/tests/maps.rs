use onlyati_config::config_map::ConfigMap;

fn pairs(map: &ConfigMap) -> Vec<(String, String)> {
    map.entries().iter().map(|e| (e.key.clone(), e.value.clone())).collect()
}

fn owned(items: &[(&str, &str)]) -> Vec<(String, String)> {
    items.iter().map(|(k, v)| (k.to_string(), v.to_string())).collect()
}

fn map_of(items: &[(&str, &str)]) -> ConfigMap {
    let mut map = ConfigMap::new();
    for (k, v) in items {
        map.insert(k.to_string(), v.to_string());
    }
    map
}

#[test]
fn new_map_is_empty() {
    let map = ConfigMap::new();
    assert!(map.is_empty());
    assert_eq!(map.len(), 0);
    assert_eq!(map.get("a"), None);
    assert!(!map.contains_key(""));
    assert!(map.entries().is_empty());
}

#[test]
fn insert_adds_or_replaces() {
    let mut map = ConfigMap::new();
    map.insert("a".to_string(), "1".to_string());
    map.insert("b".to_string(), "2".to_string());
    assert_eq!(map.len(), 2);
    assert!(!map.is_empty());
    map.insert("a".to_string(), "3".to_string());
    assert_eq!(map.len(), 2);
    assert_eq!(map.get("a").map(|v| v.as_str()), Some("3"));
    assert_eq!(map.get("b").map(|v| v.as_str()), Some("2"));
    assert_eq!(map.get("c"), None);
    assert!(map.contains_key("a"));
    assert!(!map.contains_key("A"));
    assert_eq!(pairs(&map), owned(&[("a", "3"), ("b", "2")]));
}

#[test]
fn keys_are_compared_by_their_characters() {
    let mut map = ConfigMap::new();
    map.insert("caf\u{e9}".to_string(), "1".to_string());
    map.insert("cafe\u{301}".to_string(), "2".to_string());
    map.insert("".to_string(), "3".to_string());
    assert_eq!(map.len(), 3);
    assert_eq!(map.get("caf\u{e9}").map(|v| v.as_str()), Some("1"));
    assert_eq!(map.get("cafe\u{301}").map(|v| v.as_str()), Some("2"));
    assert_eq!(map.get("").map(|v| v.as_str()), Some("3"));
    assert_eq!(map.get("cafe"), None);
}

#[test]
fn merge_prefers_the_other_map() {
    let mut base = map_of(&[("port", "2022"), ("threads", "8")]);
    let other = map_of(&[("user", "vajk"), ("port", "3800")]);
    base.merge(&other);
    assert_eq!(pairs(&base), owned(&[("port", "3800"), ("threads", "8"), ("user", "vajk")]));
    assert_eq!(pairs(&other), owned(&[("user", "vajk"), ("port", "3800")]));
}

#[test]
fn merge_with_empty_changes_nothing() {
    let mut base = map_of(&[("a", "1")]);
    base.merge(&ConfigMap::new());
    assert_eq!(pairs(&base), owned(&[("a", "1")]));
    let mut empty = ConfigMap::new();
    empty.merge(&base);
    assert_eq!(pairs(&empty), owned(&[("a", "1")]));
}

#[test]
fn entries_list_each_name_once() {
    let map = map_of(&[("a", "1"), ("b", "2"), ("a", "3"), ("c", ""), ("b", "4")]);
    assert_eq!(pairs(&map), owned(&[("a", "3"), ("b", "4"), ("c", "")]));
    assert_eq!(map.len(), map.entries().len());
}
