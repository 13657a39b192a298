use gall_rs::string_map::StringMap;

#[test]
fn inserts_replaces_and_removes() {
    let mut m: StringMap<String> = StringMap::new();
    assert_eq!(m.len(), 0);
    m.insert("a".to_string(), "1".to_string());
    m.insert("b".to_string(), "2".to_string());
    m.insert("a".to_string(), "3".to_string());
    assert_eq!(m.len(), 2);
    assert_eq!(m.get("a"), Some(&"3".to_string()));
    assert_eq!(m.get("b"), Some(&"2".to_string()));
    assert_eq!(m.get("c"), None);
    m.remove("a");
    m.remove("zzz");
    assert_eq!(m.get("a"), None);
    assert_eq!(m.len(), 1);
    let (k, v) = m.entry(0);
    assert_eq!((k.as_str(), v.as_str()), ("b", "2"));
}

#[test]
fn equality_ignores_order() {
    let mut x: StringMap<String> = StringMap::new();
    x.insert("a".to_string(), "1".to_string());
    x.insert("b".to_string(), "2".to_string());
    let mut y: StringMap<String> = StringMap::new();
    y.insert("b".to_string(), "2".to_string());
    y.insert("a".to_string(), "1".to_string());
    assert_eq!(x, y);
    y.insert("a".to_string(), "9".to_string());
    assert_ne!(x, y);
    y.insert("a".to_string(), "1".to_string());
    y.insert("c".to_string(), "3".to_string());
    assert_ne!(x, y);
}
