use mcp_multiplexer::names::NameMap;

#[test]
fn insert_get_remove() {
    let mut m: NameMap<u64> = NameMap::new();
    assert!(m.is_empty());
    assert_eq!(m.insert("b".to_string(), 2), None);
    assert_eq!(m.insert("a".to_string(), 1), None);
    assert_eq!(m.insert("c".to_string(), 3), None);
    assert_eq!(m.insert("b".to_string(), 20), Some(2));
    assert_eq!(m.len(), 3);
    assert_eq!(m.get("b"), Some(&20));
    assert_eq!(m.get("a"), Some(&1));
    assert_eq!(m.get("zz"), None);
    assert!(m.contains("c"));
    assert_eq!(m.names(), vec!["a".to_string(), "b".to_string(), "c".to_string()]);
    assert_eq!(m.remove("a"), Some(1));
    assert_eq!(m.remove("a"), None);
    assert_eq!(m.get("a"), None);
    assert_eq!(m.get("c"), Some(&3));
    assert_eq!(m.names(), vec!["b".to_string(), "c".to_string()]);
}

#[test]
fn names_order_by_code_point() {
    let mut m: NameMap<()> = NameMap::new();
    for k in ["b", "B", "ab", "a", "", "é", "a__b"] {
        m.insert(k.to_string(), ());
    }
    let mut expected: Vec<String> = ["b", "B", "ab", "a", "", "é", "a__b"].iter().map(|s| s.to_string()).collect();
    expected.sort();
    assert_eq!(m.names(), expected);
    assert_eq!(m.name_at(0), "");
    assert_eq!(*m.value_at(1), ());
}

#[test]
fn with_values_keeps_names() {
    let mut m: NameMap<u64> = NameMap::new();
    m.insert("y".to_string(), 1);
    m.insert("x".to_string(), 2);
    let w = m.with_values(vec!["first".to_string(), "second".to_string()]);
    assert_eq!(w.get("x").map(|s| s.as_str()), Some("first"));
    assert_eq!(w.get("y").map(|s| s.as_str()), Some("second"));
}
