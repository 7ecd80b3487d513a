use mini_browser::strmap::StrMap;

#[test]
fn strmap_insert_then_get() {
    let mut m = StrMap::new();
    assert_eq!(m.len(), 0);
    assert!(m.get("color").is_none());
    m.insert("color".to_string(), "red".to_string());
    assert_eq!(m.get("color").map(|v| v.as_str()), Some("red"));
    assert!(m.contains_key("color"));
    assert!(!m.contains_key("font-size"));
    assert_eq!(m.len(), 1);
}

#[test]
fn strmap_insert_replaces() {
    let mut m = StrMap::new();
    m.insert("a".to_string(), "1".to_string());
    m.insert("b".to_string(), "2".to_string());
    m.insert("a".to_string(), "3".to_string());
    assert_eq!(m.len(), 2);
    assert_eq!(m.get("a").map(|v| v.as_str()), Some("3"));
    assert_eq!(m.get("b").map(|v| v.as_str()), Some("2"));
}

#[test]
fn strmap_entries_by_position() {
    let mut m = StrMap::new();
    m.insert("a".to_string(), "1".to_string());
    m.insert("b".to_string(), "2".to_string());
    let mut seen: Vec<(String, String)> = Vec::new();
    for i in 0..m.len() {
        seen.push((m.key_at(i).clone(), m.value_at(i).clone()));
    }
    seen.sort();
    assert_eq!(seen, vec![("a".to_string(), "1".to_string()), ("b".to_string(), "2".to_string())]);
}

#[test]
fn strmap_extend_prefers_other() {
    let mut m = StrMap::new();
    m.insert("a".to_string(), "1".to_string());
    m.insert("b".to_string(), "2".to_string());
    let mut o = StrMap::new();
    o.insert("b".to_string(), "20".to_string());
    o.insert("c".to_string(), "30".to_string());
    m.extend(&o);
    assert_eq!(m.len(), 3);
    assert_eq!(m.get("a").map(|v| v.as_str()), Some("1"));
    assert_eq!(m.get("b").map(|v| v.as_str()), Some("20"));
    assert_eq!(m.get("c").map(|v| v.as_str()), Some("30"));
}

#[test]
fn strmap_clone_is_equal_and_independent() {
    let mut m = StrMap::new();
    m.insert("a".to_string(), "1".to_string());
    let mut c = m.clone_map();
    assert_eq!(c.get("a").map(|v| v.as_str()), Some("1"));
    c.insert("a".to_string(), "2".to_string());
    assert_eq!(m.get("a").map(|v| v.as_str()), Some("1"));
    assert_eq!(c.get("a").map(|v| v.as_str()), Some("2"));
}
