use data_collect::table::KeyedTable;

#[test]
fn insert_get_and_len() {
    let mut t: KeyedTable<u32> = KeyedTable::new();
    assert_eq!(t.len(), 0);
    assert_eq!(t.insert("a".to_string(), 1), None);
    assert_eq!(t.insert("b".to_string(), 2), None);
    assert_eq!(t.len(), 2);
    assert_eq!(t.insert("a".to_string(), 3), Some(1));
    assert_eq!(t.len(), 2);
    assert_eq!(t.get("a"), Some(&3));
    assert_eq!(t.get("b"), Some(&2));
    assert_eq!(t.get("c"), None);
    assert!(t.contains_key("b"));
    assert!(!t.contains_key("c"));
}

#[test]
fn tables_nest() {
    let mut inner: KeyedTable<String> = KeyedTable::new();
    inner.insert("/L".to_string(), "TAG".to_string());
    let mut outer: KeyedTable<KeyedTable<String>> = KeyedTable::new();
    outer.insert("DP_IMO1_2025.xml".to_string(), inner);
    assert_eq!(outer.get("DP_IMO1_2025.xml").unwrap().get("/L").unwrap(), "TAG");
}
