use ut1_blocklist::tag_index::TagIndex;

#[test]
fn tag_index_insert_and_get() {
    let mut idx = TagIndex::new();
    assert_eq!(idx.get(&"a.b".to_string()), None);
    idx.insert_tag("a.b".to_string(), "x".to_string());
    idx.insert_tag("a.b".to_string(), "x".to_string());
    idx.insert_tag("c.d".to_string(), "y".to_string());
    assert_eq!(
        idx.get(&"a.b".to_string()),
        Some(&vec!["x".to_string(), "x".to_string()])
    );
    assert_eq!(idx.get(&"c.d".to_string()), Some(&vec!["y".to_string()]));
    assert_eq!(idx.get(&"b".to_string()), None);
}
