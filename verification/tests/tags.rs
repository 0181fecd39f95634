use arnis::tags::Tags;

#[test]
fn get_gives_back_what_insert_wrote() {
    let mut tags = Tags::new();
    assert_eq!(tags.get("bridge"), None);
    tags.insert("bridge".to_string(), "yes".to_string());
    tags.insert("layer".to_string(), "1".to_string());
    assert_eq!(tags.get("bridge").map(|s| s.as_str()), Some("yes"));
    assert_eq!(tags.get("layer").map(|s| s.as_str()), Some("1"));
    tags.insert("bridge".to_string(), "viaduct".to_string());
    assert_eq!(tags.get("bridge").map(|s| s.as_str()), Some("viaduct"));
    assert_eq!(tags.get("layer").map(|s| s.as_str()), Some("1"));
    assert_eq!(tags.get("bridg"), None);
}
