use helix_lib::progress::{DapProgressMap, ProgressStatus};

#[test]
fn start_then_title_and_end() {
    let mut map = DapProgressMap::new();
    assert!(!map.is_progressing(1));
    map.start(1, "tok".to_string(), "Indexing".to_string());
    assert!(map.is_progressing(1));
    assert!(!map.is_progressing(2));
    assert_eq!(map.title(1, "tok").map(|s| s.as_str()), Some("Indexing"));
    assert_eq!(map.title(1, "other"), None);
    assert_eq!(map.title(2, "tok"), None);
    match map.end(1, "tok") {
        Some(ProgressStatus::Started { title }) => assert_eq!(title, "Indexing"),
        None => panic!("the report should have ended"),
    }
    assert_eq!(map.title(1, "tok"), None);
    assert!(!map.is_progressing(1));
    assert!(map.end(1, "tok").is_none());
    assert!(map.end(7, "tok").is_none());
}

#[test]
fn update_keeps_existing_title() {
    let mut map = DapProgressMap::default();
    map.update(3, "a".to_string());
    assert_eq!(map.title(3, "a").map(|s| s.as_str()), Some(""));
    map.start(3, "b".to_string(), "Building".to_string());
    map.update(3, "b".to_string());
    assert_eq!(map.title(3, "b").map(|s| s.as_str()), Some("Building"));
    map.start(3, "b".to_string(), "Linking".to_string());
    assert_eq!(map.title(3, "b").map(|s| s.as_str()), Some("Linking"));
}
