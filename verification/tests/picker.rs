use helix_lib::picker::{
    directory_preview_content, needs_highlight, store_loaded_preview, CachedPreview,
    LoadedPreview, preview_after_probe, preview_plan, DynamicQueryHandler,
    HighlightDebounce, PreviewPlan, QueryAction, MAX_FILE_SIZE_FOR_PREVIEW,
};

#[test]
fn preview_plans() {
    assert_eq!(preview_plan(true, false, 0), PreviewPlan::ListDirectory);
    assert_eq!(preview_plan(false, false, 0), PreviewPlan::NotFound);
    assert_eq!(preview_plan(false, true, MAX_FILE_SIZE_FOR_PREVIEW + 1), PreviewPlan::LargeFile);
    assert_eq!(preview_plan(false, true, MAX_FILE_SIZE_FOR_PREVIEW), PreviewPlan::ProbeContent);
    assert_eq!(preview_after_probe(true), PreviewPlan::Binary);
    assert_eq!(preview_after_probe(false), PreviewPlan::ReadDocument);
}

#[test]
fn directory_entries_are_labelled() {
    let entries = vec![
        (Some("..".to_string()), true),
        (Some("src".to_string()), true),
        (None, false),
        (Some("Cargo.toml".to_string()), false),
    ];
    assert_eq!(
        directory_preview_content(entries),
        vec![
            ("../".to_string(), true),
            ("src/".to_string(), true),
            ("Cargo.toml".to_string(), false)
        ]
    );
}

#[test]
fn highlight_debounce_keeps_the_deadline_for_the_same_path() {
    let mut d = HighlightDebounce::new();
    assert_eq!(d.handle_event("a".to_string(), None, 10), Some(10));
    assert_eq!(d.handle_event("a".to_string(), Some(10), 20), Some(10));
    assert_eq!(d.handle_event("b".to_string(), Some(10), 30), Some(30));
    assert_eq!(d.finish_debounce(), Some("b".to_string()));
    assert_eq!(d.finish_debounce(), None);
    assert_eq!(d.handle_event("b".to_string(), Some(30), 40), Some(40));
}

#[test]
fn dynamic_queries_debounce() {
    let mut h = DynamicQueryHandler::new(None);
    assert_eq!(h.handle_event(String::new(), false), QueryAction::Idle);
    assert_eq!(h.handle_event("fo".to_string(), false), QueryAction::WaitMillis(100));
    assert_eq!(h.finish_debounce(), Some("fo".to_string()));
    assert_eq!(h.finish_debounce(), None);
    assert_eq!(h.handle_event("foo".to_string(), true), QueryAction::Run("foo".to_string()));
    assert_eq!(h.finish_debounce(), None);
    assert_eq!(h.handle_event("foo".to_string(), false), QueryAction::Idle);
    assert_eq!(h.handle_event("fo".to_string(), false), QueryAction::WaitMillis(100));
    assert_eq!(h.handle_event("foo".to_string(), false), QueryAction::Idle);
    assert_eq!(h.finish_debounce(), None);
    let mut h = DynamicQueryHandler::new(Some(250));
    assert_eq!(h.handle_event("x".to_string(), false), QueryAction::WaitMillis(250));
}

#[test]
fn directories_come_first_then_paths_in_order() {
    let comps = |p: &str| p.split('/').map(|c| c.as_bytes().to_vec()).collect::<Vec<_>>();
    let entries = vec![
        ("r", comps("r"), true),
        ("r/b.txt", comps("r/b.txt"), false),
        ("r/z", comps("r/z"), true),
        ("r/a.txt", comps("r/a.txt"), false),
        ("r/c/d", comps("r/c/d"), true),
    ];
    assert_eq!(
        helix_lib::picker::order_directory_entries(entries.clone(), &comps("r"), Some("r/..")),
        vec![("r/..", true), ("r/c/d", true), ("r/z", true), ("r/a.txt", false), ("r/b.txt", false)]
    );
    assert_eq!(
        helix_lib::picker::order_directory_entries(entries, &comps("r"), None),
        vec![("r/c/d", true), ("r/z", true), ("r/a.txt", false), ("r/b.txt", false)]
    );
}

#[test]
fn loaded_previews_become_cached_ones() {
    assert_eq!(
        LoadedPreview::Document("text").into_cached_preview(true),
        (CachedPreview::Document("text"), true)
    );
    assert_eq!(
        LoadedPreview::Document("text").into_cached_preview(false),
        (CachedPreview::Document("text"), false)
    );
    let entries = vec![("src/".to_string(), true)];
    assert_eq!(
        LoadedPreview::<&str>::Directory(entries.clone()).into_cached_preview(true),
        (CachedPreview::Directory(entries), false)
    );
    assert_eq!(LoadedPreview::<&str>::Binary.into_cached_preview(true), (CachedPreview::Binary, false));
    assert_eq!(
        LoadedPreview::<&str>::LargeFile.into_cached_preview(true),
        (CachedPreview::LargeFile, false)
    );
    assert_eq!(
        LoadedPreview::<&str>::NotFound.into_cached_preview(true),
        (CachedPreview::NotFound, false)
    );
}

#[test]
fn only_loading_entries_take_a_finished_load() {
    let mut entry = CachedPreview::Loading;
    assert!(store_loaded_preview(&mut entry, LoadedPreview::Document("a"), true));
    assert_eq!(entry, CachedPreview::Document("a"));
    assert!(!store_loaded_preview(&mut entry, LoadedPreview::Document("b"), true));
    assert_eq!(entry, CachedPreview::Document("a"));
    let mut entry = CachedPreview::Loading;
    assert!(!store_loaded_preview(&mut entry, LoadedPreview::<&str>::Binary, true));
    assert_eq!(entry, CachedPreview::Binary);
}

#[test]
fn highlighting_needs_a_document_without_syntax_with_a_language() {
    let doc = CachedPreview::Document("a");
    assert!(needs_highlight(Some(&doc), false, true));
    assert!(!needs_highlight(Some(&doc), true, true));
    assert!(!needs_highlight(Some(&doc), false, false));
    assert!(!needs_highlight(Some(&CachedPreview::<&str>::Loading), false, true));
    assert!(!needs_highlight::<&str>(None, false, true));
}
