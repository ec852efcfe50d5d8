use helix_lib::log::{LogKind, LogLineBuffer, LogStore, DEFAULT_LOG_MAX_LINES};

#[test]
fn log_kind_labels() {
    assert_eq!(LogKind::Helix.label(), "helix");
    assert_eq!(LogKind::Lsp.label(), "lsp");
    assert_eq!(LogKind::Dap.label(), "dap");
}

#[test]
fn buffers_keep_the_last_lines() {
    let mut store = LogStore::new(2);
    assert_eq!(store.max_lines(), 2);
    assert_eq!(store.buffer_content(LogKind::Lsp, "rust-analyzer"), None);
    let event = store.append_line(LogKind::Lsp, "rust-analyzer", "a\n".to_string());
    assert_eq!(event.kind, LogKind::Lsp);
    assert_eq!(event.name, "rust-analyzer");
    assert_eq!(event.line, "a\n");
    store.append_line(LogKind::Lsp, "rust-analyzer", "b\n".to_string());
    store.append_line(LogKind::Lsp, "rust-analyzer", "c\n".to_string());
    assert_eq!(
        store.buffer_content(LogKind::Lsp, "rust-analyzer").as_deref(),
        Some("b\nc\n")
    );
    assert_eq!(store.buffer_content(LogKind::Dap, "rust-analyzer"), None);
}

#[test]
fn zero_line_buffers_stay_empty() {
    let mut store = LogStore::new(0);
    store.append_line(LogKind::Helix, "x", "a\n".to_string());
    assert_eq!(store.buffer_content(LogKind::Helix, "x").as_deref(), Some(""));
}

#[test]
fn ensure_buffer_and_listing() {
    let mut store = LogStore::new(DEFAULT_LOG_MAX_LINES);
    store.ensure_buffer(LogKind::Helix, "helix");
    store.append_line(LogKind::Dap, "lldb", "x".to_string());
    store.ensure_buffer(LogKind::Dap, "lldb");
    assert_eq!(store.buffer_content(LogKind::Dap, "lldb").as_deref(), Some("x"));
    assert_eq!(store.buffer_content(LogKind::Helix, "helix").as_deref(), Some(""));
    let mut names: Vec<(LogKind, String)> =
        store.buffers().into_iter().map(|b| (b.kind, b.name)).collect();
    names.sort_by(|a, b| a.1.cmp(&b.1));
    assert_eq!(
        names,
        vec![(LogKind::Helix, "helix".to_string()), (LogKind::Dap, "lldb".to_string())]
    );
}

#[test]
fn writer_splits_lines() {
    let mut w = LogLineBuffer::new();
    assert_eq!(w.write(b"one\ntw"), vec!["one\n".to_string()]);
    assert_eq!(w.write(b"o\nthree\n\n"), vec!["two\n".to_string(), "three\n".to_string(), "\n".to_string()]);
    assert_eq!(w.write(b"tail"), Vec::<String>::new());
    assert_eq!(w.flush(), Some("tail".to_string()));
    assert_eq!(w.flush(), None);
    assert_eq!(w.write(&[0xff, b'\n']), vec!["\u{fffd}\n".to_string()]);
}

#[test]
fn log_lines_are_formatted() {
    assert_eq!(
        helix_lib::log::format_log_line("2024-01-01T00:00:00.000", "lsp", "Info", "ready"),
        "2024-01-01T00:00:00.000 lsp [Info] ready\n"
    );
}
