use focuscube::filesave::{NotifyKind, SaveFilter};
use focuscube::focus::FocusTracker;
use focuscube::merge::merge_streams;
use focuscube::WorkEvent;

fn app(name: &str, pid: u32) -> WorkEvent {
    WorkEvent::AppFocused {
        name: name.to_string(),
        pid,
    }
}

fn saved(path: &str) -> WorkEvent {
    WorkEvent::FileSaved {
        path: path.to_string(),
    }
}

fn default_filter() -> SaveFilter {
    SaveFilter::new(vec![
        "rs".to_string(),
        "js".to_string(),
        "py".to_string(),
        "kicad_pcb".to_string(),
    ])
}

#[test]
fn dedup_repeated_poll_emits_twice() {
    let mut t = FocusTracker::new();
    let e1 = t.observe(Some(("Safari".to_string(), 100)));
    let e2 = t.observe(Some(("Safari".to_string(), 100)));
    let e3 = t.observe(Some(("Terminal".to_string(), 200)));
    assert_eq!(e1, Some(app("Safari", 100)));
    assert_eq!(e2, None);
    assert_eq!(e3, Some(app("Terminal", 200)));
}

#[test]
fn dedup_failed_query_is_skipped() {
    let mut t = FocusTracker::new();
    let e1 = t.observe(None);
    let e2 = t.observe(Some(("Finder".to_string(), 50)));
    assert_eq!(e1, None);
    assert_eq!(e2, Some(app("Finder", 50)));
}

#[test]
fn dedup_empty_name_is_no_answer() {
    let mut t = FocusTracker::new();
    assert_eq!(t.observe(Some(("Safari".to_string(), 100))), Some(app("Safari", 100)));
    assert_eq!(t.observe(Some((String::new(), 999))), None);
    // the empty answer did not become the last-reported state
    assert_eq!(t.observe(Some(("Safari".to_string(), 100))), None);
}

#[test]
fn dedup_pid_zero_is_a_real_pid() {
    let mut t = FocusTracker::new();
    // pid 0 differs from the fresh sentinel, so it is reported
    assert_eq!(t.observe(Some(("kernel".to_string(), 0))), Some(app("kernel", 0)));
    assert_eq!(t.observe(Some(("kernel".to_string(), 0))), None);
}

#[test]
fn filter_modify_with_listed_extension_emits() {
    let f = default_filter();
    let evs = f.events_for(NotifyKind::Modified, &vec!["/proj/main.rs".to_string()]);
    assert_eq!(evs, vec![saved("/proj/main.rs")]);
}

#[test]
fn filter_created_kind_emits_nothing() {
    let f = default_filter();
    let evs = f.events_for(NotifyKind::Created, &vec!["/proj/main.rs".to_string()]);
    assert_eq!(evs, Vec::<WorkEvent>::new());
}

#[test]
fn filter_unlisted_extension_emits_nothing() {
    let f = default_filter();
    let evs = f.events_for(NotifyKind::Modified, &vec!["/proj/readme.md".to_string()]);
    assert_eq!(evs, Vec::<WorkEvent>::new());
}

#[test]
fn filter_no_extension_is_skipped() {
    let f = default_filter();
    let evs = f.events_for(
        NotifyKind::Modified,
        &vec!["/proj/Makefile".to_string(), "/proj/.bashrc".to_string(), "/proj/".to_string()],
    );
    assert_eq!(evs, Vec::<WorkEvent>::new());
}

#[test]
fn filter_keeps_path_order_and_repetition() {
    let f = default_filter();
    let evs = f.events_for(
        NotifyKind::Modified,
        &vec![
            "/a.rs".to_string(),
            "/b.md".to_string(),
            "/c.py".to_string(),
            "/a.rs".to_string(),
        ],
    );
    assert_eq!(evs, vec![saved("/a.rs"), saved("/c.py"), saved("/a.rs")]);
}

#[test]
fn encode_app_focused_exact_text() {
    let e = app("Safari", 100);
    assert_eq!(e.to_json(), "{\"type\":\"AppFocused\",\"name\":\"Safari\",\"pid\":100}");
}

#[test]
fn encode_file_saved_exact_text() {
    let e = saved("/a/b.py");
    assert_eq!(e.to_json(), "{\"type\":\"FileSaved\",\"path\":\"/a/b.py\"}");
}

#[test]
fn encode_escapes_quote_backslash_and_control() {
    let e = app("a\"b\\c\nd", 1);
    assert_eq!(
        e.to_json(),
        "{\"type\":\"AppFocused\",\"name\":\"a\\\"b\\\\c\\u000ad\",\"pid\":1}"
    );
}

#[test]
fn round_trip_file_saved() {
    let e = saved("/a/b.py");
    assert_eq!(WorkEvent::from_json(&e.to_json()), Some(e));
}

#[test]
fn round_trip_app_focused_extremes() {
    for e in [
        app("Safari", 100),
        app("x", 0),
        app("\u{6709}\u{8da3}", u32::MAX),
        app("a\"b\\c\nd\u{1f}", 7),
        saved("C:\\files\\a.rs"),
        saved(""),
    ] {
        assert_eq!(WorkEvent::from_json(&e.to_json()), Some(e));
    }
}

#[test]
fn decode_handwritten_canonical_text() {
    assert_eq!(
        WorkEvent::from_json("{\"type\":\"AppFocused\",\"name\":\"Finder\",\"pid\":50}"),
        Some(app("Finder", 50))
    );
}

#[test]
fn decode_rejects_malformed_text() {
    for bad in [
        "",
        "hello",
        "{\"type\":\"AppFocused\",\"name\":\"Safari\",\"pid\":100",
        "{\"type\":\"Other\",\"name\":\"Safari\",\"pid\":100}",
        "{\"type\":\"AppFocused\",\"name\":\"Safari\",\"pid\":}",
        "{\"type\":\"AppFocused\",\"name\":\"Safari\",\"pid\":100} ",
        "{\"type\":\"AppFocused\",\"name\":\"Safari\",\"pid\":4294967296}",
        "{\"type\":\"FileSaved\",\"path\":\"unterminated}",
    ] {
        assert_eq!(WorkEvent::from_json(bad), None, "accepted: {bad}");
    }
}

#[test]
fn filter_hidden_file_with_second_dot_has_extension() {
    let f = default_filter();
    let evs = f.events_for(
        NotifyKind::Modified,
        &vec!["/proj/.hidden.rs".to_string(), "/proj/a.tar.py".to_string()],
    );
    assert_eq!(evs, vec![saved("/proj/.hidden.rs"), saved("/proj/a.tar.py")]);
}

#[test]
fn decode_unescapes_control_sequence() {
    assert_eq!(
        WorkEvent::from_json("{\"type\":\"FileSaved\",\"path\":\"a\\u0009b\"}"),
        Some(saved("a\tb"))
    );
}

#[test]
fn decode_rejects_non_canonical_escapes() {
    for bad in [
        // \u escapes are canonical only below 0x20
        "{\"type\":\"FileSaved\",\"path\":\"\\u0041\"}",
        "{\"type\":\"FileSaved\",\"path\":\"\\u00g1\"}",
        "{\"type\":\"FileSaved\",\"path\":\"\\q\"}",
        "{\"type\":\"FileSaved\",\"path\":\"\\u01ff\"}",
    ] {
        assert_eq!(WorkEvent::from_json(bad), None, "accepted: {bad}");
    }
}

#[test]
fn merge_of_empty_streams_is_empty() {
    let merged = merge_streams(Vec::new(), Vec::new(), Vec::new());
    assert_eq!(merged, Vec::<WorkEvent>::new());
}

#[test]
fn merge_drains_both_streams_in_order() {
    let a = vec![app("Safari", 1), app("Terminal", 2)];
    let b = vec![saved("/x.rs"), saved("/y.py")];
    let picks = vec![true, false, false, true];
    let merged = merge_streams(a.clone(), b.clone(), picks);
    assert_eq!(merged.len(), 4);
    // each source's order survives the interleaving
    let pos = |e: &WorkEvent| merged.iter().position(|m| m == e).unwrap();
    assert!(pos(&a[0]) < pos(&a[1]));
    assert!(pos(&b[0]) < pos(&b[1]));
}

#[test]
fn merge_burst_on_one_stream_suppresses_nothing() {
    let a = vec![app("Safari", 1)];
    let b = vec![saved("/1.rs"), saved("/2.rs"), saved("/3.rs"), saved("/4.rs")];
    let picks = vec![false; 5];
    let merged = merge_streams(a.clone(), b, picks);
    assert!(merged.contains(&a[0]));
    assert_eq!(merged.len(), 5);
}
