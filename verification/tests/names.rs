use codex_ps::names::{normalize_name_opt, NamesStore, SessionNameKey};

fn key(host: &str, thread_id: &str) -> SessionNameKey {
    SessionNameKey { host: host.to_string(), thread_id: thread_id.to_string() }
}

fn log_lines() -> Vec<String> {
    vec![
        r#"{"host":"local","thread_id":"t1","name":"first"}"#.to_string(),
        r#"{"host":"local","thread_id":"t1","name":"second"}"#.to_string(),
        r#"{"host":"local","thread_id":"t2","name":"x"}"#.to_string(),
        r#"{"host":"local","thread_id":"t1","name":null}"#.to_string(),
        r#"{"host":"local","thread_id":"t1","name":"final"}"#.to_string(),
    ]
}

#[test]
fn refresh_prefers_latest_entry_and_supports_clear() {
    let mut store = NamesStore::new("session_names.jsonl".to_string());
    store.refresh_from_lines(Some(1), &log_lines()).expect("refresh");
    assert_eq!(store.get_cached(&key("local", "t1")).map(|s| s.as_str()), Some("final"));
    assert_eq!(store.get_cached(&key("local", "t2")).map(|s| s.as_str()), Some("x"));
}

#[test]
fn clears_cache_when_file_disappears() {
    let mut store = NamesStore::new("session_names.jsonl".to_string());
    let lines = vec![r#"{"host":"local","thread_id":"t1","name":"x"}"#.to_string()];
    store.refresh_from_lines(Some(1), &lines).expect("refresh");
    assert_eq!(store.get_cached(&key("local", "t1")).map(|s| s.as_str()), Some("x"));
    store.note_missing();
    assert_eq!(store.get_cached(&key("local", "t1")), None);
}

#[test]
fn set_trims_and_writes_record() {
    let mut store = NamesStore::new("session_names.jsonl".to_string());
    let w = store.set(key("local", "t1"), "  hello world  ".to_string());
    assert_eq!(w.normalized.as_deref(), Some("hello world"));
    assert_eq!(store.get_cached(&key("local", "t1")).map(|s| s.as_str()), Some("hello world"));
    assert!(w.line.contains(r#""name":"hello world""#));
}

#[test]
fn set_empty_string_behaves_like_clear() {
    let mut store = NamesStore::new("session_names.jsonl".to_string());
    let w = store.set(key("local", "t1"), "x".to_string());
    assert_eq!(w.normalized.as_deref(), Some("x"));
    assert_eq!(store.get_cached(&key("local", "t1")).map(|s| s.as_str()), Some("x"));
    let w = store.set(key("local", "t1"), "   ".to_string());
    assert!(w.normalized.is_none());
    assert_eq!(store.get_cached(&key("local", "t1")), None);
}

#[test]
fn set_encodes_one_self_contained_log_line() {
    let mut store = NamesStore::new("session_names.jsonl".to_string());
    let w = store.set(key("local", "t1"), "release triage".to_string());
    assert_eq!(
        w.line.as_str(),
        r#"{"host":"local","thread_id":"t1","name":"release triage"}"#
    );
    let line = store.clear(key("local", "t1"));
    assert_eq!(line.as_str(), r#"{"host":"local","thread_id":"t1","name":null}"#);
}

#[test]
fn set_escapes_quotes_in_encoded_names() {
    let mut store = NamesStore::new("session_names.jsonl".to_string());
    let w = store.set(key("local", "t1"), "say \"hi\"".to_string());
    assert_eq!(
        w.line.as_str(),
        r#"{"host":"local","thread_id":"t1","name":"say \"hi\""}"#
    );
    // The encoded line replays to the name that was set.
    let mut second = NamesStore::new("session_names.jsonl".to_string());
    second.refresh_from_lines(Some(1), &vec![w.line]).expect("refresh");
    assert_eq!(second.get_cached(&key("local", "t1")).map(|s| s.as_str()), Some("say \"hi\""));
}

#[test]
fn refresh_fails_loud_on_a_corrupt_line() {
    let mut store = NamesStore::new("session_names.jsonl".to_string());
    store
        .refresh_from_lines(Some(1), &vec![
            r#"{"host":"local","thread_id":"t1","name":"x"}"#.to_string(),
        ])
        .expect("refresh");
    let bad = vec![
        r#"{"host":"local","thread_id":"t1","name":"x"}"#.to_string(),
        "not json at all".to_string(),
    ];
    let err = store.refresh_from_lines(Some(2), &bad).unwrap_err();
    assert_eq!(err.as_str(), "parse session_names.jsonl line 2");
    // The cache is reset to empty, not left silently stale.
    assert_eq!(store.get_cached(&key("local", "t1")), None);
}

#[test]
fn refresh_skips_an_unchanged_modification_time() {
    let mut store = NamesStore::new("session_names.jsonl".to_string());
    store.refresh_from_lines(Some(7), &log_lines()).expect("refresh");
    // Same mtime: the lines are not even looked at.
    store.refresh_from_lines(Some(7), &vec!["garbage".to_string()]).expect("refresh");
    assert_eq!(store.get_cached(&key("local", "t1")).map(|s| s.as_str()), Some("final"));
}

#[test]
fn normalize_name_trims_and_drops_blank_names() {
    assert_eq!(normalize_name_opt(Some("  a b  ".to_string())).as_deref(), Some("a b"));
    assert_eq!(normalize_name_opt(Some("   ".to_string())), None);
    assert_eq!(normalize_name_opt(None), None);
}
