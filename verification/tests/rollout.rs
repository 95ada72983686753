use codex_ps::rollout::{parse_session_meta_line, pending_function_call_from_tail,
    PendingFunctionCall};

#[test]
fn read_session_meta_parses_expected_fields() {
    let line = r#"{"type":"session_meta","payload":{"id":"019c2590-5605-7cd1-81b8-8a488af219a3","cwd":"/tmp/example","git":{"commit_hash":"abc123","branch":"main"}}}"#;
    let meta = parse_session_meta_line(line).expect("read_session_meta");
    assert_eq!(meta.id.as_deref(), Some("019c2590-5605-7cd1-81b8-8a488af219a3"));
    assert_eq!(meta.cwd.as_deref(), Some("/tmp/example"));
    assert_eq!(meta.git_branch.as_deref(), Some("main"));
    assert_eq!(meta.git_commit.as_deref(), Some("abc123"));
    assert_eq!(meta.session_source.as_deref(), None);
}

#[test]
fn read_session_meta_parses_subagent_thread_spawn_source() {
    let line = r#"{"type":"session_meta","payload":{"id":"019c266f-631c-77c0-854f-2289c2d2fd8d","source":{"subagent":{"thread_spawn":{"parent_thread_id":"019c2590-5605-7cd1-81b8-8a488af219a3","depth":1}}}}}"#;
    let meta = parse_session_meta_line(line).expect("read_session_meta");
    assert_eq!(meta.session_source.as_deref(), Some("subagent_thread_spawn"));
    assert_eq!(
        meta.subagent_parent_thread_id.as_deref(),
        Some("019c2590-5605-7cd1-81b8-8a488af219a3")
    );
    assert_eq!(meta.subagent_depth, Some(1));
}

#[test]
fn read_session_meta_requires_first_line_type() {
    let line = r#"{"type":"not_session_meta","payload":{}}"#;
    let err = parse_session_meta_line(line).unwrap_err();
    assert!(err.contains("expected first line type=session_meta"));
}

#[test]
fn read_session_meta_parses_plain_string_source() {
    let line = r#"{"type":"session_meta","payload":{"id":"t","source":"vscode"}}"#;
    let meta = parse_session_meta_line(line).expect("read_session_meta");
    assert_eq!(meta.session_source.as_deref(), Some("vscode"));
    assert_eq!(meta.subagent_parent_thread_id, None);
}

#[test]
fn read_session_meta_rejects_unparseable_first_line() {
    let err = parse_session_meta_line("{{nope").unwrap_err();
    assert_eq!(err.as_str(), "parse first JSONL line");
}

#[test]
fn read_pending_function_call_from_tail_detects_pending_call() {
    let text: String = ("{\"type\":\"session_meta\",\"payload\":{\"id\":\"t\"}}\n".to_string() + "{\"type\":\"response_item\",\"payload\":{\"type\":\"function_call\",\"name\":\"exec_command\",\"arguments\":\"{}\",\"call_id\":\"call1\"}}\n");
    let pending = pending_function_call_from_tail(&text, false);
    assert_eq!(
        pending,
        Some(PendingFunctionCall { call_id: "call1".to_string(), name: "exec_command".to_string() })
    );
}

#[test]
fn read_pending_function_call_from_tail_resolves_when_output_present() {
    let text: String = ("{\"type\":\"session_meta\",\"payload\":{\"id\":\"t\"}}\n".to_string() + "{\"type\":\"response_item\",\"payload\":{\"type\":\"function_call\",\"name\":\"exec_command\",\"arguments\":\"{}\",\"call_id\":\"call1\"}}\n" + "{\"type\":\"response_item\",\"payload\":{\"type\":\"function_call_output\",\"call_id\":\"call1\",\"output\":\"ok\"}}\n");
    let pending = pending_function_call_from_tail(&text, false);
    assert_eq!(pending, None);
}

#[test]
fn read_pending_function_call_from_tail_detects_request_user_input_pending() {
    let text: String = ("{\"type\":\"session_meta\",\"payload\":{\"id\":\"t\"}}\n".to_string() + "{\"type\":\"response_item\",\"payload\":{\"type\":\"function_call\",\"name\":\"request_user_input\",\"arguments\":\"{}\",\"call_id\":\"call_ui\"}}\n");
    let pending = pending_function_call_from_tail(&text, false);
    assert_eq!(
        pending,
        Some(PendingFunctionCall {
            call_id: "call_ui".to_string(),
            name: "request_user_input".to_string()
        })
    );
}

#[test]
fn tail_read_that_starts_mid_record_discards_the_fragment() {
    // The fragment before the first newline is half of an older record; only
    // the full lines after it count.
    let text: String = ("ll\",\"call_id\":\"old\"}}\n".to_string() + "{\"type\":\"response_item\",\"payload\":{\"type\":\"function_call\",\"name\":\"exec_command\",\"arguments\":\"{}\",\"call_id\":\"call9\"}}\n");
    let pending = pending_function_call_from_tail(&text, true);
    assert_eq!(
        pending,
        Some(PendingFunctionCall { call_id: "call9".to_string(), name: "exec_command".to_string() })
    );
}

#[test]
fn tail_read_with_no_newline_yields_nothing_rather_than_a_guess() {
    let text = "{\"type\":\"response_item\",\"payload\":{\"type\":\"function_call\",\"na";
    assert_eq!(pending_function_call_from_tail(&text, true), None);
}

#[test]
fn most_recently_opened_unresolved_call_wins() {
    let text: String = ("{\"type\":\"response_item\",\"payload\":{\"type\":\"function_call\",\"name\":\"first_tool\",\"call_id\":\"c1\"}}\n".to_string() + "{\"type\":\"response_item\",\"payload\":{\"type\":\"function_call\",\"name\":\"second_tool\",\"call_id\":\"c2\"}}\n");
    let pending = pending_function_call_from_tail(&text, false);
    assert_eq!(
        pending,
        Some(PendingFunctionCall { call_id: "c2".to_string(), name: "second_tool".to_string() })
    );
}

#[test]
fn read_session_meta_rejects_a_wrongly_typed_field() {
    let line = r#"{"type":"session_meta","payload":{"id":7}}"#;
    let err = parse_session_meta_line(line).unwrap_err();
    assert_eq!(err.as_str(), "parse first JSONL line");
    let line = r#"{"type":"session_meta","payload":{"git":"not-an-object"}}"#;
    let err = parse_session_meta_line(line).unwrap_err();
    assert_eq!(err.as_str(), "parse first JSONL line");
}

#[test]
fn session_meta_null_fields_read_as_absent() {
    let line = r#"{"type":"session_meta","payload":{"id":null,"cwd":"/w","git":null}}"#;
    let meta = parse_session_meta_line(line).expect("parse");
    assert_eq!(meta.id, None);
    assert_eq!(meta.cwd.as_deref(), Some("/w"));
    assert_eq!(meta.git_branch, None);
}
