use codex_ps::collector::classify_status;
use codex_ps::model::SessionStatus;
use codex_ps::rollout::PendingFunctionCall;

#[test]
fn classify_status_unknown_when_no_activity_time() {
    let now: i64 = 1000;
    let (status, reason) = classify_status(now, None, None);
    assert!(matches!(status, SessionStatus::Unknown));
    assert_eq!(reason.as_str(), "no rollout mtime");
}

#[test]
fn classify_status_tolerates_small_future_skew() {
    let now: i64 = 1000;
    let (status, _reason) = classify_status(now, Some(now + 1), None);
    assert!(matches!(status, SessionStatus::Working));
}

#[test]
fn classify_status_marks_large_future_skew_as_unknown() {
    let now: i64 = 1000;
    let (status, reason) = classify_status(now, Some(now + 2 + 5), None);
    assert!(matches!(status, SessionStatus::Unknown));
    assert_eq!(reason.as_str(), "rollout mtime is in the future");
}

#[test]
fn classify_status_working_when_recent() {
    let now: i64 = 1000;
    let (status, _reason) = classify_status(now, Some(now - 10), None);
    assert!(matches!(status, SessionStatus::Working));
}

#[test]
fn classify_status_unknown_when_uncertain_window() {
    let now: i64 = 1000;
    let (status, _reason) = classify_status(now, Some(now - 30), None);
    assert!(matches!(status, SessionStatus::Unknown));
}

#[test]
fn classify_status_waiting_when_old() {
    let now: i64 = 1000;
    let (status, _reason) = classify_status(now, Some(now - 61), None);
    assert!(matches!(status, SessionStatus::Waiting));
}

#[test]
fn classify_status_waiting_when_pending_user_input_call() {
    let now: i64 = 1000;
    let pending = PendingFunctionCall {
        call_id: "call_ui".to_string(),
        name: "request_user_input".to_string(),
    };
    let (status, reason) = classify_status(now, Some(now - 5), Some(&pending));
    assert!(matches!(status, SessionStatus::Waiting));
    assert_eq!(reason.as_str(), "waiting for user input (call_id=call_ui)");
}

#[test]
fn classify_status_working_when_pending_tool_call() {
    let now: i64 = 1000;
    let pending = PendingFunctionCall {
        call_id: "call_exec".to_string(),
        name: "exec_command".to_string(),
    };
    let (status, reason) = classify_status(now, Some(now - 70), Some(&pending));
    assert!(matches!(status, SessionStatus::Working));
    assert_eq!(reason.as_str(), "pending tool call: exec_command (call_id=call_exec)");
}

#[test]
fn classify_status_reason_reports_exact_age() {
    let now: i64 = 1000;
    let (status, reason) = classify_status(now, Some(now - 10), None);
    assert!(matches!(status, SessionStatus::Working));
    assert_eq!(reason.as_str(), "recent rollout write: 10s");
    let (status, reason) = classify_status(now, Some(now - 30), None);
    assert!(matches!(status, SessionStatus::Unknown));
    assert_eq!(reason.as_str(), "uncertain (no rollout writes for 30s)");
    let (status, reason) = classify_status(now, Some(now - 61), None);
    assert!(matches!(status, SessionStatus::Waiting));
    assert_eq!(reason.as_str(), "idle (no rollout writes for 61s)");
}
