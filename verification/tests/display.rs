use codex_ps::display::{group_sessions_for_display, RefreshThrottle};
use codex_ps::model::{SessionRow, SessionStatus};

fn row(thread_id: &str, name: Option<&str>, last_activity_unix_s: Option<i64>) -> SessionRow {
    SessionRow {
        host: "local".to_string(),
        thread_id: thread_id.to_string(),
        pids: Vec::new(),
        tty: None,
        title: Some("t".to_string()),
        name: name.map(|s| s.to_string()),
        cwd: None,
        repo_root: None,
        git_branch: None,
        git_commit: None,
        session_source: None,
        forked_from_id: None,
        subagent_parent_thread_id: None,
        subagent_depth: None,
        status: SessionStatus::Waiting,
        last_activity_unix_s,
        rollout_path: None,
        debug: None,
    }
}

fn subagent_row(thread_id: &str, parent: &str, status: SessionStatus) -> SessionRow {
    let mut r = row(thread_id, None, Some(50));
    r.subagent_parent_thread_id = Some(parent.to_string());
    r.subagent_depth = Some(1);
    r.status = status;
    r
}

#[test]
fn named_rows_sort_above_unnamed_rows() {
    let named_old = row("a", Some("release triage"), Some(100));
    let unnamed_new = row("b", None, Some(200));
    let out = group_sessions_for_display(&vec![unnamed_new, named_old], false);
    assert_eq!(out.len(), 2);
    assert_eq!(out[0].root.thread_id.as_str(), "a");
    assert_eq!(out[1].root.thread_id.as_str(), "b");
}

#[test]
fn group_status_is_the_most_severe_of_root_and_subagents() {
    let root = row("a", None, Some(100));
    let sub = subagent_row("b", "a", SessionStatus::Working);
    let out = group_sessions_for_display(&vec![root, sub], false);
    assert_eq!(out.len(), 1);
    assert_eq!(out[0].root.thread_id.as_str(), "a");
    assert!(matches!(out[0].status, SessionStatus::Working));
    assert_eq!(out[0].subagents.total, 1);
    assert_eq!(out[0].subagents.working, 1);
    assert_eq!(out[0].subagents.waiting, 0);
    assert_eq!(out[0].subagents.unknown, 0);
}

#[test]
fn group_activity_is_the_most_recent_of_root_and_subagents() {
    let root = row("a", None, Some(100));
    let mut sub = subagent_row("b", "a", SessionStatus::Waiting);
    sub.last_activity_unix_s = Some(900);
    let out = group_sessions_for_display(&vec![root, sub], false);
    assert_eq!(out.len(), 1);
    assert_eq!(out[0].last_activity_unix_s, Some(900));
}

#[test]
fn subagent_with_absent_parent_forms_its_own_group() {
    let orphan = subagent_row("b", "missing-parent", SessionStatus::Working);
    let out = group_sessions_for_display(&vec![orphan], false);
    assert_eq!(out.len(), 1);
    assert_eq!(out[0].root.thread_id.as_str(), "b");
}

#[test]
fn same_thread_id_on_two_hosts_is_never_merged() {
    let a = row("t", None, Some(100));
    let mut b = subagent_row("s", "t", SessionStatus::Working);
    b.host = "remotebox".to_string();
    // The parent id exists only on `local`, so the remote row roots itself.
    let out = group_sessions_for_display(&vec![a, b], false);
    assert_eq!(out.len(), 2);
}

#[test]
fn equal_keys_break_ties_by_host_then_thread_id() {
    let a = row("bb", None, Some(100));
    let b = row("aa", None, Some(100));
    let out = group_sessions_for_display(&vec![a, b], false);
    assert_eq!(out[0].root.thread_id.as_str(), "aa");
    assert_eq!(out[1].root.thread_id.as_str(), "bb");
}

#[test]
fn at_most_one_refresh_is_ever_in_flight() {
    let mut t = RefreshThrottle::new(1000);
    assert!(t.timer_due(0));
    assert!(t.request(0));
    // A second tick while one is outstanding is a no-op.
    assert!(!t.request(0));
    assert!(!t.request(5000));
    t.note_outcome();
    // Not due again until the interval has passed since the last send.
    assert!(!t.timer_due(500));
    assert!(t.timer_due(1000));
    assert!(t.request(1000));
}
