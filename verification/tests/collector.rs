use codex_ps::collector::{parse_hosts, CollectObservation, Collector, FileReading,
    LocalObservation, RemoteOutcome, TailObservation};
use codex_ps::model::{CodexHome, SessionRow, SessionStatus, Snapshot};
use codex_ps::names::SessionNameKey;

fn new_collector() -> Collector {
    Collector::new(
        CodexHome { root: "/tmp/scope".to_string() },
        "/tmp/session_names.jsonl".to_string(),
        "ssh".to_string(),
        "codex-ps".to_string(),
        6000,
    )
}

fn remote_row(host: &str, thread_id: &str, ts: i64) -> SessionRow {
    SessionRow {
        host: host.to_string(),
        thread_id: thread_id.to_string(),
        pids: vec![7],
        tty: None,
        title: None,
        name: None,
        cwd: None,
        repo_root: None,
        git_branch: None,
        git_commit: None,
        session_source: None,
        forked_from_id: None,
        subagent_parent_thread_id: None,
        subagent_depth: None,
        status: SessionStatus::Working,
        last_activity_unix_s: Some(ts),
        rollout_path: None,
        debug: None,
    }
}

fn observation(remote: Vec<RemoteOutcome>) -> CollectObservation {
    CollectObservation {
        now_unix_s: 1000,
        local: Some(Ok(LocalObservation { procs: Vec::new(), facts: Vec::new() })),
        remote,
        names_log: FileReading::Missing,
        titles_file: FileReading::Missing,
    }
}

fn remote_snapshot(rows: Vec<SessionRow>) -> Snapshot {
    Snapshot {
        generated_at_unix_s: 999,
        host: "local".to_string(),
        sessions: rows,
        host_errors: None,
        warnings: None,
    }
}

#[test]
fn remote_failure_never_suppresses_another_hosts_rows() {
    let mut c = new_collector();
    let hosts = vec!["local".to_string(), "h1".to_string(), "h2".to_string()];
    let obs = observation(vec![
        RemoteOutcome { host: "h1".to_string(), snapshot: Err("boom".to_string()) },
        RemoteOutcome {
            host: "h2".to_string(),
            // A misconfigured remote echoes `local`; the caller relabels.
            snapshot: Ok(remote_snapshot(vec![remote_row("local", "t9", 800)])),
        },
    ]);
    let snap = c.collect(&hosts, false, obs);
    assert_eq!(snap.sessions.len(), 1);
    assert_eq!(snap.sessions[0].host.as_str(), "h2");
    assert_eq!(snap.sessions[0].thread_id.as_str(), "t9");
    let errors = snap.host_errors.expect("host errors present");
    assert_eq!(errors.len(), 1);
    assert_eq!(errors[0].host.as_str(), "h1");
    assert_eq!(errors[0].error.as_str(), "boom");
    assert_eq!(snap.host.as_str(), "local,h1,h2");
    assert_eq!(snap.generated_at_unix_s, 1000);
}

#[test]
fn resubmitting_an_identical_refresh_yields_the_same_snapshot() {
    let mut c = new_collector();
    let hosts = vec!["local".to_string(), "h2".to_string()];
    let make_obs = || {
        observation(vec![RemoteOutcome {
            host: "h2".to_string(),
            snapshot: Ok(remote_snapshot(vec![
                remote_row("local", "t1", 800),
                remote_row("local", "t2", 900),
            ])),
        }])
    };
    let first = c.collect(&hosts, false, make_obs());
    let second = c.collect(&hosts, false, make_obs());
    assert_eq!(first.sessions.len(), second.sessions.len());
    for (a, b) in first.sessions.iter().zip(second.sessions.iter()) {
        assert_eq!(a.host, b.host);
        assert_eq!(a.thread_id, b.thread_id);
        assert_eq!(a.name, b.name);
        assert_eq!(a.last_activity_unix_s, b.last_activity_unix_s);
        assert!(a.status == b.status);
    }
    assert_eq!(first.host, second.host);
}

#[test]
fn collected_rows_are_stamped_from_the_name_store() {
    let mut c = new_collector();
    let hosts = vec!["local".to_string(), "h2".to_string()];
    let key = SessionNameKey { host: "h2".to_string(), thread_id: "t9".to_string() };
    let w = c.set_session_name(key, "my run".to_string());
    assert_eq!(w.normalized.as_deref(), Some("my run"));
    // The worker appended the returned line to the log; the next cycle reads
    // it back and stamps the rows from the replayed map.
    let mut obs = observation(vec![RemoteOutcome {
        host: "h2".to_string(),
        snapshot: Ok(remote_snapshot(vec![remote_row("local", "t9", 800)])),
    }]);
    obs.names_log = FileReading::Present { mtime_unix_s: Some(1), content: Some(vec![w.line]) };
    let snap = c.collect(&hosts, false, obs);
    assert_eq!(snap.sessions.len(), 1);
    assert_eq!(snap.sessions[0].name.as_deref(), Some("my run"));
}

#[test]
fn snapshot_rows_sort_most_recent_first_with_deterministic_ties() {
    let mut c = new_collector();
    let hosts = vec!["local".to_string(), "h2".to_string()];
    let obs = observation(vec![RemoteOutcome {
        host: "h2".to_string(),
        snapshot: Ok(remote_snapshot(vec![
            remote_row("local", "old", 100),
            remote_row("local", "new", 900),
            remote_row("local", "b", 500),
            remote_row("local", "a", 500),
        ])),
    }]);
    let snap = c.collect(&hosts, false, obs);
    let ids: Vec<&str> = snap.sessions.iter().map(|r| r.thread_id.as_str()).collect();
    assert_eq!(ids, vec!["new", "a", "b", "old"]);
}

#[test]
fn pending_hint_is_cached_per_path_and_modification_time() {
    let mut c = new_collector();
    let tail = TailObservation {
        started_mid_file: false,
        text: "{\"type\":\"response_item\",\"payload\":{\"type\":\"function_call\",\"name\":\"exec_command\",\"call_id\":\"c1\"}}\n".to_string(),
    };
    assert!(c.tail_scan_needed("/tmp/r.jsonl", Some(5)));
    let first = c.pending_hint("/tmp/r.jsonl", Some(5), Some(&tail));
    assert_eq!(first.as_ref().map(|p| p.name.as_str()), Some("exec_command"));
    // Unchanged file: no tail reading is needed, the cache answers.
    assert!(!c.tail_scan_needed("/tmp/r.jsonl", Some(5)));
    let second = c.pending_hint("/tmp/r.jsonl", Some(5), None);
    assert_eq!(second.as_ref().map(|p| p.name.as_str()), Some("exec_command"));
    // A new modification time invalidates the entry.
    assert!(c.tail_scan_needed("/tmp/r.jsonl", Some(6)));
    let third = c.pending_hint("/tmp/r.jsonl", Some(6), None);
    assert_eq!(third, None);
}

#[test]
fn parse_hosts_expands_the_selector() {
    let all = parse_hosts("ALL");
    assert_eq!(all, vec!["local".to_string(), "home".to_string(), "amirs-work-studio".to_string()]);
    assert_eq!(parse_hosts(""), vec!["local".to_string()]);
    assert_eq!(parse_hosts("  "), vec!["local".to_string()]);
    assert_eq!(parse_hosts("h1, h2,h1, ,local"), vec![
        "h1".to_string(),
        "h2".to_string(),
        "local".to_string(),
    ]);
    assert_eq!(parse_hosts(","), vec!["local".to_string()]);
}

#[test]
fn unparseable_titles_file_is_a_visible_warning() {
    let mut c = new_collector();
    let hosts = vec!["local".to_string()];
    let mut obs = observation(Vec::new());
    obs.titles_file = FileReading::Present {
        mtime_unix_s: Some(1),
        content: Some("{broken".to_string()),
    };
    let snap = c.collect(&hosts, false, obs);
    let warnings = snap.warnings.expect("warnings present");
    assert_eq!(warnings.len(), 1);
    assert_eq!(
        warnings[0].as_str(),
        "parse codex global state JSON: /tmp/scope/.codex-global-state.json"
    );
}
