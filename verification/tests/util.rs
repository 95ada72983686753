use codex_ps::git::GitCache;
use codex_ps::util::{system_time_to_unix_s, truncate_middle};

#[test]
fn truncate_middle_keeps_both_ends_around_an_ellipsis() {
    assert_eq!(truncate_middle("short", 10).as_str(), "short");
    assert_eq!(truncate_middle("abcdefghij", 5).as_str(), "ab…ij");
    assert_eq!(truncate_middle("abcdef", 1).as_str(), "…");
    assert_eq!(truncate_middle("abcdef", 0).as_str(), "…");
    assert_eq!(truncate_middle("abcdef", 6).as_str(), "abcdef");
}

#[test]
fn system_time_to_unix_s_converts_whole_seconds() {
    assert_eq!(system_time_to_unix_s(Some(1234)), Some(1234));
    assert_eq!(system_time_to_unix_s(None), None);
    assert_eq!(system_time_to_unix_s(Some(u64::MAX)), None);
}

#[test]
fn repo_root_probe_outcomes_are_cached_within_the_window() {
    let mut cache = GitCache::new(5);
    let probe = Ok("  /repo/top\n".to_string());
    let (root, err) = cache.repo_root("/repo/top/src", 100, Some(&probe));
    assert_eq!(root.as_deref(), Some("/repo/top"));
    assert_eq!(err, None);
    // Within the TTL the cache answers without a probe.
    let (root, err) = cache.repo_root("/repo/top/src", 104, None);
    assert_eq!(root.as_deref(), Some("/repo/top"));
    assert_eq!(err, None);
    // After the TTL a missing probe is reported as a diagnostic, never a panic.
    let (root, err) = cache.repo_root("/repo/top/src", 106, None);
    assert_eq!(root, None);
    assert_eq!(err.as_deref(), Some("git probe error"));
}

#[test]
fn failed_git_probes_are_cached_too() {
    let mut cache = GitCache::new(5);
    let probe = Err("git rev-parse failed".to_string());
    let (root, err) = cache.repo_root("/not/a/repo", 100, Some(&probe));
    assert_eq!(root, None);
    assert_eq!(err.as_deref(), Some("git rev-parse failed"));
    let (root, err) = cache.repo_root("/not/a/repo", 101, None);
    assert_eq!(root, None);
    assert_eq!(err, None);
    let probe = Ok("\n".to_string());
    let (root, err) = cache.repo_root("/empty", 100, Some(&probe));
    assert_eq!(root, None);
    assert_eq!(err.as_deref(), Some("git rev-parse returned empty"));
}
