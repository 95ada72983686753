use codex_ps::discovery::{extract_thread_id_from_rollout_path, parse_lsof_processes};

#[test]
fn extract_thread_id_from_rollout_filename() {
    let p = "/Users/aelaguiz/.codex/sessions/2026/02/03/rollout-2026-02-03T16-12-22-019c2590-5605-7cd1-81b8-8a488af219a3.jsonl";
    assert_eq!(
        extract_thread_id_from_rollout_path(p).as_deref(),
        Some("019c2590-5605-7cd1-81b8-8a488af219a3")
    );
}

#[test]
fn extract_thread_id_rejects_non_uuid_suffix() {
    let p = "/tmp/rollout-2026-02-03T00-00-00-not-a-uuid.jsonl";
    assert!(extract_thread_id_from_rollout_path(p).is_none());
}

#[test]
fn extract_thread_id_lowercases_hex_digits() {
    let p = "/tmp/rollout-2026-02-03T00-00-00-019C2590-5605-7CD1-81B8-8A488AF219A3.jsonl";
    assert_eq!(
        extract_thread_id_from_rollout_path(p).as_deref(),
        Some("019c2590-5605-7cd1-81b8-8a488af219a3")
    );
}

#[test]
fn lsof_output_yields_processes_holding_rollouts() {
    let stdout = "p100\nfcwd\nn/home/u/proj\nftxt\nn/usr/bin/codex\nf0\nn/dev/ttys001\nf3\nn/home/u/.codex/sessions/rollout-2026-02-03T16-12-22-019c2590-5605-7cd1-81b8-8a488af219a3.jsonl\np200\nfcwd\nn/tmp\n";
    let procs = parse_lsof_processes(stdout, "/home/u/.codex");
    assert_eq!(procs.len(), 1);
    assert_eq!(procs[0].pid, 100);
    assert_eq!(procs[0].cwd.as_deref(), Some("/home/u/proj"));
    assert_eq!(procs[0].exe.as_deref(), Some("/usr/bin/codex"));
    assert_eq!(procs[0].tty.as_deref(), Some("ttys001"));
    assert_eq!(procs[0].rollout_paths.len(), 1);
    assert!(procs[0].rollout_paths[0].ends_with(".jsonl"));
}

#[test]
fn lsof_output_excludes_desktop_app_sessions() {
    let stdout = "p100\nftxt\nn/Applications/Codex.app/Contents/MacOS/codex\nf3\nn/home/u/.codex/sessions/rollout-2026-02-03T16-12-22-019c2590-5605-7cd1-81b8-8a488af219a3.jsonl\n";
    let procs = parse_lsof_processes(stdout, "/home/u/.codex");
    assert_eq!(procs.len(), 0);
}

#[test]
fn lsof_output_ignores_rollouts_outside_scope_root() {
    let stdout = "p100\nf3\nn/elsewhere/rollout-2026-02-03T16-12-22-019c2590-5605-7cd1-81b8-8a488af219a3.jsonl\n";
    let procs = parse_lsof_processes(stdout, "/home/u/.codex");
    assert_eq!(procs.len(), 0);
}
