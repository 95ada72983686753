use vstd::prelude::*;

verus! {

/// Classification of a session's current activity, ordered by severity
/// for aggregation: Working > Unknown > Waiting.
#[derive(Clone, Copy, Debug, PartialEq, Eq, Structural)]
pub enum SessionStatus {
    Working,
    Waiting,
    Unknown,
}

/// Severity rank used when folding several rows into one display group.
pub open spec fn status_severity(s: SessionStatus) -> int {
    match s {
        SessionStatus::Working => 2,
        SessionStatus::Unknown => 1,
        SessionStatus::Waiting => 0,
    }
}

pub open spec fn status_of_severity(n: int) -> SessionStatus {
    if n == 2 {
        SessionStatus::Working
    } else if n == 1 {
        SessionStatus::Unknown
    } else {
        SessionStatus::Waiting
    }
}

impl SessionStatus {
    /// Executable severity rank, equal to the spec-level one.
    pub fn severity(&self) -> (r: u8)
        ensures
            r as int == status_severity(*self),
    {
        match self {
            SessionStatus::Working => 2,
            SessionStatus::Unknown => 1,
            SessionStatus::Waiting => 0,
        }
    }
}

/// The scope root under which transcript files count as sessions.
#[derive(Clone, Debug)]
pub struct CodexHome {
    pub root: String,
}

/// Extra per-row diagnostics, populated only when debug output is requested.
#[derive(Clone, Debug, Default)]
pub struct SessionDebug {
    pub status_reason: Option<String>,
    pub process_command_sample: Option<String>,
    pub proc_cwd_source: Option<String>,
    pub meta_parse_error: Option<String>,
    pub meta_id_mismatch: Option<String>,
    pub repo_probe_error: Option<String>,
    pub title_source: Option<String>,
}

/// One discovered session thread, rebuilt from scratch on every collection.
#[derive(Clone, Debug)]
pub struct SessionRow {
    pub host: String,
    pub thread_id: String,
    pub pids: Vec<i32>,
    pub tty: Option<String>,
    pub title: Option<String>,
    pub name: Option<String>,
    pub cwd: Option<String>,
    pub repo_root: Option<String>,
    pub git_branch: Option<String>,
    pub git_commit: Option<String>,
    pub session_source: Option<String>,
    pub forked_from_id: Option<String>,
    pub subagent_parent_thread_id: Option<String>,
    pub subagent_depth: Option<i32>,
    pub status: SessionStatus,
    pub last_activity_unix_s: Option<i64>,
    pub rollout_path: Option<String>,
    pub debug: Option<SessionDebug>,
}

/// A collection failure scoped to one host; other hosts still succeed.
#[derive(Clone, Debug)]
pub struct HostError {
    pub host: String,
    pub error: String,
}

/// One complete, timestamped collection result across all requested hosts.
#[derive(Clone, Debug)]
pub struct Snapshot {
    pub generated_at_unix_s: i64,
    pub host: String,
    pub sessions: Vec<SessionRow>,
    pub host_errors: Option<Vec<HostError>>,
    pub warnings: Option<Vec<String>>,
}

/// Metadata declared by a transcript file's first record.
#[derive(Clone, Debug)]
pub struct SessionMeta {
    pub id: Option<String>,
    pub forked_from_id: Option<String>,
    pub cwd: Option<String>,
    pub git_branch: Option<String>,
    pub git_commit: Option<String>,
    pub session_source: Option<String>,
    pub subagent_parent_thread_id: Option<String>,
    pub subagent_depth: Option<i32>,
}

/// Accumulator for all processes sharing one thread id.
#[derive(Clone, Debug)]
pub struct SessionBuilder {
    pub thread_id: String,
    pub pids: Vec<i32>,
    pub tty: Option<String>,
    pub proc_cwd: Option<String>,
    pub rollout_path: Option<String>,
    pub proc_command_sample: Option<String>,
}


/// A plain view of an optional text.
pub open spec fn opt_view(o: Option<String>) -> Option<Seq<char>> {
    match o {
        Some(s) => Some(s@),
        None => None,
    }
}

#[verifier::ext_equal]
pub ghost struct SessionDebugV {
    pub status_reason: Option<Seq<char>>,
    pub process_command_sample: Option<Seq<char>>,
    pub proc_cwd_source: Option<Seq<char>>,
    pub meta_parse_error: Option<Seq<char>>,
    pub meta_id_mismatch: Option<Seq<char>>,
    pub repo_probe_error: Option<Seq<char>>,
    pub title_source: Option<Seq<char>>,
}

impl View for SessionDebug {
    type V = SessionDebugV;

    open spec fn view(&self) -> SessionDebugV {
        SessionDebugV {
            status_reason: opt_view(self.status_reason),
            process_command_sample: opt_view(self.process_command_sample),
            proc_cwd_source: opt_view(self.proc_cwd_source),
            meta_parse_error: opt_view(self.meta_parse_error),
            meta_id_mismatch: opt_view(self.meta_id_mismatch),
            repo_probe_error: opt_view(self.repo_probe_error),
            title_source: opt_view(self.title_source),
        }
    }
}

#[verifier::ext_equal]
pub ghost struct SessionRowV {
    pub host: Seq<char>,
    pub thread_id: Seq<char>,
    pub pids: Seq<i32>,
    pub tty: Option<Seq<char>>,
    pub title: Option<Seq<char>>,
    pub name: Option<Seq<char>>,
    pub cwd: Option<Seq<char>>,
    pub repo_root: Option<Seq<char>>,
    pub git_branch: Option<Seq<char>>,
    pub git_commit: Option<Seq<char>>,
    pub session_source: Option<Seq<char>>,
    pub forked_from_id: Option<Seq<char>>,
    pub subagent_parent_thread_id: Option<Seq<char>>,
    pub subagent_depth: Option<i32>,
    pub status: SessionStatus,
    pub last_activity_unix_s: Option<i64>,
    pub rollout_path: Option<Seq<char>>,
    pub debug: Option<SessionDebugV>,
}

impl View for SessionRow {
    type V = SessionRowV;

    open spec fn view(&self) -> SessionRowV {
        SessionRowV {
            host: self.host@,
            thread_id: self.thread_id@,
            pids: self.pids@,
            tty: opt_view(self.tty),
            title: opt_view(self.title),
            name: opt_view(self.name),
            cwd: opt_view(self.cwd),
            repo_root: opt_view(self.repo_root),
            git_branch: opt_view(self.git_branch),
            git_commit: opt_view(self.git_commit),
            session_source: opt_view(self.session_source),
            forked_from_id: opt_view(self.forked_from_id),
            subagent_parent_thread_id: opt_view(self.subagent_parent_thread_id),
            subagent_depth: self.subagent_depth,
            status: self.status,
            last_activity_unix_s: self.last_activity_unix_s,
            rollout_path: opt_view(self.rollout_path),
            debug: match self.debug {
                Some(ref d) => Some(d@),
                None => None,
            },
        }
    }
}

impl SessionDebug {
    /// A copy with the same view.
    pub fn clone_debug(&self) -> (r: SessionDebug)
        ensures
            r@ == self@,
    {
        let r = SessionDebug {
            status_reason: crate::util::clone_opt_string(&self.status_reason),
            process_command_sample: crate::util::clone_opt_string(&self.process_command_sample),
            proc_cwd_source: crate::util::clone_opt_string(&self.proc_cwd_source),
            meta_parse_error: crate::util::clone_opt_string(&self.meta_parse_error),
            meta_id_mismatch: crate::util::clone_opt_string(&self.meta_id_mismatch),
            repo_probe_error: crate::util::clone_opt_string(&self.repo_probe_error),
            title_source: crate::util::clone_opt_string(&self.title_source),
        };
        proof {
            assert(r@ =~= self@);
        }
        r
    }
}

impl SessionRow {
    /// A copy with the same view.
    pub fn clone_row(&self) -> (r: SessionRow)
        ensures
            r@ == self@,
    {
        let r = SessionRow {
            host: self.host.clone(),
            thread_id: self.thread_id.clone(),
            pids: self.pids.clone(),
            tty: crate::util::clone_opt_string(&self.tty),
            title: crate::util::clone_opt_string(&self.title),
            name: crate::util::clone_opt_string(&self.name),
            cwd: crate::util::clone_opt_string(&self.cwd),
            repo_root: crate::util::clone_opt_string(&self.repo_root),
            git_branch: crate::util::clone_opt_string(&self.git_branch),
            git_commit: crate::util::clone_opt_string(&self.git_commit),
            session_source: crate::util::clone_opt_string(&self.session_source),
            forked_from_id: crate::util::clone_opt_string(&self.forked_from_id),
            subagent_parent_thread_id: crate::util::clone_opt_string(
                &self.subagent_parent_thread_id,
            ),
            subagent_depth: self.subagent_depth,
            status: self.status,
            last_activity_unix_s: self.last_activity_unix_s,
            rollout_path: crate::util::clone_opt_string(&self.rollout_path),
            debug: match &self.debug {
                Some(d) => Some(d.clone_debug()),
                None => None,
            },
        };
        proof {
            assert(self.pids@ =~= r.pids@) by {
                assert(forall|j: int|
                    0 <= j < self.pids@.len() ==> self.pids@[j] == #[trigger] r.pids@[j]) by {
                    assert(forall|j: int|
                        0 <= j < self.pids@.len() ==> vstd::pervasive::cloned::<i32>(
                            self.pids[j],
                            #[trigger] r.pids[j],
                        ));
                }
            }
            assert(r@ =~= self@);
        }
        r
    }
}


#[verifier::ext_equal]
pub ghost struct SessionMetaV {
    pub id: Option<Seq<char>>,
    pub forked_from_id: Option<Seq<char>>,
    pub cwd: Option<Seq<char>>,
    pub git_branch: Option<Seq<char>>,
    pub git_commit: Option<Seq<char>>,
    pub session_source: Option<Seq<char>>,
    pub subagent_parent_thread_id: Option<Seq<char>>,
    pub subagent_depth: Option<i32>,
}

impl View for SessionMeta {
    type V = SessionMetaV;

    open spec fn view(&self) -> SessionMetaV {
        SessionMetaV {
            id: opt_view(self.id),
            forked_from_id: opt_view(self.forked_from_id),
            cwd: opt_view(self.cwd),
            git_branch: opt_view(self.git_branch),
            git_commit: opt_view(self.git_commit),
            session_source: opt_view(self.session_source),
            subagent_parent_thread_id: opt_view(self.subagent_parent_thread_id),
            subagent_depth: self.subagent_depth,
        }
    }
}


#[verifier::ext_equal]
pub ghost struct HostErrorV {
    pub host: Seq<char>,
    pub error: Seq<char>,
}

impl View for HostError {
    type V = HostErrorV;

    open spec fn view(&self) -> HostErrorV {
        HostErrorV { host: self.host@, error: self.error@ }
    }
}

#[verifier::ext_equal]
pub ghost struct SnapshotV {
    pub generated_at_unix_s: i64,
    pub host: Seq<char>,
    pub sessions: Seq<SessionRowV>,
    pub host_errors: Option<Seq<HostErrorV>>,
    pub warnings: Option<Seq<Seq<char>>>,
}

impl View for Snapshot {
    type V = SnapshotV;

    open spec fn view(&self) -> SnapshotV {
        SnapshotV {
            generated_at_unix_s: self.generated_at_unix_s,
            host: self.host@,
            sessions: self.sessions@.map_values(|r: SessionRow| r@),
            host_errors: match self.host_errors {
                Some(ref v) => Some(v@.map_values(|e: HostError| e@)),
                None => None,
            },
            warnings: match self.warnings {
                Some(ref v) => Some(v@.map_values(|w: String| w@)),
                None => None,
            },
        }
    }
}

} // verus!
