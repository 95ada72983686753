use vstd::prelude::*;
use vstd::string::StrSliceExecFns;
use vstd::string::StringExecFns;

use crate::discovery::{CodexLsofProcess, LsofProcV, spec_extract_thread_id,
    extract_thread_id_from_rollout_path};
use crate::git::GitCache;
use crate::model::{opt_view, CodexHome, HostError, HostErrorV, SessionBuilder, SessionDebug,
    SessionMeta, SessionMetaV, SessionRow, SessionRowV, SessionStatus, Snapshot, SnapshotV};
use crate::names::{key_view, NamesStore, NameWrite, SessionNameKey};
use crate::rollout::PendingFunctionCall;
use crate::titles::TitleResolver;
use crate::util::{lemma_lex_le_antisymmetric, lemma_lex_le_total, lemma_lex_le_transitive, lex_le,
    spec_dec, str_eq, str_le, u64_to_dec};

verus! {

/// Writes no older than this many seconds count as active work.
pub const STATUS_WORKING_MAX_AGE_SECS: u64 = 15;

/// Writes older than the working window but no older than this stay Unknown
/// rather than guessing Waiting.
pub const STATUS_UNCERTAIN_MAX_AGE_SECS: u64 = 60;

/// Clock skew tolerated before a future modification time turns the status
/// Unknown.
pub const STATUS_MAX_FUTURE_MTIME_SKEW_SECS: u64 = 2;

/// How many bytes of a transcript's tail are scanned for pending calls.
pub const ROLLOUT_TAIL_MAX_BYTES: u64 = 524288;

/// The tool name whose pending call means the session waits on its user.
pub open spec fn user_input_tool() -> Seq<char> {
    "request_user_input"@
}

/// The age the classifier works with: seconds since the last write, with a
/// small future skew treated as zero, or `None` when the write lies further
/// in the future than the tolerance.
pub open spec fn spec_activity_age(now: int, ts: int) -> Option<int> {
    if ts <= now {
        Some(now - ts)
    } else if ts - now <= STATUS_MAX_FUTURE_MTIME_SKEW_SECS as int {
        Some(0)
    } else {
        None
    }
}

/// The status precedence table: a pending user-input call wins, then any
/// other pending call, then the write-age windows.
pub open spec fn spec_classify_status(
    now: int,
    last_activity: Option<int>,
    pending: Option<(Seq<char>, Seq<char>)>,
) -> SessionStatus {
    match pending {
        Some((call_id, name)) => if name == user_input_tool() {
            SessionStatus::Waiting
        } else {
            SessionStatus::Working
        },
        None => match last_activity {
            None => SessionStatus::Unknown,
            Some(ts) => match spec_activity_age(now, ts) {
                None => SessionStatus::Unknown,
                Some(age) => if age <= STATUS_WORKING_MAX_AGE_SECS as int {
                    SessionStatus::Working
                } else if age <= STATUS_UNCERTAIN_MAX_AGE_SECS as int {
                    SessionStatus::Unknown
                } else {
                    SessionStatus::Waiting
                },
            },
        },
    }
}

/// The human-readable reason paired with each classification.
pub open spec fn spec_classify_reason(
    now: int,
    last_activity: Option<int>,
    pending: Option<(Seq<char>, Seq<char>)>,
) -> Seq<char> {
    match pending {
        Some((call_id, name)) => if name == user_input_tool() {
            "waiting for user input (call_id="@ + call_id + ")"@
        } else {
            "pending tool call: "@ + name + " (call_id="@ + call_id + ")"@
        },
        None => match last_activity {
            None => "no rollout mtime"@,
            Some(ts) => match spec_activity_age(now, ts) {
                None => "rollout mtime is in the future"@,
                Some(age) => if age <= STATUS_WORKING_MAX_AGE_SECS as int {
                    "recent rollout write: "@ + spec_dec(age) + "s"@
                } else if age <= STATUS_UNCERTAIN_MAX_AGE_SECS as int {
                    "uncertain (no rollout writes for "@ + spec_dec(age) + "s)"@
                } else {
                    "idle (no rollout writes for "@ + spec_dec(age) + "s)"@
                },
            },
        },
    }
}

pub open spec fn pending_view(p: Option<&PendingFunctionCall>) -> Option<(Seq<char>, Seq<char>)> {
    match p {
        Some(c) => Some((c.call_id@, c.name@)),
        None => None,
    }
}

/// Pure classification of one session from the poll time, the transcript's
/// last write time, and an optional pending call, with its reason text.
pub fn classify_status(
    now_unix_s: i64,
    last_activity_unix_s: Option<i64>,
    pending_call: Option<&PendingFunctionCall>,
) -> (r: (SessionStatus, String))
    ensures
        r.0 == spec_classify_status(
            now_unix_s as int,
            match last_activity_unix_s {
                Some(t) => Some(t as int),
                None => None,
            },
            pending_view(pending_call),
        ),
        r.1@ == spec_classify_reason(
            now_unix_s as int,
            match last_activity_unix_s {
                Some(t) => Some(t as int),
                None => None,
            },
            pending_view(pending_call),
        ),
{
    if let Some(call) = pending_call {
        if str_eq(call.name.as_str(), "request_user_input") {
            let mut reason = "waiting for user input (call_id=".to_owned();
            reason.append(call.call_id.as_str());
            reason.append(")");
            proof {
                assert(reason@ =~= spec_classify_reason(
                    now_unix_s as int,
                    match last_activity_unix_s {
                        Some(t) => Some(t as int),
                        None => None,
                    },
                    pending_view(pending_call),
                ));
            }
            return (SessionStatus::Waiting, reason);
        }
        let mut reason = "pending tool call: ".to_owned();
        reason.append(call.name.as_str());
        reason.append(" (call_id=");
        reason.append(call.call_id.as_str());
        reason.append(")");
        proof {
            assert(reason@ =~= spec_classify_reason(
                now_unix_s as int,
                match last_activity_unix_s {
                    Some(t) => Some(t as int),
                    None => None,
                },
                pending_view(pending_call),
            ));
        }
        return (SessionStatus::Working, reason);
    }

    let ts = match last_activity_unix_s {
        Some(t) => t,
        None => {
            return (SessionStatus::Unknown, "no rollout mtime".to_owned());
        },
    };

    let age: u64 = if ts <= now_unix_s {
        let wide: i128 = now_unix_s as i128 - ts as i128;
        proof {
            assert(0 <= wide <= u64::MAX as i128);
        }
        wide as u64
    } else {
        let skew: i128 = ts as i128 - now_unix_s as i128;
        if skew <= STATUS_MAX_FUTURE_MTIME_SKEW_SECS as i128 {
            0u64
        } else {
            return (SessionStatus::Unknown, "rollout mtime is in the future".to_owned());
        }
    };

    if age <= STATUS_WORKING_MAX_AGE_SECS {
        let mut reason = "recent rollout write: ".to_owned();
        let num = u64_to_dec(age);
        reason.append(num.as_str());
        reason.append("s");
        proof {
            assert(reason@ =~= "recent rollout write: "@ + spec_dec(age as int) + "s"@);
        }
        (SessionStatus::Working, reason)
    } else if age <= STATUS_UNCERTAIN_MAX_AGE_SECS {
        let mut reason = "uncertain (no rollout writes for ".to_owned();
        let num = u64_to_dec(age);
        reason.append(num.as_str());
        reason.append("s)");
        proof {
            assert(reason@ =~= "uncertain (no rollout writes for "@ + spec_dec(age as int)
                + "s)"@);
        }
        (SessionStatus::Unknown, reason)
    } else {
        let mut reason = "idle (no rollout writes for ".to_owned();
        let num = u64_to_dec(age);
        reason.append(num.as_str());
        reason.append("s)");
        proof {
            assert(reason@ =~= "idle (no rollout writes for "@ + spec_dec(age as int) + "s)"@);
        }
        (SessionStatus::Waiting, reason)
    }
}


// ---------------------------------------------------------------------------
// Grouping transcripts into session builders
// ---------------------------------------------------------------------------

#[verifier::ext_equal]
pub ghost struct BuilderV {
    pub thread_id: Seq<char>,
    pub pids: Seq<i32>,
    pub tty: Option<Seq<char>>,
    pub proc_cwd: Option<Seq<char>>,
    pub rollout_path: Option<Seq<char>>,
    pub proc_command_sample: Option<Seq<char>>,
}

impl View for SessionBuilder {
    type V = BuilderV;

    open spec fn view(&self) -> BuilderV {
        BuilderV {
            thread_id: self.thread_id@,
            pids: self.pids@,
            tty: opt_view(self.tty),
            proc_cwd: opt_view(self.proc_cwd),
            rollout_path: opt_view(self.rollout_path),
            proc_command_sample: opt_view(self.proc_command_sample),
        }
    }
}

/// The command sample a process contributes: its executable path, or the
/// agent's bare name.
pub open spec fn spec_sample_of(p: LsofProcV) -> Seq<char> {
    match p.exe {
        Some(e) => e,
        None => "codex"@,
    }
}

/// How one open transcript updates its thread's builder: the pid joins once,
/// the most recently seen path wins, and empty slots are backfilled from any
/// process that has them.
pub open spec fn spec_builder_update(b: BuilderV, p: LsofProcV, path: Seq<char>) -> BuilderV {
    BuilderV {
        pids: if b.pids.contains(p.pid as i32) {
            b.pids
        } else {
            b.pids.push(p.pid as i32)
        },
        rollout_path: Some(path),
        proc_cwd: if b.proc_cwd is Some {
            b.proc_cwd
        } else {
            p.cwd
        },
        tty: if b.tty is Some {
            b.tty
        } else {
            p.tty
        },
        proc_command_sample: if b.proc_command_sample is Some {
            b.proc_command_sample
        } else {
            Some(spec_sample_of(p))
        },
        ..b
    }
}

pub open spec fn spec_builder_new(tid: Seq<char>, p: LsofProcV, path: Seq<char>) -> BuilderV {
    BuilderV {
        thread_id: tid,
        pids: Seq::empty(),
        tty: p.tty,
        proc_cwd: p.cwd,
        rollout_path: Some(path),
        proc_command_sample: Some(spec_sample_of(p)),
    }
}

/// Files one transcript under its thread id: the first builder with that id
/// is updated, or a new one is appended.
pub open spec fn spec_add_builder(
    bs: Seq<BuilderV>,
    tid: Seq<char>,
    p: LsofProcV,
    path: Seq<char>,
) -> Seq<BuilderV>
    decreases bs.len(),
{
    if bs.len() == 0 {
        seq![spec_builder_update(spec_builder_new(tid, p, path), p, path)]
    } else if bs.first().thread_id == tid {
        seq![spec_builder_update(bs.first(), p, path)] + bs.drop_first()
    } else {
        seq![bs.first()] + spec_add_builder(bs.drop_first(), tid, p, path)
    }
}

proof fn lemma_add_builder_at(
    bs: Seq<BuilderV>,
    tid: Seq<char>,
    p: LsofProcV,
    path: Seq<char>,
    idx: int,
)
    requires
        0 <= idx <= bs.len(),
        forall|m: int| 0 <= m < idx ==> (#[trigger] bs[m]).thread_id != tid,
        idx < bs.len() ==> bs[idx].thread_id == tid,
    ensures
        idx < bs.len() ==> spec_add_builder(bs, tid, p, path) =~= bs.update(
            idx,
            spec_builder_update(bs[idx], p, path),
        ),
        idx == bs.len() ==> spec_add_builder(bs, tid, p, path) =~= bs.push(
            spec_builder_update(spec_builder_new(tid, p, path), p, path),
        ),
    decreases bs.len(),
{
    if bs.len() == 0 {
        assert(bs.push(spec_builder_update(spec_builder_new(tid, p, path), p, path))
            =~= seq![spec_builder_update(spec_builder_new(tid, p, path), p, path)]);
    } else if bs.first().thread_id == tid {
        assert(idx == 0);
    } else {
        assert(idx > 0);
        assert(forall|m: int|
            0 <= m < idx - 1 ==> (#[trigger] bs.drop_first()[m]).thread_id != tid);
        lemma_add_builder_at(bs.drop_first(), tid, p, path, idx - 1);
    }
}

/// The warning for a transcript path whose filename carries no thread id.
pub open spec fn spec_unparseable_warning(path: Seq<char>) -> Seq<char> {
    "unparseable rollout filename: "@ + path
}

/// One process's open transcripts folded into the builders; unparseable
/// filenames add a warning in debug mode instead of failing.
pub open spec fn spec_fold_proc(
    acc: (Seq<BuilderV>, Seq<Seq<char>>),
    p: LsofProcV,
    paths: Seq<Seq<char>>,
    debug: bool,
) -> (Seq<BuilderV>, Seq<Seq<char>>)
    decreases paths.len(),
{
    if paths.len() == 0 {
        acc
    } else {
        let rest = spec_fold_proc(acc, p, paths.drop_last(), debug);
        match spec_extract_thread_id(paths.last()) {
            Some(tid) => (spec_add_builder(rest.0, tid, p, paths.last()), rest.1),
            None => (
                rest.0,
                if debug {
                    rest.1.push(spec_unparseable_warning(paths.last()))
                } else {
                    rest.1
                },
            ),
        }
    }
}

/// Every process's transcripts folded into builders, in discovery order.
pub open spec fn spec_builders(procs: Seq<LsofProcV>, debug: bool) -> (Seq<BuilderV>, Seq<Seq<char>>)
    decreases procs.len(),
{
    if procs.len() == 0 {
        (Seq::empty(), Seq::empty())
    } else {
        spec_fold_proc(
            spec_builders(procs.drop_last(), debug),
            procs.last(),
            procs.last().rollout_paths,
            debug,
        )
    }
}

/// Groups every open transcript by its thread id into session builders,
/// collecting a debug warning for each filename that carries no id.
pub fn group_rollouts_into_builders(procs: &Vec<CodexLsofProcess>, debug: bool) -> (r: (
    Vec<SessionBuilder>,
    Vec<String>,
))
    ensures
        (
            r.0@.map_values(|b: SessionBuilder| b@),
            r.1@.map_values(|w: String| w@),
        ) == spec_builders(procs@.map_values(|p: CodexLsofProcess| p@), debug),
{
    let ghost procs_v = procs@.map_values(|p: CodexLsofProcess| p@);
    let mut builders: Vec<SessionBuilder> = Vec::new();
    let mut warnings: Vec<String> = Vec::new();
    let mut i: usize = 0;
    let n = procs.len();
    proof {
        assert(procs_v.take(0) =~= Seq::<LsofProcV>::empty());
        assert(builders@.map_values(|b: SessionBuilder| b@) =~= spec_builders(
            procs_v.take(0),
            debug,
        ).0);
        assert(warnings@.map_values(|w: String| w@) =~= spec_builders(procs_v.take(0), debug).1);
    }
    while i < n
        invariant
            n == procs@.len(),
            procs_v == procs@.map_values(|p: CodexLsofProcess| p@),
            0 <= i <= n,
            builders@.map_values(|b: SessionBuilder| b@) == spec_builders(
                procs_v.take(i as int),
                debug,
            ).0,
            warnings@.map_values(|w: String| w@) == spec_builders(procs_v.take(i as int), debug).1,
        decreases n - i,
    {
        proof {
            assert(procs_v.take(i as int + 1).drop_last() =~= procs_v.take(i as int));
            assert(procs_v.take(i as int + 1).last() == procs_v[i as int]);
        }
        let p = &procs[i];
        let ghost pv = procs_v[i as int];
        let ghost paths_v = pv.rollout_paths;
        let mut j: usize = 0;
        let m = p.rollout_paths.len();
        proof {
            assert(paths_v.take(0) =~= Seq::<Seq<char>>::empty());
            assert((
                builders@.map_values(|b: SessionBuilder| b@),
                warnings@.map_values(|w: String| w@),
            ) =~~= spec_fold_proc(
                spec_builders(procs_v.take(i as int), debug),
                pv,
                paths_v.take(0),
                debug,
            ));
        }
        while j < m
            invariant
                n == procs@.len(),
                procs_v == procs@.map_values(|p2: CodexLsofProcess| p2@),
                0 <= i < n,
                pv == procs_v[i as int],
                p == &procs@[i as int],
                paths_v == pv.rollout_paths,
                m == p.rollout_paths@.len(),
                0 <= j <= m,
                (
                    builders@.map_values(|b: SessionBuilder| b@),
                    warnings@.map_values(|w: String| w@),
                ) == spec_fold_proc(
                    spec_builders(procs_v.take(i as int), debug),
                    pv,
                    paths_v.take(j as int),
                    debug,
                ),
            decreases m - j,
        {
            proof {
                assert(paths_v.take(j as int + 1).drop_last() =~= paths_v.take(j as int));
                assert(paths_v.take(j as int + 1).last() == paths_v[j as int]);
                assert(paths_v[j as int] == p.rollout_paths@[j as int]@);
            }
            let path = &p.rollout_paths[j];
            match extract_thread_id_from_rollout_path(path.as_str()) {
                Some(tid) => {
                    add_builder(&mut builders, p, path, tid);
                },
                None => {
                    if debug {
                        let mut w = "unparseable rollout filename: ".to_owned();
                        w.append(path.as_str());
                        let ghost pre = warnings@;
                        warnings.push(w);
                        proof {
                            assert(warnings@.drop_last() =~= pre);
                            assert(warnings@.map_values(|x: String| x@) =~= spec_fold_proc(
                                spec_builders(procs_v.take(i as int), debug),
                                pv,
                                paths_v.take(j as int + 1),
                                debug,
                            ).1);
                        }
                    }
                },
            }
            proof {
                assert((
                    builders@.map_values(|b: SessionBuilder| b@),
                    warnings@.map_values(|w: String| w@),
                ) =~~= spec_fold_proc(
                    spec_builders(procs_v.take(i as int), debug),
                    pv,
                    paths_v.take(j as int + 1),
                    debug,
                ));
            }
            j = j + 1;
        }
        proof {
            assert(paths_v.take(m as int) =~= paths_v);
            assert((
                builders@.map_values(|b: SessionBuilder| b@),
                warnings@.map_values(|w: String| w@),
            ) =~~= spec_builders(procs_v.take(i as int + 1), debug));
        }
        i = i + 1;
    }
    proof {
        assert(procs_v.take(n as int) =~= procs_v);
    }
    (builders, warnings)
}

/// Files one transcript of one process into the builders.
fn add_builder(builders: &mut Vec<SessionBuilder>, p: &CodexLsofProcess, path: &String, tid: String)
    ensures
        final(builders)@.map_values(|b: SessionBuilder| b@) == spec_add_builder(
            old(builders)@.map_values(|b: SessionBuilder| b@),
            tid@,
            p@,
            path@,
        ),
{
    let ghost bs = builders@.map_values(|b: SessionBuilder| b@);
    let n = builders.len();
    let mut idx: usize = 0;
    while idx < n
        invariant
            n == builders@.len(),
            bs == builders@.map_values(|b: SessionBuilder| b@),
            0 <= idx <= n,
            forall|m: int| 0 <= m < idx ==> (#[trigger] bs[m]).thread_id != tid@,
        ensures
            0 <= idx <= n,
            forall|m: int| 0 <= m < idx ==> (#[trigger] bs[m]).thread_id != tid@,
            idx < n ==> bs[idx as int].thread_id == tid@,
        decreases n - idx,
    {
        proof {
            assert(bs[idx as int] == builders@[idx as int]@);
        }
        if str_eq(builders[idx].thread_id.as_str(), tid.as_str()) {
            break;
        }
        idx = idx + 1;
    }
    proof {
        lemma_add_builder_at(bs, tid@, p@, path@, idx as int);
    }
    if idx < builders.len() {
        let mut b = builders.remove(idx);
        apply_builder_update(&mut b, p, path);
        proof {
            assert(b@ =~= spec_builder_update(bs[idx as int], p@, path@));
        }
        builders.insert(idx, b);
        proof {
            assert(builders@.map_values(|x: SessionBuilder| x@) =~= bs.update(
                idx as int,
                spec_builder_update(bs[idx as int], p@, path@),
            ));
        }
    } else {
        let mut b = SessionBuilder {
            thread_id: tid,
            pids: Vec::new(),
            tty: crate::util::clone_opt_string(&p.tty),
            proc_cwd: crate::util::clone_opt_string(&p.cwd),
            rollout_path: Some(path.clone()),
            proc_command_sample: Some(sample_of(p)),
        };
        proof {
            assert(b.pids@.take(0) =~= Seq::<i32>::empty());
            assert(b@ =~= spec_builder_new(tid@, p@, path@));
        }
        apply_builder_update(&mut b, p, path);
        proof {
            assert(b@ =~= spec_builder_update(spec_builder_new(tid@, p@, path@), p@, path@));
        }
        builders.push(b);
        proof {
            assert(builders@.map_values(|x: SessionBuilder| x@) =~= bs.push(
                spec_builder_update(spec_builder_new(tid@, p@, path@), p@, path@),
            ));
        }
    }
}

/// The command sample a process contributes.
fn sample_of(p: &CodexLsofProcess) -> (r: String)
    ensures
        r@ == spec_sample_of(p@),
{
    match &p.exe {
        Some(e) => e.clone(),
        None => "codex".to_owned(),
    }
}

/// Whether the pid list already carries this pid.
fn pids_contain(pids: &Vec<i32>, pid: i32) -> (r: bool)
    ensures
        r == pids@.contains(pid),
{
    let mut i: usize = 0;
    let n = pids.len();
    while i < n
        invariant
            n == pids@.len(),
            0 <= i <= n,
            forall|j: int| 0 <= j < i ==> pids@[j] != pid,
        decreases n - i,
    {
        if pids[i] == pid {
            assert(pids@.contains(pid)) by {
                assert(pids@[i as int] == pid);
            }
            return true;
        }
        i = i + 1;
    }
    assert(!pids@.contains(pid));
    false
}

/// Applies one sighting of a transcript to its builder.
fn apply_builder_update(b: &mut SessionBuilder, p: &CodexLsofProcess, path: &String)
    ensures
        final(b)@ == spec_builder_update(old(b)@, p@, path@),
{
    let ghost pre = b@;
    let have_pid = pids_contain(&b.pids, p.pid);
    if !have_pid {
        b.pids.push(p.pid);
    }
    b.rollout_path = Some(path.clone());
    if b.proc_cwd.is_none() {
        b.proc_cwd = crate::util::clone_opt_string(&p.cwd);
    }
    if b.tty.is_none() {
        b.tty = crate::util::clone_opt_string(&p.tty);
    }
    if b.proc_command_sample.is_none() {
        b.proc_command_sample = Some(sample_of(p));
    }
    proof {
        assert(b@ =~= spec_builder_update(pre, p@, path@));
    }
}


// ---------------------------------------------------------------------------
// Building one row
// ---------------------------------------------------------------------------

/// The working directory a row reports: operating-system truth from the
/// process when available, else what the transcript's metadata declared.
pub open spec fn spec_effective_cwd(b: BuilderV, meta: Option<SessionMetaV>) -> Option<Seq<char>> {
    match b.proc_cwd {
        Some(c) => Some(c),
        None => match meta {
            Some(m) => m.cwd,
            None => None,
        },
    }
}

/// The title a row reports: the resolved display title when one exists, else
/// the last path segment of the working directory when that is non-empty.
pub open spec fn spec_row_title(title: Option<Seq<char>>, cwd: Option<Seq<char>>) -> Option<
    Seq<char>,
> {
    match title {
        Some(t) => Some(t),
        None => match cwd {
            Some(c) => {
                let seg = c.skip(crate::util::spec_last_segment_start(c));
                if seg.len() > 0 {
                    Some(seg)
                } else {
                    None
                }
            },
            None => None,
        },
    }
}

/// The diagnostic recorded when the metadata's declared id disagrees with
/// the filename-derived one.
pub open spec fn spec_id_mismatch(id: Seq<char>, tid: Seq<char>) -> Seq<char> {
    "meta.id="@ + id + " != filename.id="@ + tid
}

/// The working directory a row would report; app-side callers use this to
/// decide which directories to probe.
pub fn effective_cwd(b: &SessionBuilder, meta: Option<&SessionMeta>) -> (r: Option<String>)
    ensures
        opt_view(r) == spec_effective_cwd(
            b@,
            match meta {
                Some(m) => Some(m@),
                None => None,
            },
        ),
{
    match &b.proc_cwd {
        Some(c) => Some(c.clone()),
        None => match meta {
            Some(m) => crate::util::clone_opt_string(&m.cwd),
            None => None,
        },
    }
}

/// The resolved title and its source tag: the display title when one is
/// known, else the working directory's last segment.
fn resolve_title(title: Option<String>, cwd: &Option<String>) -> (r: (
    Option<String>,
    Option<String>,
))
    ensures
        opt_view(r.0) == spec_row_title(opt_view(title), opt_view(*cwd)),
        opt_view(r.1) == (if title is Some {
            Some("codex-global-state.json"@)
        } else if spec_row_title(opt_view(title), opt_view(*cwd)) is Some {
            Some("cwd_basename"@)
        } else {
            None::<Seq<char>>
        }),
{
    match title {
        Some(t) => {
            proof {
                assert(spec_row_title(opt_view(Some(t)), opt_view(*cwd)) == Some(t@));
            }
            (Some(t), Some("codex-global-state.json".to_owned()))
        },
        None => match cwd {
            Some(c) => {
                proof {
                    assert(opt_view(*cwd) == Some(c@));
                }
                match crate::util::last_path_segment(c.as_str()) {
                    Some(seg) => {
                        proof {
                            assert(seg@ =~= c@.skip(crate::util::spec_last_segment_start(c@)));
                            assert(seg@.len() > 0);
                            assert(spec_row_title(None::<Seq<char>>, opt_view(*cwd)) == Some(
                                seg@,
                            ));
                        }
                        (Some(seg), Some("cwd_basename".to_owned()))
                    },
                    None => {
                        proof {
                            assert(c@.skip(crate::util::spec_last_segment_start(c@)).len() == 0);
                            assert(spec_row_title(None::<Seq<char>>, opt_view(*cwd)) is None);
                        }
                        (None, None)
                    },
                }
            },
            None => (None, None),
        },
    }
}

/// Builds one session row from its builder and everything observed about its
/// transcript; every enrichment is best-effort and lands in the diagnostics
/// rather than failing the row.
pub fn build_row(
    b: &SessionBuilder,
    now_unix_s: i64,
    mtime_unix_s: Option<i64>,
    meta: Option<&SessionMeta>,
    meta_error: Option<String>,
    title: Option<String>,
    repo_root: Option<String>,
    repo_probe_error: Option<String>,
    pending: Option<&PendingFunctionCall>,
    debug: bool,
) -> (r: SessionRow)
    ensures
        ({
            let meta_v = match meta {
                Some(m) => Some(m@),
                None => None,
            };
            let cwd = spec_effective_cwd(b@, meta_v);
            let last = match mtime_unix_s {
                Some(t) => Some(t as int),
                None => None,
            };
            &&& r@.host == "local"@
            &&& r@.thread_id == b@.thread_id
            &&& r@.pids == b@.pids
            &&& r@.tty == b@.tty
            &&& r@.name is None
            &&& r@.cwd == cwd
            &&& r@.title == spec_row_title(opt_view(title), cwd)
            &&& r@.repo_root == opt_view(repo_root)
            &&& r@.git_branch == (match meta_v {
                Some(m) => m.git_branch,
                None => None,
            })
            &&& r@.git_commit == (match meta_v {
                Some(m) => m.git_commit,
                None => None,
            })
            &&& r@.session_source == (match meta_v {
                Some(m) => m.session_source,
                None => None,
            })
            &&& r@.forked_from_id == (match meta_v {
                Some(m) => m.forked_from_id,
                None => None,
            })
            &&& r@.subagent_parent_thread_id == (match meta_v {
                Some(m) => m.subagent_parent_thread_id,
                None => None,
            })
            &&& r@.subagent_depth == (match meta_v {
                Some(m) => m.subagent_depth,
                None => None,
            })
            &&& r@.status == spec_classify_status(now_unix_s as int, last, pending_view(pending))
            &&& r@.last_activity_unix_s == mtime_unix_s
            &&& r@.rollout_path == b@.rollout_path
            &&& (debug ==> (r@.debug matches Some(d) && {
                &&& d.status_reason == Some(
                    spec_classify_reason(now_unix_s as int, last, pending_view(pending)),
                )
                &&& d.process_command_sample == (match b@.proc_command_sample {
                    Some(s) => Some(crate::util::spec_truncate_middle(s, 120)),
                    None => None,
                })
                &&& d.proc_cwd_source == (if b@.proc_cwd is Some {
                    Some("lsof"@)
                } else if (match meta_v {
                    Some(m) => m.cwd is Some,
                    None => false,
                }) {
                    Some("session_meta"@)
                } else {
                    None
                })
                &&& d.meta_parse_error == opt_view(meta_error)
                &&& d.meta_id_mismatch == (match meta_v {
                    Some(m) => match m.id {
                        Some(id) => if id != b@.thread_id {
                            Some(spec_id_mismatch(id, b@.thread_id))
                        } else {
                            None
                        },
                        None => None,
                    },
                    None => None,
                })
                &&& d.repo_probe_error == opt_view(repo_probe_error)
                &&& d.title_source == (if title is Some {
                    Some("codex-global-state.json"@)
                } else if spec_row_title(opt_view(title), cwd) is Some {
                    Some("cwd_basename"@)
                } else {
                    None
                })
            }))
            &&& (!debug ==> r@.debug is None)
        }),
{
    let cwd = effective_cwd(b, meta);
    let (row_title, title_source) = resolve_title(title, &cwd);
    let proc_cwd_source: Option<String> = if b.proc_cwd.is_some() {
        Some("lsof".to_owned())
    } else {
        let from_meta = match meta {
            Some(m) => m.cwd.is_some(),
            None => false,
        };
        if from_meta {
            Some("session_meta".to_owned())
        } else {
            None
        }
    };
    let meta_id_mismatch: Option<String> = match meta {
        Some(m) => match &m.id {
            Some(id) => {
                if !str_eq(id.as_str(), b.thread_id.as_str()) {
                    let mut msg = "meta.id=".to_owned();
                    msg.append(id.as_str());
                    msg.append(" != filename.id=");
                    msg.append(b.thread_id.as_str());
                    proof {
                        assert(msg@ =~= spec_id_mismatch(id@, b.thread_id@));
                    }
                    Some(msg)
                } else {
                    None
                }
            },
            None => None,
        },
        None => None,
    };
    let sample: Option<String> = match &b.proc_command_sample {
        Some(s) => Some(crate::util::truncate_middle(s.as_str(), 120)),
        None => None,
    };
    let (status, reason) = classify_status(now_unix_s, mtime_unix_s, pending);
    let dbg: Option<SessionDebug> = if debug {
        Some(
            SessionDebug {
                status_reason: Some(reason),
                process_command_sample: sample,
                proc_cwd_source,
                meta_parse_error: meta_error,
                meta_id_mismatch,
                repo_probe_error,
                title_source,
            },
        )
    } else {
        None
    };
    let r = SessionRow {
        host: "local".to_owned(),
        thread_id: b.thread_id.clone(),
        pids: b.pids.clone(),
        tty: crate::util::clone_opt_string(&b.tty),
        title: row_title,
        name: None,
        cwd,
        repo_root,
        git_branch: match meta {
            Some(m) => crate::util::clone_opt_string(&m.git_branch),
            None => None,
        },
        git_commit: match meta {
            Some(m) => crate::util::clone_opt_string(&m.git_commit),
            None => None,
        },
        session_source: match meta {
            Some(m) => crate::util::clone_opt_string(&m.session_source),
            None => None,
        },
        forked_from_id: match meta {
            Some(m) => crate::util::clone_opt_string(&m.forked_from_id),
            None => None,
        },
        subagent_parent_thread_id: match meta {
            Some(m) => crate::util::clone_opt_string(&m.subagent_parent_thread_id),
            None => None,
        },
        subagent_depth: match meta {
            Some(m) => m.subagent_depth,
            None => None,
        },
        status,
        last_activity_unix_s: mtime_unix_s,
        rollout_path: crate::util::clone_opt_string(&b.rollout_path),
        debug: dbg,
    };
    proof {
        assert(r.pids@ =~= b.pids@) by {
            assert(forall|j: int|
                0 <= j < b.pids@.len() ==> b.pids@[j] == #[trigger] r.pids@[j]) by {
                assert(forall|j: int|
                    0 <= j < b.pids@.len() ==> vstd::pervasive::cloned::<i32>(
                        b.pids[j],
                        #[trigger] r.pids[j],
                    ));
            }
        }
    }
    r
}

// ---------------------------------------------------------------------------
// Sorting rows for a deterministic snapshot
// ---------------------------------------------------------------------------

/// The snapshot order: most recent activity first, then host and thread id
/// ascending as deterministic tiebreakers.
pub open spec fn row_le(a: SessionRowV, b: SessionRowV) -> bool {
    if crate::display::ts_key(a.last_activity_unix_s) != crate::display::ts_key(
        b.last_activity_unix_s,
    ) {
        crate::display::ts_key(a.last_activity_unix_s) > crate::display::ts_key(
            b.last_activity_unix_s,
        )
    } else if a.host != b.host {
        lex_le(a.host, b.host)
    } else {
        lex_le(a.thread_id, b.thread_id)
    }
}

pub proof fn lemma_row_le_total(a: SessionRowV, b: SessionRowV)
    ensures
        row_le(a, b) || row_le(b, a),
{
    lemma_lex_le_total(a.host, b.host);
    lemma_lex_le_total(a.thread_id, b.thread_id);
}

pub proof fn lemma_row_le_transitive(a: SessionRowV, b: SessionRowV, c: SessionRowV)
    requires
        row_le(a, b),
        row_le(b, c),
    ensures
        row_le(a, c),
{
    let ta = crate::display::ts_key(a.last_activity_unix_s);
    let tb = crate::display::ts_key(b.last_activity_unix_s);
    let tc = crate::display::ts_key(c.last_activity_unix_s);
    if ta == tb && tb == tc {
        if a.host == b.host && b.host == c.host {
            lemma_lex_le_transitive(a.thread_id, b.thread_id, c.thread_id);
        } else if a.host == b.host {
        } else if b.host == c.host {
        } else {
            lemma_lex_le_transitive(a.host, b.host, c.host);
            if a.host == c.host {
                lemma_lex_le_antisymmetric(b.host, c.host);
            }
        }
    }
}

pub open spec fn sorted_rows(s: Seq<SessionRowV>) -> bool {
    forall|i: int, j: int| 0 <= i < j < s.len() ==> row_le(#[trigger] s[i], #[trigger] s[j])
}

pub open spec fn spec_insert_row(sorted: Seq<SessionRowV>, x: SessionRowV) -> Seq<SessionRowV>
    decreases sorted.len(),
{
    if sorted.len() == 0 {
        seq![x]
    } else if row_le(sorted.last(), x) {
        sorted.push(x)
    } else {
        spec_insert_row(sorted.drop_last(), x).push(sorted.last())
    }
}

pub open spec fn spec_sort_rows(rows: Seq<SessionRowV>) -> Seq<SessionRowV>
    decreases rows.len(),
{
    if rows.len() == 0 {
        Seq::empty()
    } else {
        spec_insert_row(spec_sort_rows(rows.drop_last()), rows.last())
    }
}

proof fn lemma_insert_row_sorted(s: Seq<SessionRowV>, x: SessionRowV)
    requires
        sorted_rows(s),
    ensures
        sorted_rows(spec_insert_row(s, x)),
        forall|k: int|
            0 <= k < spec_insert_row(s, x).len() ==> (#[trigger] spec_insert_row(s, x)[k]) == x
                || s.contains(spec_insert_row(s, x)[k]),
        spec_insert_row(s, x).len() == s.len() + 1,
    decreases s.len(),
{
    let r = spec_insert_row(s, x);
    if s.len() == 0 {
    } else if row_le(s.last(), x) {
        assert forall|i: int, j: int| 0 <= i < j < r.len() implies row_le(
            #[trigger] r[i],
            #[trigger] r[j],
        ) by {
            if j == r.len() - 1 {
                if i < s.len() - 1 {
                    lemma_row_le_transitive(s[i], s.last(), x);
                }
            }
        }
        assert forall|k: int| 0 <= k < r.len() implies (#[trigger] r[k]) == x || s.contains(
            r[k],
        ) by {
            if k < s.len() {
                assert(s[k] == r[k]);
            }
        }
    } else {
        assert(forall|i: int, j: int|
            0 <= i < j < s.drop_last().len() ==> row_le(
                #[trigger] s.drop_last()[i],
                #[trigger] s.drop_last()[j],
            ));
        lemma_insert_row_sorted(s.drop_last(), x);
        let r0 = spec_insert_row(s.drop_last(), x);
        lemma_row_le_total(s.last(), x);
        assert forall|i: int, j: int| 0 <= i < j < r.len() implies row_le(
            #[trigger] r[i],
            #[trigger] r[j],
        ) by {
            if j == r.len() - 1 {
                assert(r[j] == s.last());
                assert(r[i] == r0[i]);
                if r0[i] == x {
                    assert(row_le(x, s.last()));
                } else {
                    assert(s.drop_last().contains(r0[i]));
                    let m = choose|m: int|
                        0 <= m < s.drop_last().len() && s.drop_last()[m] == r0[i];
                    assert(s[m] == r0[i]);
                    assert(row_le(s[m], s.last()));
                }
            } else {
                assert(r[i] == r0[i] && r[j] == r0[j]);
            }
        }
        assert forall|k: int| 0 <= k < r.len() implies (#[trigger] r[k]) == x || s.contains(
            r[k],
        ) by {
            if k == r.len() - 1 {
                assert(r[k] == s.last());
                assert(s.contains(s.last()));
            } else {
                assert(r[k] == r0[k]);
                if r0[k] != x {
                    assert(s.drop_last().contains(r0[k]));
                    let m = choose|m: int|
                        0 <= m < s.drop_last().len() && s.drop_last()[m] == r0[k];
                    assert(s[m] == r0[k]);
                }
            }
        }
    }
}

/// The sorted sequence really is in snapshot order.
pub proof fn lemma_sort_rows_sorted(rows: Seq<SessionRowV>)
    ensures
        sorted_rows(spec_sort_rows(rows)),
        spec_sort_rows(rows).len() == rows.len(),
    decreases rows.len(),
{
    if rows.len() > 0 {
        lemma_sort_rows_sorted(rows.drop_last());
        lemma_insert_row_sorted(spec_sort_rows(rows.drop_last()), rows.last());
    }
}

fn row_le_exec(a: &SessionRow, b: &SessionRow) -> (r: bool)
    ensures
        r == row_le(a@, b@),
{
    let ta = match a.last_activity_unix_s {
        Some(x) => x,
        None => i64::MIN,
    };
    let tb = match b.last_activity_unix_s {
        Some(x) => x,
        None => i64::MIN,
    };
    if ta != tb {
        return ta > tb;
    }
    if !str_eq(a.host.as_str(), b.host.as_str()) {
        return str_le(a.host.as_str(), b.host.as_str());
    }
    str_le(a.thread_id.as_str(), b.thread_id.as_str())
}

fn insert_row(sorted: &mut Vec<SessionRow>, x: SessionRow)
    ensures
        final(sorted)@.map_values(|d: SessionRow| d@) == spec_insert_row(
            old(sorted)@.map_values(|d: SessionRow| d@),
            x@,
        ),
{
    let ghost s = sorted@.map_values(|d: SessionRow| d@);
    let n = sorted.len();
    let mut k: usize = n;
    while k > 0
        invariant
            n == sorted@.len(),
            s == sorted@.map_values(|d: SessionRow| d@),
            0 <= k <= n,
            forall|m: int| k <= m < n ==> !row_le(#[trigger] s[m], x@),
        ensures
            0 <= k <= n,
            forall|m: int| k <= m < n ==> !row_le(#[trigger] s[m], x@),
            k > 0 ==> row_le(s[k - 1], x@),
        decreases k,
    {
        if row_le_exec(&sorted[k - 1], &x) {
            break;
        }
        k = k - 1;
    }
    proof {
        lemma_row_insert_at(s, x@, k as int);
    }
    sorted.insert(k, x);
    proof {
        assert(sorted@.map_values(|d: SessionRow| d@) =~= s.take(k as int) + seq![x@] + s.skip(
            k as int,
        ));
    }
}

proof fn lemma_row_insert_at(s: Seq<SessionRowV>, x: SessionRowV, k: int)
    requires
        0 <= k <= s.len(),
        forall|m: int| k <= m < s.len() ==> !row_le(#[trigger] s[m], x),
        k > 0 ==> row_le(s[k - 1], x),
    ensures
        spec_insert_row(s, x) == s.take(k) + seq![x] + s.skip(k),
    decreases s.len() - k,
{
    if k == s.len() {
        if s.len() == 0 {
            assert(spec_insert_row(s, x) =~= s.take(k) + seq![x] + s.skip(k));
        } else {
            assert(row_le(s.last(), x));
            assert(s.push(x) =~= s.take(k) + seq![x] + s.skip(k));
        }
    } else {
        assert(!row_le(s.last(), x));
        assert(forall|m: int|
            k <= m < s.drop_last().len() ==> !row_le(#[trigger] s.drop_last()[m], x));
        lemma_row_insert_at(s.drop_last(), x, k);
        assert(spec_insert_row(s, x) == spec_insert_row(s.drop_last(), x).push(s.last()));
        assert((s.drop_last().take(k) + seq![x] + s.drop_last().skip(k)).push(s.last()) =~= s.take(
            k,
        ) + seq![x] + s.skip(k));
    }
}

/// Sorts rows into the deterministic snapshot order.
pub fn sort_rows(rows: Vec<SessionRow>) -> (r: Vec<SessionRow>)
    ensures
        r@.map_values(|d: SessionRow| d@) == spec_sort_rows(rows@.map_values(|d: SessionRow| d@)),
        sorted_rows(r@.map_values(|d: SessionRow| d@)),
{
    let ghost unsorted = rows@.map_values(|d: SessionRow| d@);
    let mut sorted: Vec<SessionRow> = Vec::new();
    let mut i: usize = 0;
    let n = rows.len();
    proof {
        assert(unsorted.take(0) =~= Seq::<SessionRowV>::empty());
        assert(sorted@.map_values(|d: SessionRow| d@) =~= spec_sort_rows(unsorted.take(0)));
    }
    while i < n
        invariant
            n == rows@.len(),
            unsorted == rows@.map_values(|d: SessionRow| d@),
            0 <= i <= n,
            sorted@.map_values(|d: SessionRow| d@) == spec_sort_rows(unsorted.take(i as int)),
        decreases n - i,
    {
        proof {
            assert(unsorted.take(i as int + 1).drop_last() =~= unsorted.take(i as int));
            assert(unsorted.take(i as int + 1).last() == unsorted[i as int]);
        }
        let x = rows[i].clone_row();
        insert_row(&mut sorted, x);
        i = i + 1;
    }
    proof {
        assert(unsorted.take(n as int) =~= unsorted);
        lemma_sort_rows_sorted(unsorted);
    }
    sorted
}


// ---------------------------------------------------------------------------
// What one collection cycle observes
// ---------------------------------------------------------------------------

/// The bytes read from a transcript's tail, and whether the read began
/// somewhere inside the file rather than at its start.
pub struct TailObservation {
    pub started_mid_file: bool,
    pub text: String,
}

/// Everything observed about one transcript file during a cycle.
pub struct SessionFileFacts {
    pub rollout_path: String,
    pub mtime_unix_s: Option<i64>,
    pub meta_line: Option<String>,
    pub meta_read_error: Option<String>,
    pub tail: Option<TailObservation>,
    pub git_probe: Option<Result<String, String>>,
}

/// The local host's observation: the discovered processes, and per-file
/// facts for the transcripts they hold open.
pub struct LocalObservation {
    pub procs: Vec<CodexLsofProcess>,
    pub facts: Vec<SessionFileFacts>,
}

/// What invoking the remote-collection protocol on one host produced.
pub struct RemoteOutcome {
    pub host: String,
    pub snapshot: Result<Snapshot, String>,
}

/// A backing file as one cycle saw it.
pub enum FileReading<T> {
    Missing,
    Unreadable { error: String },
    Present { mtime_unix_s: Option<i64>, content: Option<T> },
}

/// One collection cycle's complete input, gathered at the edges and handed
/// to the collector whole.
pub struct CollectObservation {
    pub now_unix_s: i64,
    pub local: Option<Result<LocalObservation, String>>,
    pub remote: Vec<RemoteOutcome>,
    pub names_log: FileReading<Vec<String>>,
    pub titles_file: FileReading<String>,
}

/// The host list actually collected: an empty selector always means local.
pub open spec fn spec_host_list(hosts: Seq<Seq<char>>) -> Seq<Seq<char>> {
    if hosts.len() == 0 {
        seq!["local"@]
    } else {
        hosts
    }
}

pub open spec fn spec_wants_local(hosts: Seq<Seq<char>>) -> bool {
    exists|i: int| 0 <= i < hosts.len() && hosts[i] == "local"@
}

/// The non-local hosts, in order.
pub open spec fn spec_remote_hosts(hosts: Seq<Seq<char>>) -> Seq<Seq<char>>
    decreases hosts.len(),
{
    if hosts.len() == 0 {
        Seq::empty()
    } else {
        let rest = spec_remote_hosts(hosts.drop_last());
        if hosts.last() == "local"@ {
            rest
        } else {
            rest.push(hosts.last())
        }
    }
}

#[verifier::ext_equal]
pub ghost struct RemoteOutcomeV {
    pub host: Seq<char>,
    pub snapshot: Result<SnapshotV, Seq<char>>,
}

impl View for RemoteOutcome {
    type V = RemoteOutcomeV;

    open spec fn view(&self) -> RemoteOutcomeV {
        RemoteOutcomeV {
            host: self.host@,
            snapshot: match self.snapshot {
                Ok(ref s) => Ok(s@),
                Err(ref e) => Err(e@),
            },
        }
    }
}

/// The per-host failures one cycle reports: the local error when local
/// collection failed, then, per remote host in order, either the errors its
/// own snapshot carried or the one failure to reach it.
pub open spec fn spec_collect_host_errors(
    local_error: Option<Seq<char>>,
    remotes: Seq<RemoteOutcomeV>,
) -> Seq<HostErrorV>
    decreases remotes.len(),
{
    if remotes.len() == 0 {
        match local_error {
            Some(e) => seq![HostErrorV { host: "local"@, error: e }],
            None => Seq::empty(),
        }
    } else {
        spec_collect_host_errors(local_error, remotes.drop_last()) + (
        match remotes.last().snapshot {
            Ok(s) => match s.host_errors {
                Some(hes) => hes,
                None => Seq::empty(),
            },
            Err(e) => seq![HostErrorV { host: remotes.last().host, error: e }],
        })
    }
}

/// How many reported failures name a host.
pub open spec fn count_errors_for(errors: Seq<HostErrorV>, host: Seq<char>) -> int
    decreases errors.len(),
{
    if errors.len() == 0 {
        0int
    } else {
        count_errors_for(errors.drop_last(), host) + if errors.last().host == host {
            1int
        } else {
            0int
        }
    }
}

proof fn lemma_count_errors_concat(a: Seq<HostErrorV>, b: Seq<HostErrorV>, host: Seq<char>)
    ensures
        count_errors_for(a + b, host) == count_errors_for(a, host) + count_errors_for(b, host),
    decreases b.len(),
{
    if b.len() == 0 {
        assert(a + b =~= a);
    } else {
        lemma_count_errors_concat(a, b.drop_last(), host);
        assert((a + b).drop_last() =~= a + b.drop_last());
        assert((a + b).last() == b.last());
    }
}

/// One unreachable host yields exactly one failure entry for it, and no
/// failure entry for any host that answered cleanly: one host's failure
/// cannot crowd out or multiply under another's.
pub proof fn lemma_one_error_per_failed_host(
    local_error: Option<Seq<char>>,
    remotes: Seq<RemoteOutcomeV>,
    k: int,
)
    requires
        0 <= k < remotes.len(),
        remotes[k].host != "local"@,
        forall|m: int|
            0 <= m < remotes.len() && m != k ==> (#[trigger] remotes[m]).host != remotes[k].host,
        forall|m: int|
            0 <= m < remotes.len() ==> (match (#[trigger] remotes[m]).snapshot {
                Ok(s) => match s.host_errors {
                    Some(hes) => forall|j: int|
                        0 <= j < hes.len() ==> (#[trigger] hes[j]).host != remotes[k].host,
                    None => true,
                },
                Err(e) => true,
            }),
    ensures
        remotes[k].snapshot is Err ==> count_errors_for(
            spec_collect_host_errors(local_error, remotes),
            remotes[k].host,
        ) == 1,
        remotes[k].snapshot is Ok ==> count_errors_for(
            spec_collect_host_errors(local_error, remotes),
            remotes[k].host,
        ) == 0,
    decreases remotes.len(),
{
    let host = remotes[k].host;
    let added: Seq<HostErrorV> = match remotes.last().snapshot {
        Ok(s) => match s.host_errors {
            Some(hes) => hes,
            None => Seq::empty(),
        },
        Err(e) => seq![HostErrorV { host: remotes.last().host, error: e }],
    };
    lemma_count_errors_concat(
        spec_collect_host_errors(local_error, remotes.drop_last()),
        added,
        host,
    );
    if k == remotes.len() - 1 {
        lemma_count_no_matches(local_error, remotes.drop_last(), host);
        match remotes.last().snapshot {
            Ok(s) => {
                lemma_count_errors_none(added, host);
            },
            Err(e) => {
                assert(count_errors_for(added, host) == 1) by {
                    assert(count_errors_for(Seq::<HostErrorV>::empty(), host) == 0);
                    assert(added.drop_last() =~= Seq::<HostErrorV>::empty());
                    assert(added.last().host == host);
                }
            },
        }
    } else {
        assert(forall|m: int|
            0 <= m < remotes.len() - 1 ==> remotes.drop_last()[m] == #[trigger] remotes[m]);
        lemma_one_error_per_failed_host(local_error, remotes.drop_last(), k);
        match remotes.last().snapshot {
            Ok(s) => {
                lemma_count_errors_none(added, host);
            },
            Err(e) => {
                assert(count_errors_for(added, host) == 0) by {
                    assert(count_errors_for(Seq::<HostErrorV>::empty(), host) == 0);
                    assert(added.drop_last() =~= Seq::<HostErrorV>::empty());
                    assert(added.last().host != host);
                }
            },
        }
    }
}

proof fn lemma_count_errors_none(errors: Seq<HostErrorV>, host: Seq<char>)
    requires
        forall|j: int| 0 <= j < errors.len() ==> (#[trigger] errors[j]).host != host,
    ensures
        count_errors_for(errors, host) == 0,
    decreases errors.len(),
{
    if errors.len() > 0 {
        assert(forall|j: int|
            0 <= j < errors.len() - 1 ==> errors.drop_last()[j] == #[trigger] errors[j]);
        lemma_count_errors_none(errors.drop_last(), host);
    }
}

proof fn lemma_count_no_matches(
    local_error: Option<Seq<char>>,
    remotes: Seq<RemoteOutcomeV>,
    host: Seq<char>,
)
    requires
        host != "local"@,
        forall|m: int| 0 <= m < remotes.len() ==> (#[trigger] remotes[m]).host != host,
        forall|m: int|
            0 <= m < remotes.len() ==> (match (#[trigger] remotes[m]).snapshot {
                Ok(s) => match s.host_errors {
                    Some(hes) => forall|j: int|
                        0 <= j < hes.len() ==> (#[trigger] hes[j]).host != host,
                    None => true,
                },
                Err(e) => true,
            }),
    ensures
        count_errors_for(spec_collect_host_errors(local_error, remotes), host) == 0,
    decreases remotes.len(),
{
    if remotes.len() == 0 {
        match local_error {
            Some(e) => {
                let errs = spec_collect_host_errors(local_error, remotes);
                assert(count_errors_for(Seq::<HostErrorV>::empty(), host) == 0);
                assert(errs.drop_last() =~= Seq::<HostErrorV>::empty());
                assert(errs.last().host == "local"@);
            },
            None => {},
        }
    } else {
        assert(forall|m: int|
            0 <= m < remotes.len() - 1 ==> remotes.drop_last()[m] == #[trigger] remotes[m]);
        lemma_count_no_matches(local_error, remotes.drop_last(), host);
        let added: Seq<HostErrorV> = match remotes.last().snapshot {
            Ok(s) => match s.host_errors {
                Some(hes) => hes,
                None => Seq::empty(),
            },
            Err(e) => seq![HostErrorV { host: remotes.last().host, error: e }],
        };
        lemma_count_errors_concat(
            spec_collect_host_errors(local_error, remotes.drop_last()),
            added,
            host,
        );
        match remotes.last().snapshot {
            Ok(s) => {
                lemma_count_errors_none(added, host);
            },
            Err(e) => {
                assert(count_errors_for(added, host) == 0) by {
                    assert(count_errors_for(Seq::<HostErrorV>::empty(), host) == 0);
                    assert(added.drop_last() =~= Seq::<HostErrorV>::empty());
                    assert(added.last().host != host);
                }
            },
        }
    }
}

// ---------------------------------------------------------------------------
// The collector
// ---------------------------------------------------------------------------

/// Orchestrates discovery, correlation, classification and the caches for
/// the local host, merges remote snapshots, and owns the name store.
pub struct Collector {
    codex_home: CodexHome,
    titles: TitleResolver,
    names: NamesStore,
    git_cache: GitCache,
    ssh_bin: String,
    remote_bin: String,
    ssh_timeout_ms: u64,
    rollout_tail_cache: Vec<(String, (Option<i64>, Option<PendingFunctionCall>))>,
}

pub open spec fn opt_pending_view(p: Option<PendingFunctionCall>) -> Option<(Seq<char>, Seq<char>)> {
    match p {
        Some(c) => Some((c.call_id@, c.name@)),
        None => None,
    }
}

pub open spec fn tail_entries_map(
    entries: Seq<(String, (Option<i64>, Option<PendingFunctionCall>))>,
) -> Map<Seq<char>, (Option<i64>, Option<(Seq<char>, Seq<char>)>)>
    decreases entries.len(),
{
    if entries.len() == 0 {
        Map::empty()
    } else {
        tail_entries_map(entries.drop_last()).insert(
            entries.last().0@,
            (entries.last().1.0, opt_pending_view(entries.last().1.1)),
        )
    }
}

proof fn lemma_tail_entries_found(
    entries: Seq<(String, (Option<i64>, Option<PendingFunctionCall>))>,
    j: int,
)
    requires
        0 <= j < entries.len(),
        forall|m: int| j < m < entries.len() ==> (#[trigger] entries[m].0)@ != entries[j].0@,
    ensures
        tail_entries_map(entries).contains_key(entries[j].0@),
        tail_entries_map(entries)[entries[j].0@] == (
            entries[j].1.0,
            opt_pending_view(entries[j].1.1),
        ),
    decreases entries.len(),
{
    if j < entries.len() - 1 {
        assert(forall|m: int|
            0 <= m < entries.len() - 1 ==> entries.drop_last()[m] == #[trigger] entries[m]);
        lemma_tail_entries_found(entries.drop_last(), j);
    }
}

proof fn lemma_tail_entries_absent(
    entries: Seq<(String, (Option<i64>, Option<PendingFunctionCall>))>,
    kv: Seq<char>,
)
    requires
        forall|m: int| 0 <= m < entries.len() ==> (#[trigger] entries[m].0)@ != kv,
    ensures
        !tail_entries_map(entries).contains_key(kv),
    decreases entries.len(),
{
    if entries.len() > 0 {
        assert(forall|m: int|
            0 <= m < entries.len() - 1 ==> entries.drop_last()[m] == #[trigger] entries[m]);
        lemma_tail_entries_absent(entries.drop_last(), kv);
    }
}

/// The tail cache after filing a scan outcome: an entry already current for
/// the file's modification time is kept as it is.
pub open spec fn spec_tail_step(
    m: Map<Seq<char>, (Option<i64>, Option<(Seq<char>, Seq<char>)>)>,
    path: Seq<char>,
    mtime: Option<i64>,
    pending: Option<(Seq<char>, Seq<char>)>,
) -> Map<Seq<char>, (Option<i64>, Option<(Seq<char>, Seq<char>)>)> {
    if m.contains_key(path) && m[path].0 == mtime {
        m
    } else {
        m.insert(path, (mtime, pending))
    }
}

/// Polling an unchanged file again is a no-op: once an entry is current for
/// a modification time, filing any further outcome under that same time
/// leaves the cache — and so the served hint — exactly as it was.
pub proof fn lemma_tail_step_idempotent(
    m: Map<Seq<char>, (Option<i64>, Option<(Seq<char>, Seq<char>)>)>,
    path: Seq<char>,
    mtime: Option<i64>,
    first: Option<(Seq<char>, Seq<char>)>,
    second: Option<(Seq<char>, Seq<char>)>,
)
    ensures
        spec_tail_step(spec_tail_step(m, path, mtime, first), path, mtime, second)
            == spec_tail_step(m, path, mtime, first),
{
}

impl Collector {
    pub closed spec fn tail_cache_map(&self) -> Map<
        Seq<char>,
        (Option<i64>, Option<(Seq<char>, Seq<char>)>),
    > {
        tail_entries_map(self.rollout_tail_cache@)
    }

    pub closed spec fn names_view(&self) -> NamesStore {
        self.names
    }

    pub closed spec fn titles_view(&self) -> TitleResolver {
        self.titles
    }

    pub closed spec fn git_view(&self) -> GitCache {
        self.git_cache
    }

    /// A collector for the given scope root, name-log path, and remote-shell
    /// configuration; every cache starts empty.
    pub fn new(
        codex_home: CodexHome,
        names_path: String,
        ssh_bin: String,
        remote_bin: String,
        ssh_timeout_ms: u64,
    ) -> (r: Collector)
        ensures
            r.names_view().names_map() == Map::<(Seq<char>, Seq<char>), Seq<char>>::empty(),
            r.names_view().path_str()@ == names_path@,
            r.titles_view().titles_map() == Map::<Seq<char>, Seq<char>>::empty(),
            r.git_view().ttl_view() == 5,
            r.tail_cache_map() == Map::<
                Seq<char>,
                (Option<i64>, Option<(Seq<char>, Seq<char>)>),
            >::empty(),
    {
        let titles = TitleResolver::new(codex_home.root.as_str());
        let r = Collector {
            titles,
            names: NamesStore::new(names_path),
            git_cache: GitCache::new(5),
            codex_home,
            ssh_bin,
            remote_bin,
            ssh_timeout_ms,
            rollout_tail_cache: Vec::new(),
        };
        proof {
            assert(r.rollout_tail_cache@.take(0) =~= Seq::<
                (String, (Option<i64>, Option<PendingFunctionCall>)),
            >::empty());
        }
        r
    }

    /// Records a user-assigned name; the caller appends the returned log
    /// line to the backing file.
    pub fn set_session_name(&mut self, key: SessionNameKey, name: String) -> (w: NameWrite)
        ensures
            match w.normalized {
                Some(n) => crate::names::spec_normalize_name(Some(name@)) == Some(n@) && final(self).names_view().names_map() == old(self).names_view().names_map().insert(
                    key_view(key),
                    n@,
                ),
                None => crate::names::spec_normalize_name(Some(name@)) is None && final(self).names_view().names_map() == old(self).names_view().names_map().remove(
                    key_view(key),
                ),
            },
    {
        self.names.set(key, name)
    }

    /// Clears a user-assigned name; the caller appends the returned
    /// tombstone line to the backing file.
    pub fn clear_session_name(&mut self, key: SessionNameKey) -> (line: String)
        ensures
            final(self).names_view().names_map() == old(self).names_view().names_map().remove(
                key_view(key),
            ),
            line@ == crate::names::spec_names_line(key.host@, key.thread_id@, None),
    {
        self.names.clear(key)
    }

    /// Remembers the name log's modification time right after an append.
    pub fn note_names_appended(&mut self, mtime: Option<i64>)
        ensures
            final(self).names_view().names_map() == old(self).names_view().names_map(),
    {
        self.names.note_appended(mtime);
    }

    /// Whether the next cycle must read the transcript's tail: only when no
    /// cache entry is current for its modification time.
    pub fn tail_scan_needed(&self, path: &str, mtime_unix_s: Option<i64>) -> (r: bool)
        ensures
            r == !(self.tail_cache_map().contains_key(path@) && self.tail_cache_map().index(
                path@,
            ).0 == mtime_unix_s),
    {
        let n = self.rollout_tail_cache.len();
        let mut i: usize = n;
        while i > 0
            invariant
                n == self.rollout_tail_cache@.len(),
                0 <= i <= n,
                forall|m: int|
                    i <= m < n ==> (#[trigger] self.rollout_tail_cache@[m].0)@ != path@,
            decreases i,
        {
            let e = &self.rollout_tail_cache[i - 1];
            if str_eq(e.0.as_str(), path) {
                proof {
                    lemma_tail_entries_found(self.rollout_tail_cache@, i - 1);
                }
                let same = match (&e.1.0, &mtime_unix_s) {
                    (Some(a), Some(b)) => *a == *b,
                    (None, None) => true,
                    _ => false,
                };
                return !same;
            }
            i = i - 1;
        }
        proof {
            lemma_tail_entries_absent(self.rollout_tail_cache@, path@);
        }
        true
    }

    /// Whether serving a repository-root query for this directory now would
    /// shell out.
    pub fn git_probe_needed(&self, cwd: &str, now_unix_s: i64) -> (r: bool) {
        self.git_cache.probe_needed(cwd, now_unix_s)
    }

    /// Whether the titles file must be re-read.
    pub fn titles_reload_needed(&self, mtime_unix_s: Option<i64>) -> (r: bool) {
        !self.titles.is_unchanged(mtime_unix_s)
    }

    /// Whether the name log must be re-read.
    pub fn names_reload_needed(&self, mtime_unix_s: Option<i64>) -> (r: bool) {
        !self.names.is_unchanged(mtime_unix_s)
    }

    /// Where the name log lives.
    pub fn names_path(&self) -> (r: &str)
        ensures
            r@ == self.names_view().path_str()@,
    {
        self.names.path()
    }

    /// The pending-call hint for one transcript, cached per path and
    /// modification time so an unchanged file is not re-scanned. A changed
    /// file's provided tail is scanned at once; a changed file with no tail
    /// reading yields no hint.
    pub fn pending_hint(
        &mut self,
        path: &str,
        mtime_unix_s: Option<i64>,
        tail: Option<&TailObservation>,
    ) -> (r: Option<PendingFunctionCall>)
        ensures
            final(self).tail_cache_map() == spec_tail_step(
                old(self).tail_cache_map(),
                path@,
                mtime_unix_s,
                opt_pending_view(r),
            ),
            (old(self).tail_cache_map().contains_key(path@) && old(self).tail_cache_map().index(
                path@,
            ).0 == mtime_unix_s) ==> opt_pending_view(r) == old(self).tail_cache_map().index(
                path@,
            ).1,
            (!(old(self).tail_cache_map().contains_key(path@) && old(self).tail_cache_map().index(path@).0 == mtime_unix_s) && tail is None) ==> r is None,
    {
        let n = self.rollout_tail_cache.len();
        let mut i: usize = n;
        while i > 0
            invariant
                n == self.rollout_tail_cache@.len(),
                0 <= i <= n,
                forall|m: int|
                    i <= m < n ==> (#[trigger] self.rollout_tail_cache@[m].0)@ != path@,
            ensures
                0 <= i <= n,
                i == 0 ==> forall|m: int|
                    0 <= m < n ==> (#[trigger] self.rollout_tail_cache@[m].0)@ != path@,
                i > 0 ==> self.tail_cache_map().contains_key(path@) && self.tail_cache_map().index(
                    path@,
                ).0 != mtime_unix_s,
            decreases i,
        {
            let e = &self.rollout_tail_cache[i - 1];
            if str_eq(e.0.as_str(), path) {
                proof {
                    lemma_tail_entries_found(self.rollout_tail_cache@, i - 1);
                }
                let same = match (&e.1.0, &mtime_unix_s) {
                    (Some(a), Some(b)) => *a == *b,
                    (None, None) => true,
                    _ => false,
                };
                if same {
                    return clone_opt_pending(&e.1.1);
                }
                break;
            }
            i = i - 1;
        }
        proof {
            if i == 0 {
                lemma_tail_entries_absent(self.rollout_tail_cache@, path@);
            }
        }
        let pending: Option<PendingFunctionCall> = match tail {
            Some(t) => crate::rollout::pending_function_call_from_tail(
                t.text.as_str(),
                t.started_mid_file,
            ),
            None => None,
        };
        let kept = clone_opt_pending(&pending);
        let ghost pre = self.rollout_tail_cache@;
        self.rollout_tail_cache.push((path.to_owned(), (mtime_unix_s, pending)));
        proof {
            assert(self.rollout_tail_cache@.drop_last() =~= pre);
            assert(self.tail_cache_map() =~= spec_tail_step(
                tail_entries_map(pre),
                path@,
                mtime_unix_s,
                opt_pending_view(kept),
            ));
        }
        kept
    }
}

/// A copy of an optional pending call with the same view.
fn clone_opt_pending(p: &Option<PendingFunctionCall>) -> (r: Option<PendingFunctionCall>)
    ensures
        opt_pending_view(r) == opt_pending_view(*p),
{
    match p {
        Some(c) => Some(PendingFunctionCall { call_id: c.call_id.clone(), name: c.name.clone() }),
        None => None,
    }
}

// ---------------------------------------------------------------------------
// Host selectors
// ---------------------------------------------------------------------------

/// Whether the trimmed selector reads `all`, ASCII case-insensitively.
pub open spec fn spec_is_all(t: Seq<char>) -> bool {
    t.len() == 3 && (t[0] == 'a' || t[0] == 'A') && (t[1] == 'l' || t[1] == 'L') && (t[2] == 'l'
        || t[2] == 'L')
}

/// The distinct non-empty hosts of the comma-separated segments, trimmed, in
/// first-appearance order.
pub open spec fn spec_host_parts(segs: Seq<Seq<char>>) -> Seq<Seq<char>>
    decreases segs.len(),
{
    if segs.len() == 0 {
        Seq::empty()
    } else {
        let rest = spec_host_parts(segs.drop_last());
        let h = crate::util::spec_trim(segs.last());
        if h.len() == 0 || rest.contains(h) {
            rest
        } else {
            rest.push(h)
        }
    }
}

/// What the host selector denotes: an empty selector means local; `all`
/// expands to local plus the fixed default remote set; otherwise the
/// distinct hosts of the comma list, or local when none remain.
pub open spec fn spec_parse_hosts(s: Seq<char>) -> Seq<Seq<char>> {
    let t = crate::util::spec_trim(s);
    if t.len() == 0 {
        seq!["local"@]
    } else if spec_is_all(t) {
        seq!["local"@, "home"@, "amirs-work-studio"@]
    } else {
        let parts = spec_host_parts(crate::util::spec_split_char(t, ','));
        if parts.len() == 0 {
            seq!["local"@]
        } else {
            parts
        }
    }
}

/// Parses the host selector.
pub fn parse_hosts(s: &str) -> (r: Vec<String>)
    ensures
        r@.map_values(|h: String| h@) == spec_parse_hosts(s@),
{
    let t = crate::util::trim_str(s);
    if t.unicode_len() == 0 {
        let mut out: Vec<String> = Vec::new();
        out.push("local".to_owned());
        proof {
            assert(out@.map_values(|h: String| h@) =~= spec_parse_hosts(s@));
        }
        return out;
    }
    let is_all = if t.unicode_len() == 3 {
        let c0 = t.as_str().get_char(0);
        let c1 = t.as_str().get_char(1);
        let c2 = t.as_str().get_char(2);
        (c0 == 'a' || c0 == 'A') && (c1 == 'l' || c1 == 'L') && (c2 == 'l' || c2 == 'L')
    } else {
        false
    };
    if is_all {
        let mut out: Vec<String> = Vec::new();
        out.push("local".to_owned());
        out.push("home".to_owned());
        out.push("amirs-work-studio".to_owned());
        proof {
            assert(out@.map_values(|h: String| h@) =~= spec_parse_hosts(s@));
        }
        return out;
    }
    let segs = crate::util::split_char(t.as_str(), ',');
    let ghost segs_v = segs@.map_values(|x: String| x@);
    let mut out: Vec<String> = Vec::new();
    let mut i: usize = 0;
    let n = segs.len();
    proof {
        assert(segs_v.take(0) =~= Seq::<Seq<char>>::empty());
        assert(out@.map_values(|h: String| h@) =~= spec_host_parts(segs_v.take(0)));
    }
    while i < n
        invariant
            n == segs@.len(),
            segs_v == segs@.map_values(|x: String| x@),
            0 <= i <= n,
            out@.map_values(|h: String| h@) == spec_host_parts(segs_v.take(i as int)),
        decreases n - i,
    {
        proof {
            assert(segs_v.take(i as int + 1).drop_last() =~= segs_v.take(i as int));
            assert(segs_v.take(i as int + 1).last() == segs_v[i as int]);
        }
        let h = crate::util::trim_str(segs[i].as_str());
        if h.unicode_len() > 0 && !hosts_contain(&out, h.as_str()) {
            let ghost pre = out@;
            out.push(h);
            proof {
                assert(out@.drop_last() =~= pre);
                assert(out@.map_values(|x: String| x@) =~= spec_host_parts(
                    segs_v.take(i as int + 1),
                ));
            }
        } else {
            proof {
                assert(out@.map_values(|x: String| x@) =~= spec_host_parts(
                    segs_v.take(i as int + 1),
                ));
            }
        }
        i = i + 1;
    }
    proof {
        assert(segs_v.take(n as int) =~= segs_v);
    }
    if out.len() == 0 {
        out.push("local".to_owned());
        proof {
            assert(out@.map_values(|h: String| h@) =~= spec_parse_hosts(s@));
        }
        return out;
    }
    proof {
        assert(out@.map_values(|h: String| h@) =~= spec_parse_hosts(s@));
    }
    out
}

/// Whether the list already carries a host with this text.
fn hosts_contain(hosts: &Vec<String>, h: &str) -> (r: bool)
    ensures
        r == hosts@.map_values(|x: String| x@).contains(h@),
{
    let ghost hv = hosts@.map_values(|x: String| x@);
    let mut i: usize = 0;
    let n = hosts.len();
    while i < n
        invariant
            n == hosts@.len(),
            hv == hosts@.map_values(|x: String| x@),
            0 <= i <= n,
            forall|j: int| 0 <= j < i ==> hv[j] != h@,
        decreases n - i,
    {
        if str_eq(hosts[i].as_str(), h) {
            assert(hv.contains(h@)) by {
                assert(hv[i as int] == h@);
            }
            return true;
        }
        i = i + 1;
    }
    assert(!hv.contains(h@));
    false
}


/// Every element of the sorted sequence is an element of the input.
pub proof fn lemma_sort_rows_members(rows: Seq<SessionRowV>)
    ensures
        forall|k: int|
            0 <= k < spec_sort_rows(rows).len() ==> rows.contains(
                #[trigger] spec_sort_rows(rows)[k],
            ),
    decreases rows.len(),
{
    if rows.len() > 0 {
        lemma_sort_rows_members(rows.drop_last());
        lemma_sort_rows_sorted(rows.drop_last());
        lemma_insert_row_sorted(spec_sort_rows(rows.drop_last()), rows.last());
        let sorted_rest = spec_sort_rows(rows.drop_last());
        let r = spec_sort_rows(rows);
        assert forall|k: int| 0 <= k < r.len() implies rows.contains(#[trigger] r[k]) by {
            if r[k] == rows.last() {
                assert(rows[rows.len() - 1] == rows.last());
            } else {
                assert(sorted_rest.contains(r[k]));
                let m = choose|m: int| 0 <= m < sorted_rest.len() && sorted_rest[m] == r[k];
                assert(rows.drop_last().contains(r[k]));
                let w = choose|w: int|
                    0 <= w < rows.drop_last().len() && rows.drop_last()[w] == r[k];
                assert(rows[w] == r[k]);
            }
        }
    }
}

/// A row after the name store stamps it: its name is exactly what the
/// effective map holds for its identity.
pub open spec fn spec_stamped(
    r: SessionRowV,
    names: Map<(Seq<char>, Seq<char>), Seq<char>>,
) -> bool {
    r.name == (if names.contains_key((r.host, r.thread_id)) {
        Some(names[(r.host, r.thread_id)])
    } else {
        None::<Seq<char>>
    })
}

/// A row relabeled under the host the caller asked for.
pub open spec fn spec_set_host(r: SessionRowV, host: Seq<char>) -> SessionRowV {
    SessionRowV { host, ..r }
}

pub open spec fn spec_relabel(rows: Seq<SessionRowV>, host: Seq<char>) -> Seq<SessionRowV> {
    rows.map_values(|r: SessionRowV| spec_set_host(r, host))
}

/// Every row the remote outcomes contribute, in order, each relabeled under
/// its requested host: a misconfigured remote echoing `local` is overridden.
pub open spec fn spec_remote_rows(remotes: Seq<RemoteOutcomeV>) -> Seq<SessionRowV>
    decreases remotes.len(),
{
    if remotes.len() == 0 {
        Seq::empty()
    } else {
        spec_remote_rows(remotes.drop_last()) + (match remotes.last().snapshot {
            Ok(s) => spec_relabel(s.sessions, remotes.last().host),
            Err(e) => Seq::<SessionRowV>::empty(),
        })
    }
}

/// A row with its name stamped from the effective map.
pub open spec fn spec_stamp_row(
    r: SessionRowV,
    names: Map<(Seq<char>, Seq<char>), Seq<char>>,
) -> SessionRowV {
    SessionRowV {
        name: if names.contains_key((r.host, r.thread_id)) {
            Some(names[(r.host, r.thread_id)])
        } else {
            None
        },
        ..r
    }
}

pub open spec fn spec_stamp_rows(
    rows: Seq<SessionRowV>,
    names: Map<(Seq<char>, Seq<char>), Seq<char>>,
) -> Seq<SessionRowV> {
    rows.map_values(|r: SessionRowV| spec_stamp_row(r, names))
}

/// With no local host requested the local contribution is empty, so the
/// snapshot's rows are pinned completely by the remote outcomes and the
/// effective name map.
pub proof fn lemma_rows_pinned_without_local(
    local_rows: Seq<SessionRowV>,
    remotes: Seq<RemoteOutcomeV>,
    names: Map<(Seq<char>, Seq<char>), Seq<char>>,
    sessions: Seq<SessionRowV>,
)
    requires
        local_rows.len() == 0,
        sessions == spec_sort_rows(spec_stamp_rows(local_rows + spec_remote_rows(remotes), names)),
    ensures
        sessions == spec_sort_rows(spec_stamp_rows(spec_remote_rows(remotes), names)),
{
    assert(local_rows + spec_remote_rows(remotes) =~= spec_remote_rows(remotes));
}

/// Resubmitting an identical refresh is idempotent where the rows are fully
/// pinned: two cycles with the same remote outcomes and the same effective
/// name map show exactly the same rows in the same order.
pub proof fn lemma_remote_refresh_deterministic(
    remotes: Seq<RemoteOutcomeV>,
    names: Map<(Seq<char>, Seq<char>), Seq<char>>,
    s1: Seq<SessionRowV>,
    s2: Seq<SessionRowV>,
)
    requires
        s1 == spec_sort_rows(spec_stamp_rows(spec_remote_rows(remotes), names)),
        s2 == spec_sort_rows(spec_stamp_rows(spec_remote_rows(remotes), names)),
    ensures
        s1 == s2,
{
}

impl Collector {
    /// Collects the local host: discovery output and per-file facts become
    /// one row per session thread, enriched through the caches, sorted most
    /// recent first.
    pub fn collect_local_rows(
        &mut self,
        lo: &LocalObservation,
        now_unix_s: i64,
        debug: bool,
    ) -> (r: (Vec<SessionRow>, Vec<String>))
        ensures
            r.1@.map_values(|w: String| w@) == spec_builders(
                lo.procs@.map_values(|p: CodexLsofProcess| p@),
                debug,
            ).1,
            r.0@.len() == spec_builders(
                lo.procs@.map_values(|p: CodexLsofProcess| p@),
                debug,
            ).0.len(),
            sorted_rows(r.0@.map_values(|x: SessionRow| x@)),
            forall|k: int|
                0 <= k < r.0@.len() ==> (#[trigger] r.0@[k]@).host == "local"@
                    && r.0@[k]@.name is None,
            exists|pre: Seq<SessionRowV>|
                #![trigger pre.len()]
                {
                    let bs = spec_builders(
                        lo.procs@.map_values(|p: CodexLsofProcess| p@),
                        debug,
                    ).0;
                    &&& pre.len() == bs.len()
                    &&& r.0@.map_values(|x: SessionRow| x@) == spec_sort_rows(pre)
                    &&& (forall|k: int|
                        0 <= k < pre.len() ==> {
                            &&& (#[trigger] pre[k]).host == "local"@
                            &&& pre[k].name is None
                            &&& pre[k].thread_id == bs[k].thread_id
                            &&& pre[k].pids == bs[k].pids
                            &&& pre[k].tty == bs[k].tty
                            &&& pre[k].rollout_path == bs[k].rollout_path
                        })
                },
    {
        let (builders, warnings) = group_rollouts_into_builders(&lo.procs, debug);
        let ghost bs = spec_builders(lo.procs@.map_values(|p: CodexLsofProcess| p@), debug).0;
        let mut rows: Vec<SessionRow> = Vec::new();
        let mut i: usize = 0;
        let n = builders.len();
        while i < n
            invariant
                n == builders@.len(),
                bs == builders@.map_values(|b: SessionBuilder| b@),
                0 <= i <= n,
                rows@.len() == i,
                forall|k: int|
                    0 <= k < rows@.len() ==> {
                        &&& (#[trigger] rows@[k]@).host == "local"@
                        &&& rows@[k]@.name is None
                        &&& rows@[k]@.thread_id == bs[k].thread_id
                        &&& rows@[k]@.pids == bs[k].pids
                        &&& rows@[k]@.tty == bs[k].tty
                        &&& rows@[k]@.rollout_path == bs[k].rollout_path
                    },
            decreases n - i,
        {
            proof {
                assert(bs[i as int] == builders@[i as int]@);
            }
            let b = &builders[i];
            let facts = match &b.rollout_path {
                Some(p) => find_facts(&lo.facts, p.as_str()),
                None => None,
            };
            let mtime_unix_s: Option<i64> = match facts {
                Some(f) => f.mtime_unix_s,
                None => None,
            };
            let (meta, meta_error): (Option<SessionMeta>, Option<String>) = match facts {
                Some(f) => match &f.meta_line {
                    Some(line) => match crate::rollout::parse_session_meta_line(line.as_str()) {
                        Ok(m) => (Some(m), None),
                        Err(e) => (None, Some(e)),
                    },
                    None => (None, crate::util::clone_opt_string(&f.meta_read_error)),
                },
                None => (None, None),
            };
            let title = self.titles.get_title(b.thread_id.as_str());
            let cwd = effective_cwd(b, meta.as_ref());
            let (repo_root, repo_probe_error): (Option<String>, Option<String>) = match &cwd {
                Some(c) => {
                    let probe = match facts {
                        Some(f) => f.git_probe.as_ref(),
                        None => None,
                    };
                    self.git_cache.repo_root(c.as_str(), now_unix_s, probe)
                },
                None => (None, None),
            };
            let pending: Option<PendingFunctionCall> = match &b.rollout_path {
                Some(p) => {
                    let tail = match facts {
                        Some(f) => f.tail.as_ref(),
                        None => None,
                    };
                    self.pending_hint(p.as_str(), mtime_unix_s, tail)
                },
                None => None,
            };
            let row = build_row(
                b,
                now_unix_s,
                mtime_unix_s,
                meta.as_ref(),
                meta_error,
                title,
                repo_root,
                repo_probe_error,
                pending.as_ref(),
                debug,
            );
            let ghost pre = rows@;
            rows.push(row);
            proof {
                assert(rows@.drop_last() =~= pre);
            }
            i = i + 1;
        }
        let sorted = sort_rows(rows);
        proof {
            let rv = rows@.map_values(|x: SessionRow| x@);
            lemma_sort_rows_sorted(rv);
            lemma_sort_rows_members(rv);
            let sv = sorted@.map_values(|x: SessionRow| x@);
            assert forall|k: int|
                0 <= k < sorted@.len() implies (#[trigger] sorted@[k]@).host == "local"@
                && sorted@[k]@.name is None by {
                assert(sv[k] == sorted@[k]@);
                assert(rv.contains(sv[k]));
                let w = choose|w: int| 0 <= w < rv.len() && rv[w] == sv[k];
                assert(rows@[w]@ == sv[k]);
            }
            assert(forall|k: int|
                0 <= k < rv.len() ==> #[trigger] rv[k] == rows@[k]@);
        }
        (sorted, warnings)
    }

    /// One full collection cycle: local rows when requested, each remote
    /// host's snapshot relabeled under the name the caller asked for, one
    /// failure entry per unreachable host, names stamped from the refreshed
    /// store, and a deterministic ordering — a failure at one host never
    /// suppresses another host's rows.
    pub fn collect(&mut self, hosts: &Vec<String>, debug: bool, obs: CollectObservation) -> (r:
        Snapshot)
        requires
            spec_wants_local(spec_host_list(hosts@.map_values(|h: String| h@))) ==> obs.local
                is Some,
            obs.remote@.map_values(|o: RemoteOutcome| o@.host) == spec_remote_hosts(
                spec_host_list(hosts@.map_values(|h: String| h@)),
            ),
        ensures
            r@.generated_at_unix_s == obs.now_unix_s,
            r@.host == crate::util::spec_join_comma(
                spec_host_list(hosts@.map_values(|h: String| h@)),
            ),
            sorted_rows(r@.sessions),
            r@.host_errors matches Some(he) && he == spec_collect_host_errors(
                if spec_wants_local(spec_host_list(hosts@.map_values(|h: String| h@))) {
                    match obs.local {
                        Some(Err(ref e)) => Some(e@),
                        _ => None,
                    }
                } else {
                    None
                },
                obs.remote@.map_values(|o: RemoteOutcome| o@),
            ),
            r@.warnings is Some,
            forall|k: int|
                0 <= k < r@.sessions.len() ==> spec_stamped(
                    #[trigger] r@.sessions[k],
                    final(self).names_view().names_map(),
                ),
            forall|k: int|
                0 <= k < r@.sessions.len() ==> ((#[trigger] r@.sessions[k]).host == "local"@
                    || spec_remote_hosts(spec_host_list(hosts@.map_values(|h: String| h@))).contains(
                    r@.sessions[k].host,
                )),
            exists|local_rows: Seq<SessionRowV>|
                {
                    &&& local_rows.len() == (if spec_wants_local(
                        spec_host_list(hosts@.map_values(|h: String| h@)),
                    ) {
                        match obs.local {
                            Some(Ok(ref lo)) => spec_builders(
                                lo.procs@.map_values(|p: CodexLsofProcess| p@),
                                debug,
                            ).0.len(),
                            _ => 0,
                        }
                    } else {
                        0
                    })
                    &&& (forall|k: int|
                        0 <= k < local_rows.len() ==> (#[trigger] local_rows[k]).host == "local"@)
                    &&& r@.sessions == spec_sort_rows(
                        spec_stamp_rows(
                            local_rows + spec_remote_rows(
                                obs.remote@.map_values(|o: RemoteOutcome| o@),
                            ),
                            final(self).names_view().names_map(),
                        ),
                    )
                },
    {
        let ghost hosts_v = spec_host_list(hosts@.map_values(|h: String| h@));
        let mut host_list: Vec<String> = Vec::new();
        let mut hi: usize = 0;
        while hi < hosts.len()
            invariant
                0 <= hi <= hosts@.len(),
                host_list@.map_values(|h: String| h@) == hosts@.map_values(|h: String| h@).take(
                    hi as int,
                ),
            decreases hosts@.len() - hi,
        {
            proof {
                assert(hosts@.map_values(|h: String| h@).take(hi as int + 1).drop_last()
                    =~= hosts@.map_values(|h: String| h@).take(hi as int));
            }
            let ghost pre = host_list@;
            host_list.push(hosts[hi].clone());
            proof {
                assert(host_list@.drop_last() =~= pre);
                assert(host_list@.map_values(|h: String| h@) =~= hosts@.map_values(
                    |h: String| h@,
                ).take(hi as int + 1));
            }
            hi = hi + 1;
        }
        proof {
            assert(hosts@.map_values(|h: String| h@).take(hosts@.len() as int) =~= hosts@.map_values(
                |h: String| h@,
            ));
        }
        if host_list.len() == 0 {
            host_list.push("local".to_owned());
            proof {
                assert(host_list@.map_values(|h: String| h@) =~= hosts_v);
            }
        }
        proof {
            assert(host_list@.map_values(|h: String| h@) =~= hosts_v);
        }

        let mut warnings: Vec<String> = Vec::new();
        let mut host_errors: Vec<HostError> = Vec::new();
        let mut sessions: Vec<SessionRow> = Vec::new();

        // Refresh the title cache from this cycle's reading of its file; a
        // break in the file is a caller-visible warning, not a silent miss.
        match &obs.titles_file {
            FileReading::Missing => {
                self.titles.note_missing();
            },
            FileReading::Unreadable { error: _ } => {
                self.titles.note_missing();
            },
            FileReading::Present { mtime_unix_s, content } => {
                match content {
                    Some(text) => {
                        match self.titles.refresh_from_text(*mtime_unix_s, text.as_str()) {
                            Ok(()) => {},
                            Err(msg) => {
                                warnings.push(msg);
                            },
                        }
                    },
                    None => {},
                }
            },
        }
        let wants_local = hosts_contain(&host_list, "local");
        proof {
            assert(wants_local == spec_wants_local(hosts_v));
        }
        let ghost local_err: Option<Seq<char>> = if spec_wants_local(hosts_v) {
            match obs.local {
                Some(Err(ref e)) => Some(e@),
                _ => None,
            }
        } else {
            None
        };
        let ghost mut local_rows_v: Seq<SessionRowV> = Seq::empty();
        if wants_local {
            match &obs.local {
                Some(Ok(lo)) => {
                    let (mut rows, mut local_warnings) = self.collect_local_rows(
                        lo,
                        obs.now_unix_s,
                        debug,
                    );
                    let ghost rows_pre = rows@;
                    let ghost sessions_pre = sessions@;
                    sessions.append(&mut rows);
                    warnings.append(&mut local_warnings);
                    proof {
                        local_rows_v = rows_pre.map_values(|x: SessionRow| x@);
                        assert(sessions@ =~= sessions_pre + rows_pre);
                        assert(sessions@.map_values(|x: SessionRow| x@) =~= local_rows_v);
                        assert forall|k: int|
                            0 <= k < sessions@.len() implies ((#[trigger] sessions@[k]@).host
                            == "local"@) by {
                            assert(sessions@[k] == rows_pre[k]);
                        }
                    }
                },
                Some(Err(e)) => {
                    host_errors.push(HostError { host: "local".to_owned(), error: e.clone() });
                },
                None => {
                    proof {
                        assert(false);
                    }
                },
            }
        }
        proof {
            assert(sessions@.map_values(|x: SessionRow| x@) =~= local_rows_v);
            assert(local_rows_v.len() as int == (if spec_wants_local(hosts_v) {
                match obs.local {
                    Some(Ok(ref lo)) => spec_builders(
                        lo.procs@.map_values(|p: CodexLsofProcess| p@),
                        debug,
                    ).0.len() as int,
                    _ => 0int,
                }
            } else {
                0int
            }));
            assert(forall|k: int|
                0 <= k < local_rows_v.len() ==> (#[trigger] local_rows_v[k]).host == "local"@);
        }
        proof {
            assert(host_errors@.map_values(|e: HostError| e@) =~= spec_collect_host_errors(
                local_err,
                obs.remote@.map_values(|o: RemoteOutcome| o@).take(0),
            ));
        }

        let ghost remotes_v = obs.remote@.map_values(|o: RemoteOutcome| o@);
        let mut ri: usize = 0;
        let rn = obs.remote.len();
        proof {
            assert(local_rows_v + spec_remote_rows(remotes_v.take(0)) =~= local_rows_v);
        }
        while ri < rn
            invariant
                rn == obs.remote@.len(),
                remotes_v == obs.remote@.map_values(|o: RemoteOutcome| o@),
                remotes_v.map_values(|o: RemoteOutcomeV| o.host) == spec_remote_hosts(hosts_v),
                0 <= ri <= rn,
                host_errors@.map_values(|e: HostError| e@) == spec_collect_host_errors(
                    local_err,
                    remotes_v.take(ri as int),
                ),
                sessions@.map_values(|x: SessionRow| x@) == local_rows_v + spec_remote_rows(
                    remotes_v.take(ri as int),
                ),
                forall|k: int|
                    0 <= k < sessions@.len() ==> ((#[trigger] sessions@[k]@).host == "local"@
                        || spec_remote_hosts(hosts_v).contains(sessions@[k]@.host)),
            decreases rn - ri,
        {
            proof {
                assert(remotes_v.take(ri as int + 1).drop_last() =~= remotes_v.take(ri as int));
                assert(remotes_v.take(ri as int + 1).last() == remotes_v[ri as int]);
                assert(remotes_v.map_values(|o: RemoteOutcomeV| o.host)[ri as int]
                    == remotes_v[ri as int].host);
                assert(spec_remote_hosts(hosts_v).contains(remotes_v[ri as int].host)) by {
                    assert(spec_remote_hosts(hosts_v)[ri as int] == remotes_v[ri as int].host);
                }
            }
            let outcome = &obs.remote[ri];
            let ghost sessions_base = sessions@.map_values(|x: SessionRow| x@);
            match &outcome.snapshot {
                Ok(snap) => {
                    let ghost sv = snap.sessions@.map_values(|x: SessionRow| x@);
                    let mut si: usize = 0;
                    let sn = snap.sessions.len();
                    proof {
                        assert(spec_relabel(sv.take(0), outcome@.host) =~= Seq::<
                            SessionRowV,
                        >::empty());
                        assert(sessions@.map_values(|x: SessionRow| x@) =~= sessions_base
                            + spec_relabel(sv.take(0), outcome@.host));
                    }
                    while si < sn
                        invariant
                            sn == snap.sessions@.len(),
                            sv == snap.sessions@.map_values(|x: SessionRow| x@),
                            spec_remote_hosts(hosts_v).contains(outcome@.host),
                            outcome == &obs.remote@[ri as int],
                            0 <= si <= sn,
                            sessions@.map_values(|x: SessionRow| x@) == sessions_base
                                + spec_relabel(sv.take(si as int), outcome@.host),
                            forall|k: int|
                                0 <= k < sessions@.len() ==> ((#[trigger] sessions@[k]@).host
                                    == "local"@ || spec_remote_hosts(hosts_v).contains(
                                    sessions@[k]@.host,
                                )),
                        decreases sn - si,
                    {
                        proof {
                            assert(sv.take(si as int + 1).drop_last() =~= sv.take(si as int));
                            assert(sv.take(si as int + 1).last() == sv[si as int]);
                        }
                        let mut row = snap.sessions[si].clone_row();
                        row.host = outcome.host.clone();
                        let ghost row_v = row@;
                        proof {
                            assert(row_v =~= spec_set_host(sv[si as int], outcome@.host));
                        }
                        let ghost pre = sessions@;
                        sessions.push(row);
                        proof {
                            assert(sessions@ == pre.push(sessions@.last()));
                            assert(sessions@.drop_last() =~= pre);
                            assert(sessions@[pre.len() as int]@ == row_v);
                            let lhs = sessions@.map_values(|x: SessionRow| x@);
                            let rhs = sessions_base + spec_relabel(
                                sv.take(si as int + 1),
                                outcome@.host,
                            );
                            assert(pre.map_values(|x: SessionRow| x@) == sessions_base
                                + spec_relabel(sv.take(si as int), outcome@.host));
                            assert(spec_relabel(sv.take(si as int + 1), outcome@.host).len() == si
                                + 1);
                            assert(spec_relabel(sv.take(si as int), outcome@.host).len()
                                == si as int);
                            assert(pre.map_values(|x: SessionRow| x@).len() == pre.len());
                            assert(sessions@.len() == pre.len() + 1);
                            assert(lhs.len() == rhs.len());
                            assert forall|j: int| 0 <= j < lhs.len() implies lhs[j] == rhs[j] by {
                                assert(lhs[j] == sessions@[j]@);
                                if j < pre.len() {
                                    assert(sessions@[j] == pre[j]);
                                    assert(lhs[j] == pre.map_values(|x: SessionRow| x@)[j]);
                                    assert(rhs[j] == (sessions_base + spec_relabel(
                                        sv.take(si as int),
                                        outcome@.host,
                                    ))[j]);
                                } else {
                                    assert(sessions@[j]@ == row_v);
                                    assert(rhs[j] == spec_relabel(
                                        sv.take(si as int + 1),
                                        outcome@.host,
                                    )[si as int]);
                                }
                            }
                            assert(lhs =~= rhs);
                            assert(sessions@.map_values(|x: SessionRow| x@) == sessions_base
                                + spec_relabel(sv.take(si as int + 1), outcome@.host));
                        }
                        si = si + 1;
                    }
                    proof {
                        assert(sv.take(sn as int) =~= sv);
                        assert(remotes_v[ri as int].snapshot == Ok::<SnapshotV, Seq<char>>(
                            snap@,
                        ));
                        assert(snap@.sessions == sv);
                        assert(sessions@.map_values(|x: SessionRow| x@) =~= local_rows_v
                            + spec_remote_rows(remotes_v.take(ri as int + 1)));
                    }
                    match &snap.host_errors {
                        Some(hes) => {
                            append_host_errors(&mut host_errors, hes);
                            proof {
                                assert(host_errors@.map_values(|e: HostError| e@)
                                    =~= spec_collect_host_errors(
                                    local_err,
                                    remotes_v.take(ri as int + 1),
                                ));
                            }
                        },
                        None => {},
                    }
                    match &snap.warnings {
                        Some(ws) => {
                            let mut wi: usize = 0;
                            while wi < ws.len()
                                decreases ws@.len() - wi,
                            {
                                warnings.push(ws[wi].clone());
                                wi = wi + 1;
                            }
                        },
                        None => {},
                    }
                    proof {
                        assert(host_errors@.map_values(|e: HostError| e@)
                            =~= spec_collect_host_errors(local_err, remotes_v.take(ri as int + 1)));
                    }
                },
                Err(e) => {
                    let ghost pre = host_errors@;
                    host_errors.push(HostError { host: outcome.host.clone(), error: e.clone() });
                    proof {
                        assert(host_errors@.drop_last() =~= pre);
                        assert(host_errors@.map_values(|x: HostError| x@)
                            =~= spec_collect_host_errors(local_err, remotes_v.take(ri as int + 1)));
                        assert(remotes_v[ri as int].snapshot is Err);
                        assert(sessions@.map_values(|x: SessionRow| x@) =~= local_rows_v
                            + spec_remote_rows(remotes_v.take(ri as int + 1)));
                    }
                },
            }
            ri = ri + 1;
        }
        proof {
            assert(remotes_v.take(rn as int) =~= remotes_v);
        }

        // Refresh the name store once, then stamp every row from it.
        match &obs.names_log {
            FileReading::Missing => {
                self.names.note_missing();
            },
            FileReading::Unreadable { error } => {
                if debug {
                    warnings.push(names_store_warning(self.names.path(), error.as_str()));
                }
            },
            FileReading::Present { mtime_unix_s, content } => {
                if self.names.is_unchanged(*mtime_unix_s) {
                } else {
                    match content {
                        Some(lines) => {
                            match self.names.refresh_from_lines(*mtime_unix_s, lines) {
                                Ok(()) => {},
                                Err(msg) => {
                                    if debug {
                                        warnings.push(
                                            names_store_warning(self.names.path(), msg.as_str()),
                                        );
                                    }
                                },
                            }
                        },
                        None => {},
                    }
                }
            },
        }
        let ghost names_m = self.names_view().names_map();
        let mut stamped: Vec<SessionRow> = Vec::new();
        let mut sti: usize = 0;
        let stn = sessions.len();
        proof {
            assert(stamped@.map_values(|x: SessionRow| x@) =~= spec_stamp_rows(
                sessions@.map_values(|x: SessionRow| x@).take(0),
                names_m,
            ));
        }
        while sti < stn
            invariant
                stn == sessions@.len(),
                names_m == self.names_view().names_map(),
                0 <= sti <= stn,
                stamped@.len() == sti,
                stamped@.map_values(|x: SessionRow| x@) == spec_stamp_rows(
                    sessions@.map_values(|x: SessionRow| x@).take(sti as int),
                    names_m,
                ),
                forall|k: int|
                    0 <= k < stamped@.len() ==> spec_stamped(
                        (#[trigger] stamped@[k])@,
                        self.names_view().names_map(),
                    ),
                forall|k: int|
                    0 <= k < sessions@.len() ==> ((#[trigger] sessions@[k]@).host == "local"@
                        || spec_remote_hosts(hosts_v).contains(sessions@[k]@.host)),
                forall|k: int|
                    0 <= k < stamped@.len() ==> ((#[trigger] stamped@[k]@).host == "local"@
                        || spec_remote_hosts(hosts_v).contains(stamped@[k]@.host)),
            decreases stn - sti,
        {
            proof {
                let m = sessions@.map_values(|x: SessionRow| x@);
                assert(m.take(sti as int + 1).drop_last() =~= m.take(sti as int));
                assert(m.take(sti as int + 1).last() == m[sti as int]);
            }
            let mut row = sessions[sti].clone_row();
            let key = SessionNameKey {
                host: row.host.clone(),
                thread_id: row.thread_id.clone(),
            };
            row.name = match self.names.get_cached(&key) {
                Some(nm) => Some(nm.clone()),
                None => None,
            };
            let ghost row_v = row@;
            proof {
                assert(row_v =~= spec_stamp_row(sessions@[sti as int]@, names_m));
            }
            let ghost pre = stamped@;
            stamped.push(row);
            proof {
                assert(stamped@.drop_last() =~= pre);
                assert(stamped@[pre.len() as int]@ == row_v);
                let m = sessions@.map_values(|x: SessionRow| x@);
                let lhs = stamped@.map_values(|x: SessionRow| x@);
                let rhs = spec_stamp_rows(m.take(sti as int + 1), names_m);
                assert(pre.map_values(|x: SessionRow| x@) == spec_stamp_rows(
                    m.take(sti as int),
                    names_m,
                ));
                assert(lhs.len() == rhs.len());
                assert forall|j: int| 0 <= j < lhs.len() implies lhs[j] == rhs[j] by {
                    assert(lhs[j] == stamped@[j]@);
                    if j < pre.len() {
                        assert(stamped@[j] == pre[j]);
                        assert(lhs[j] == pre.map_values(|x: SessionRow| x@)[j]);
                        assert(rhs[j] == spec_stamp_rows(m.take(sti as int), names_m)[j]);
                    } else {
                        assert(stamped@[j]@ == row_v);
                        assert(rhs[j] == spec_stamp_row(m[sti as int], names_m));
                    }
                }
                assert(lhs =~= rhs);
                assert(stamped@.map_values(|x: SessionRow| x@) == spec_stamp_rows(
                    m.take(sti as int + 1),
                    names_m,
                ));
            }
            sti = sti + 1;
        }
        proof {
            assert(sessions@.map_values(|x: SessionRow| x@).take(stn as int) =~= sessions@.map_values(
                |x: SessionRow| x@,
            ));
        }
        let sorted = sort_rows(stamped);
        proof {
            lemma_sort_rows_members(stamped@.map_values(|x: SessionRow| x@));
            assert(sorted@.map_values(|x: SessionRow| x@) == spec_sort_rows(
                spec_stamp_rows(local_rows_v + spec_remote_rows(remotes_v), names_m),
            ));
        }
        let label = crate::util::join_comma(&host_list);
        let snap = Snapshot {
            generated_at_unix_s: obs.now_unix_s,
            host: label,
            sessions: sorted,
            host_errors: Some(host_errors),
            warnings: Some(warnings),
        };
        snap
    }
}

/// Appends every failure entry of one snapshot, preserving the fold.
fn append_host_errors(dst: &mut Vec<HostError>, src: &Vec<HostError>)
    ensures
        final(dst)@.map_values(|e: HostError| e@) == old(dst)@.map_values(|e: HostError| e@)
            + src@.map_values(|e: HostError| e@),
{
    let ghost base = dst@.map_values(|e: HostError| e@);
    let ghost add = src@.map_values(|e: HostError| e@);
    let mut i: usize = 0;
    let n = src.len();
    proof {
        assert(add.take(0) =~= Seq::<HostErrorV>::empty());
        assert(base + add.take(0) =~= base);
    }
    while i < n
        invariant
            n == src@.len(),
            base == old(dst)@.map_values(|e: HostError| e@),
            add == src@.map_values(|e: HostError| e@),
            0 <= i <= n,
            dst@.map_values(|e: HostError| e@) == base + add.take(i as int),
        decreases n - i,
    {
        proof {
            assert(add.take(i as int + 1).drop_last() =~= add.take(i as int));
            assert(add.take(i as int + 1).last() == add[i as int]);
            assert(add[i as int] == src@[i as int]@);
        }
        let e = &src[i];
        let entry = HostError { host: e.host.clone(), error: e.error.clone() };
        proof {
            assert(entry@ =~= src@[i as int]@);
        }
        let ghost pre = dst@;
        dst.push(entry);
        proof {
            assert(dst@.drop_last() =~= pre);
            assert(dst@.len() == pre.len() + 1);
            assert(pre.map_values(|e2: HostError| e2@) == base + add.take(i as int));
            assert(pre.map_values(|e2: HostError| e2@).len() == pre.len());
            assert(add.take(i as int).len() == i as int);
            assert(pre.len() == base.len() + i);
            assert(dst@.map_values(|e2: HostError| e2@).len() == base.len() + i + 1);
            assert(add.take(i as int + 1).len() == i + 1);
            assert(dst@ == pre.push(entry));
            assert(pre.push(entry)[pre.len() as int] == entry);
            assert(dst@[pre.len() as int] == entry);
            let lhs = dst@.map_values(|e2: HostError| e2@);
            let rhs = base + add.take(i as int + 1);
            assert forall|j: int| 0 <= j < lhs.len() implies lhs[j] == rhs[j] by {
                assert(lhs[j] == dst@[j]@);
                if j < pre.len() {
                    assert(dst@[j] == pre[j]);
                    assert(pre.map_values(|e2: HostError| e2@)[j] == pre[j]@);
                    assert(rhs[j] == (base + add.take(i as int))[j]);
                } else {
                    assert(dst@[j] == entry);
                    assert(rhs[j] == add[i as int]);
                }
            }
            assert(lhs =~= rhs);
            assert(dst@.map_values(|e2: HostError| e2@) == base + add.take(i as int + 1));
        }
        i = i + 1;
    }
    proof {
        assert(add.take(n as int) =~= add);
    }
}

/// The warning shown when the name store's backing log cannot be used.
fn names_store_warning(path: &str, msg: &str) -> (r: String)
    ensures
        r@ == "names store ("@ + path@ + "): "@ + msg@,
{
    let mut w = "names store (".to_owned();
    w.append(path);
    w.append("): ");
    w.append(msg);
    proof {
        assert(w@ =~= "names store ("@ + path@ + "): "@ + msg@);
    }
    w
}

/// The facts gathered for a transcript path, when the cycle has them.
fn find_facts<'a>(facts: &'a Vec<SessionFileFacts>, path: &str) -> (r: Option<&'a SessionFileFacts>)
    ensures
        r matches Some(f) ==> f.rollout_path@ == path@,
{
    let mut i: usize = 0;
    let n = facts.len();
    while i < n
        invariant
            n == facts@.len(),
            0 <= i <= n,
        decreases n - i,
    {
        if str_eq(facts[i].rollout_path.as_str(), path) {
            return Some(&facts[i]);
        }
        i = i + 1;
    }
    None
}

} // verus!
