use vstd::prelude::*;
use vstd::string::StrSliceExecFns;
use vstd::string::StringExecFns;

use crate::model::{opt_view, SessionMeta};
use serde_json::Value;
use crate::util::{lemma_str_pair_absent, lemma_str_pair_found, split_lines, spec_split_lines,
    spec_trim, str_eq, str_pair_map, trim_str};

verus! {

/// A tool invocation observed in a transcript with no matching completion
/// record yet.
#[derive(Clone, Debug, PartialEq, Eq)]
pub struct PendingFunctionCall {
    pub call_id: String,
    pub name: String,
}

/// What one transcript record means to the tail scan: a tool call, its
/// completion, or something it ignores.
#[derive(Clone, Debug)]
pub enum RolloutEvent {
    Call { call_id: String, name: String },
    Output { call_id: String },
    Other,
}

#[verifier::ext_equal]
pub ghost enum RolloutEventV {
    Call { call_id: Seq<char>, name: Seq<char> },
    Output { call_id: Seq<char> },
    Other,
}

impl View for RolloutEvent {
    type V = RolloutEventV;

    open spec fn view(&self) -> RolloutEventV {
        match self {
            RolloutEvent::Call { call_id, name } => RolloutEventV::Call {
                call_id: call_id@,
                name: name@,
            },
            RolloutEvent::Output { call_id } => RolloutEventV::Output { call_id: call_id@ },
            RolloutEvent::Other => RolloutEventV::Other,
        }
    }
}

// ---------------------------------------------------------------------------
// The pending-call computation
// ---------------------------------------------------------------------------

/// The calls still open after replaying the events in order: a call opens
/// its id (overwriting the name an earlier call with the same id left), a
/// completion closes it.
pub open spec fn pending_map(events: Seq<RolloutEventV>) -> Map<Seq<char>, Seq<char>>
    decreases events.len(),
{
    if events.len() == 0 {
        Map::empty()
    } else {
        let m = pending_map(events.drop_last());
        match events.last() {
            RolloutEventV::Call { call_id, name } => m.insert(call_id, name),
            RolloutEventV::Output { call_id } => m.remove(call_id),
            RolloutEventV::Other => m,
        }
    }
}

/// The most recently opened call whose id is still pending, walking the
/// events backwards.
pub open spec fn last_pending_call(
    events: Seq<RolloutEventV>,
    pending: Map<Seq<char>, Seq<char>>,
) -> Option<(Seq<char>, Seq<char>)>
    decreases events.len(),
{
    if events.len() == 0 {
        None
    } else {
        match events.last() {
            RolloutEventV::Call { call_id, name } => if pending.contains_key(call_id) {
                Some((call_id, pending[call_id]))
            } else {
                last_pending_call(events.drop_last(), pending)
            },
            _ => last_pending_call(events.drop_last(), pending),
        }
    }
}

/// What the tail scan reports for a sequence of records: the most recently
/// opened call with no completion yet, with the name its latest opening
/// carried; `None` when every call has completed.
pub open spec fn spec_pending_call(events: Seq<RolloutEventV>) -> Option<(Seq<char>, Seq<char>)> {
    last_pending_call(events, pending_map(events))
}

/// Resolves the pending call from decoded records, exactly as
/// `spec_pending_call` states it.
pub fn pending_from_events(events: &Vec<RolloutEvent>) -> (r: Option<PendingFunctionCall>)
    ensures
        match r {
            Some(p) => spec_pending_call(events@.map_values(|e: RolloutEvent| e@)) == Some(
                (p.call_id@, p.name@),
            ),
            None => spec_pending_call(events@.map_values(|e: RolloutEvent| e@)) is None,
        },
{
    let ghost evs = events@.map_values(|e: RolloutEvent| e@);
    let mut pending: Vec<(String, String)> = Vec::new();
    let mut order: Vec<String> = Vec::new();
    let mut i: usize = 0;
    let n = events.len();
    proof {
        assert(evs.take(0) =~= Seq::<RolloutEventV>::empty());
        assert(pending@.take(0) =~= Seq::<(String, String)>::empty());
        assert(str_pair_map(pending@) =~= pending_map(evs.take(0)));
        assert(order@.take(0) =~= Seq::<String>::empty());
    }
    while i < n
        invariant
            n == events@.len(),
            evs == events@.map_values(|e: RolloutEvent| e@),
            0 <= i <= n,
            str_pair_map(pending@) == pending_map(evs.take(i as int)),
            order@.map_values(|s: String| s@) == call_ids_of(evs.take(i as int)),
        decreases n - i,
    {
        proof {
            assert(evs.take(i as int + 1).drop_last() =~= evs.take(i as int));
            assert(evs.take(i as int + 1).last() == evs[i as int]);
        }
        match &events[i] {
            RolloutEvent::Call { call_id, name } => {
                let ghost pre = pending@;
                pending.push((call_id.clone(), name.clone()));
                let ghost pre_order = order@;
                order.push(call_id.clone());
                proof {
                    assert(pending@.drop_last() =~= pre);
                    assert(str_pair_map(pending@) =~= pending_map(evs.take(i as int + 1)));
                    assert(order@.drop_last() =~= pre_order);
                    assert(order@.map_values(|s: String| s@) =~= call_ids_of(
                        evs.take(i as int + 1),
                    ));
                }
            },
            RolloutEvent::Output { call_id } => {
                let mut kept: Vec<(String, String)> = Vec::new();
                let mut j: usize = 0;
                let m = pending.len();
                proof {
                    assert(pending@.take(0) =~= Seq::<(String, String)>::empty());
                    assert(str_pair_map(kept@) =~= str_pair_map(pending@.take(0)).remove(
                        call_id@,
                    ));
                }
                while j < m
                    invariant
                        m == pending@.len(),
                        0 <= j <= m,
                        str_pair_map(kept@) == str_pair_map(pending@.take(j as int)).remove(
                            call_id@,
                        ),
                    decreases m - j,
                {
                    proof {
                        assert(pending@.take(j as int + 1).drop_last() =~= pending@.take(
                            j as int,
                        ));
                        assert(pending@.take(j as int + 1).last() == pending@[j as int]);
                    }
                    let e = &pending[j];
                    if !str_eq(e.0.as_str(), call_id.as_str()) {
                        let ghost pre = kept@;
                        kept.push((e.0.clone(), e.1.clone()));
                        proof {
                            assert(kept@.drop_last() =~= pre);
                        }
                    }
                    proof {
                        assert(str_pair_map(kept@) =~= str_pair_map(
                            pending@.take(j as int + 1),
                        ).remove(call_id@));
                    }
                    j = j + 1;
                }
                proof {
                    assert(pending@.take(m as int) =~= pending@);
                }
                pending = kept;
                proof {
                    assert(str_pair_map(pending@) =~= pending_map(evs.take(i as int + 1)));
                    assert(order@.map_values(|s: String| s@) =~= call_ids_of(
                        evs.take(i as int + 1),
                    ));
                }
            },
            RolloutEvent::Other => {
                proof {
                    assert(str_pair_map(pending@) =~= pending_map(evs.take(i as int + 1)));
                    assert(order@.map_values(|s: String| s@) =~= call_ids_of(
                        evs.take(i as int + 1),
                    ));
                }
            },
        }
        i = i + 1;
    }
    proof {
        assert(evs.take(n as int) =~= evs);
    }
    let ghost full_pending = pending_map(evs);
    let mut k: usize = order.len();
    proof {
        assert(call_ids_of(evs).take(k as int) =~= call_ids_of(evs));
        lemma_last_pending_from_ids(evs, full_pending);
    }
    while k > 0
        invariant
            evs == events@.map_values(|e: RolloutEvent| e@),
            full_pending == pending_map(evs),
            str_pair_map(pending@) == full_pending,
            order@.map_values(|s: String| s@) == call_ids_of(evs),
            0 <= k <= order@.len(),
            last_pending_from_ids(call_ids_of(evs).take(k as int), full_pending)
                == spec_pending_call(evs),
        decreases k,
    {
        proof {
            assert(call_ids_of(evs).take(k as int).drop_last() =~= call_ids_of(evs).take(
                k as int - 1,
            ));
            assert(call_ids_of(evs).take(k as int).last() == call_ids_of(evs)[k as int - 1]);
            assert(order@.map_values(|s: String| s@)[k as int - 1] == order@[k as int - 1]@);
        }
        let id = &order[k - 1];
        match lookup_pending(&pending, id.as_str()) {
            Some(name) => {
                proof {
                    let ids = call_ids_of(evs);
                    assert(ids[k as int - 1] == id@);
                    assert(ids.take(k as int).last() == id@);
                    assert(full_pending.contains_key(id@));
                    assert(last_pending_from_ids(ids.take(k as int), full_pending) == Some(
                        (id@, full_pending.index(id@)),
                    ));
                }
                return Some(PendingFunctionCall { call_id: id.clone(), name });
            },
            None => {},
        }
        k = k - 1;
    }
    proof {
        assert(call_ids_of(evs).take(0) =~= Seq::<Seq<char>>::empty());
    }
    None
}

/// The ids of the call events, in order.
pub open spec fn call_ids_of(events: Seq<RolloutEventV>) -> Seq<Seq<char>>
    decreases events.len(),
{
    if events.len() == 0 {
        Seq::empty()
    } else {
        let rest = call_ids_of(events.drop_last());
        match events.last() {
            RolloutEventV::Call { call_id, name } => rest.push(call_id),
            _ => rest,
        }
    }
}

/// The backward walk over call ids alone.
pub open spec fn last_pending_from_ids(
    ids: Seq<Seq<char>>,
    pending: Map<Seq<char>, Seq<char>>,
) -> Option<(Seq<char>, Seq<char>)>
    decreases ids.len(),
{
    if ids.len() == 0 {
        None
    } else if pending.contains_key(ids.last()) {
        Some((ids.last(), pending[ids.last()]))
    } else {
        last_pending_from_ids(ids.drop_last(), pending)
    }
}

/// Walking the events backwards and walking their call ids backwards find
/// the same pending call.
proof fn lemma_last_pending_from_ids(events: Seq<RolloutEventV>, pending: Map<Seq<char>, Seq<char>>)
    ensures
        last_pending_call(events, pending) == last_pending_from_ids(call_ids_of(events), pending),
    decreases events.len(),
{
    if events.len() > 0 {
        lemma_last_pending_from_ids(events.drop_last(), pending);
        match events.last() {
            RolloutEventV::Call { call_id, name } => {
                assert(call_ids_of(events) == call_ids_of(events.drop_last()).push(call_id));
                assert(call_ids_of(events).drop_last() =~= call_ids_of(events.drop_last()));
                assert(call_ids_of(events).last() == call_id);
            },
            _ => {},
        }
    }
}

/// The pending name for an id, from the open-call table.
fn lookup_pending(pending: &Vec<(String, String)>, id: &str) -> (r: Option<String>)
    ensures
        match r {
            Some(name) => str_pair_map(pending@).contains_key(id@) && str_pair_map(
                pending@,
            ).index(id@) == name@,
            None => !str_pair_map(pending@).contains_key(id@),
        },
{
    let n = pending.len();
    let mut i: usize = n;
    while i > 0
        invariant
            n == pending@.len(),
            0 <= i <= n,
            forall|m: int| i <= m < n ==> (#[trigger] pending@[m].0)@ != id@,
        decreases i,
    {
        let e = &pending[i - 1];
        if str_eq(e.0.as_str(), id) {
            proof {
                lemma_str_pair_found(pending@, i - 1);
            }
            return Some(e.1.clone());
        }
        i = i - 1;
    }
    proof {
        lemma_str_pair_absent(pending@, id@);
    }
    None
}

// ---------------------------------------------------------------------------
// Decoding tail records
// ---------------------------------------------------------------------------

/// A plain view of an optional text-and-flag pair.
pub open spec fn pair_view(r: Option<(String, bool)>) -> Option<(Seq<char>, bool)> {
    match r {
        Some(t) => Some((t.0@, t.1)),
        None => None,
    }
}

/// The call id a `response_item` line carries, and whether it opens a call
/// (`function_call`) or completes one (`function_call_output`); nothing for
/// any other record or text. The outcome depends on the line alone.
pub uninterp spec fn tail_kind_of(line: Seq<char>) -> Option<(Seq<char>, bool)>;

/// Relies on serde_json's from_str and Value's get and as_str: reads the
/// payload kind and call id of a transcript line.
#[verifier::external_body]
fn read_tail_kind(line: &str) -> (r: Option<(String, bool)>)
    ensures
        tail_kind_of(line@) == pair_view(r),
{
    let Ok(v) = serde_json::from_str::<Value>(line) else { return None };
    if v.get("type").and_then(|t| t.as_str()) != Some("response_item") { return None }
    let p = v.get("payload")?;
    let c = p.get("call_id").and_then(|c| c.as_str())?.to_string();
    match p.get("type").and_then(|t| t.as_str()) {
        Some("function_call") => Some((c, true)),
        Some("function_call_output") => Some((c, false)),
        _ => None,
    }
}

/// The payload's tool name, when it is a string; the outcome depends on the
/// line alone.
pub uninterp spec fn tail_name_of(line: Seq<char>) -> Option<Seq<char>>;

/// Relies on serde_json's from_str and Value's get and as_str: reads the
/// payload's tool name.
#[verifier::external_body]
fn read_tail_name(line: &str) -> (r: Option<String>)
    ensures
        tail_name_of(line@) == opt_view(r),
{
    let Ok(v) = serde_json::from_str::<Value>(line) else { return None };
    Some(v.get("payload")?.get("name").and_then(|n| n.as_str())?.to_string())
}

/// What one transcript line means to the tail scan: the id and name of a
/// call that opens, the id alone of a completion, or nothing — a call
/// without a tool name is ignored like any other record.
pub open spec fn tail_event_of(line: Seq<char>) -> Option<(Seq<char>, Option<Seq<char>>)> {
    match tail_kind_of(line) {
        None => None,
        Some((call_id, is_call)) => if is_call {
            match tail_name_of(line) {
                Some(n) => Some((call_id, Some(n))),
                None => None,
            }
        } else {
            Some((call_id, None))
        },
    }
}

/// The event a decoded line stands for.
pub open spec fn spec_event_of(t: Option<(Seq<char>, Option<Seq<char>>)>) -> RolloutEventV {
    match t {
        None => RolloutEventV::Other,
        Some((call_id, name)) => match name {
            Some(n) => RolloutEventV::Call { call_id, name: n },
            None => RolloutEventV::Output { call_id },
        },
    }
}

/// Decodes one transcript line for the tail scan from its probed kind and
/// name; anything that is not a well-formed call or completion is ignored,
/// never an error.
pub fn decode_tail_line(line: &str) -> (r: RolloutEvent)
    ensures
        r@ == spec_event_of(tail_event_of(line@)),
{
    match read_tail_kind(line) {
        None => RolloutEvent::Other,
        Some((call_id, is_call)) => {
            if is_call {
                match read_tail_name(line) {
                    Some(name) => RolloutEvent::Call { call_id, name },
                    None => RolloutEvent::Other,
                }
            } else {
                RolloutEvent::Output { call_id }
            }
        },
    }
}

/// The text after the first newline, or nothing when there is none.
pub open spec fn spec_after_first_newline(s: Seq<char>) -> Option<Seq<char>>
    decreases s.len(),
{
    if s.len() == 0 {
        None
    } else if s[0] == '\n' {
        Some(s.drop_first())
    } else {
        spec_after_first_newline(s.drop_first())
    }
}

/// The events the tail's lines decode to, in order, blank lines skipped.
pub open spec fn spec_tail_events(lines: Seq<Seq<char>>) -> Seq<RolloutEventV>
    decreases lines.len(),
{
    if lines.len() == 0 {
        Seq::empty()
    } else {
        spec_tail_events(lines.drop_last()) + (if spec_trim(lines.last()).len() > 0 {
            seq![spec_event_of(tail_event_of(spec_trim(lines.last())))]
        } else {
            Seq::<RolloutEventV>::empty()
        })
    }
}

/// The part of the tail the scan parses: everything, or, for a read that
/// began mid-file, everything after the first newline — the fragment before
/// it is half of an older record. A mid-file tail with no newline at all is
/// not parsed.
pub open spec fn spec_tail_content(text: Seq<char>, started_mid_file: bool) -> Option<Seq<char>> {
    if started_mid_file {
        spec_after_first_newline(text)
    } else {
        Some(text)
    }
}

/// Scans the transcript's tail text for the most recently opened tool call
/// with no completion record, exactly as `spec_pending_call` resolves the
/// decoded events of the parsed content's lines; an unparsed mid-file tail
/// yields `None` rather than a guess.
pub fn pending_function_call_from_tail(text: &str, started_mid_file: bool) -> (r: Option<
    PendingFunctionCall,
>)
    ensures
        ({
            match spec_tail_content(text@, started_mid_file) {
                None => r is None,
                Some(content) => {
                    let outcome = spec_pending_call(
                        spec_tail_events(spec_split_lines(content)),
                    );
                    match r {
                        Some(p) => outcome == Some((p.call_id@, p.name@)),
                        None => outcome is None,
                    }
                },
            }
        }),
{
    let n = text.unicode_len();
    let mut start: usize = 0;
    if started_mid_file {
        let mut found = false;
        let mut i: usize = 0;
        while i < n && !found
            invariant
                n == text@.len(),
                0 <= i <= n,
                !found ==> forall|j: int| 0 <= j < i ==> text@[j] != '\n',
                found ==> 0 < i <= n && text@[i - 1] == '\n' && (forall|j: int|
                    0 <= j < i - 1 ==> text@[j] != '\n'),
            decreases n - i,
        {
            if text.get_char(i) == '\n' {
                found = true;
            }
            i = i + 1;
        }
        if !found {
            proof {
                lemma_after_newline_none(text@);
            }
            return None;
        }
        start = i;
        proof {
            lemma_after_newline_found(text@, start - 1);
        }
    }
    let content = text.substring_char(start, n);
    proof {
        assert(content@ =~= text@.skip(start as int));
        if started_mid_file {
            assert(text@.drop_first() =~= text@.skip(1));
        } else {
            assert(text@.skip(0) =~= text@);
        }
        assert(spec_tail_content(text@, started_mid_file) == Some(content@));
    }
    let lines = split_lines(content);
    let ghost lines_v = lines@.map_values(|l: String| l@);
    let mut events: Vec<RolloutEvent> = Vec::new();
    let mut k: usize = 0;
    let ln = lines.len();
    proof {
        assert(lines_v.take(0) =~= Seq::<Seq<char>>::empty());
        assert(events@.map_values(|e: RolloutEvent| e@) =~= spec_tail_events(lines_v.take(0)));
    }
    while k < ln
        invariant
            ln == lines@.len(),
            lines_v == lines@.map_values(|l: String| l@),
            0 <= k <= ln,
            events@.map_values(|e: RolloutEvent| e@) == spec_tail_events(lines_v.take(k as int)),
        decreases ln - k,
    {
        proof {
            assert(lines_v.take(k as int + 1).drop_last() =~= lines_v.take(k as int));
            assert(lines_v.take(k as int + 1).last() == lines_v[k as int]);
        }
        let trimmed = trim_str(lines[k].as_str());
        if trimmed.unicode_len() > 0 {
            let ev = decode_tail_line(trimmed.as_str());
            let ghost pre = events@;
            events.push(ev);
            proof {
                assert(events@.drop_last() =~= pre);
                assert(events@.map_values(|e: RolloutEvent| e@) =~= spec_tail_events(
                    lines_v.take(k as int + 1),
                ));
            }
        } else {
            proof {
                assert(events@.map_values(|e: RolloutEvent| e@) =~= spec_tail_events(
                    lines_v.take(k as int + 1),
                ));
            }
        }
        k = k + 1;
    }
    proof {
        assert(lines_v.take(ln as int) =~= lines_v);
    }
    pending_from_events(&events)
}

proof fn lemma_after_newline_none(s: Seq<char>)
    requires
        forall|j: int| 0 <= j < s.len() ==> s[j] != '\n',
    ensures
        spec_after_first_newline(s) is None,
    decreases s.len(),
{
    if s.len() > 0 {
        assert(forall|j: int|
            0 <= j < s.len() - 1 ==> #[trigger] s.drop_first()[j] == s[j + 1]);
        lemma_after_newline_none(s.drop_first());
    }
}

proof fn lemma_after_newline_found(s: Seq<char>, k: int)
    requires
        0 <= k < s.len(),
        forall|j: int| 0 <= j < k ==> s[j] != '\n',
        s[k] == '\n',
    ensures
        spec_after_first_newline(s) == Some(s.skip(k + 1)),
    decreases k,
{
    if k == 0 {
        assert(s.drop_first() =~= s.skip(1));
    } else {
        assert(s[0] != '\n');
        assert(forall|j: int|
            0 <= j < s.len() - 1 ==> #[trigger] s.drop_first()[j] == s[j + 1]);
        lemma_after_newline_found(s.drop_first(), k - 1);
        assert(s.drop_first().skip(k) =~= s.skip(k + 1));
    }
}

// ---------------------------------------------------------------------------
// Session metadata
// ---------------------------------------------------------------------------

/// How the first record's `source` field reads: the source label, and the
/// parent thread id and spawn depth when the session was spawned as a
/// subagent.
pub struct SourceInfo {
    pub session_source: Option<String>,
    pub subagent_parent_thread_id: Option<String>,
    pub subagent_depth: Option<i32>,
}

/// The payload's `source` member as serde_json reads its shape: absent, a
/// bare string, the nested subagent thread-spawn descriptor, one of the
/// degraded shapes along that path, or some other value.
pub enum SourceReading {
    Absent,
    Text { label: String },
    ThreadSpawn,
    SpawnOpaque,
    SubagentBare,
    SubagentOpaque,
    OtherObject,
    OtherValue,
}

#[verifier::ext_equal]
pub ghost enum SourceReadingV {
    Absent,
    Text { label: Seq<char> },
    ThreadSpawn,
    SpawnOpaque,
    SubagentBare,
    SubagentOpaque,
    OtherObject,
    OtherValue,
}

impl View for SourceReading {
    type V = SourceReadingV;

    open spec fn view(&self) -> SourceReadingV {
        match self {
            SourceReading::Absent => SourceReadingV::Absent,
            SourceReading::Text { label } => SourceReadingV::Text { label: label@ },
            SourceReading::ThreadSpawn => SourceReadingV::ThreadSpawn,
            SourceReading::SpawnOpaque => SourceReadingV::SpawnOpaque,
            SourceReading::SubagentBare => SourceReadingV::SubagentBare,
            SourceReading::SubagentOpaque => SourceReadingV::SubagentOpaque,
            SourceReading::OtherObject => SourceReadingV::OtherObject,
            SourceReading::OtherValue => SourceReadingV::OtherValue,
        }
    }
}

/// The shape of the record payload's `source` member; the outcome depends on
/// the line alone.
pub uninterp spec fn meta_source_of(line: Seq<char>) -> SourceReadingV;

/// Relies on serde_json's from_str and Value's get, as_str and is_object:
/// probes the shape of the payload's `source` member.
#[verifier::external_body]
fn read_meta_source(line: &str) -> (r: SourceReading)
    ensures
        r@ == meta_source_of(line@),
{
    let o = serde_json::from_str::<Value>(line).ok();
    let Some(s) = o.as_ref().and_then(|v| v.get("payload")?.get("source")) else { return SourceReading::Absent };
    if let Some(t) = s.as_str() { return SourceReading::Text { label: t.to_string() } }
    if !s.is_object() { return SourceReading::OtherValue }
    let Some(sub) = s.get("subagent") else { return SourceReading::OtherObject };
    if !sub.is_object() { return SourceReading::SubagentOpaque }
    let Some(ts) = sub.get("thread_spawn") else { return SourceReading::SubagentBare };
    if ts.is_object() { SourceReading::ThreadSpawn } else { SourceReading::SpawnOpaque }
}

/// The thread-spawn descriptor's parent id (when a string) and depth (when
/// an integer); the outcome depends on the line alone.
pub uninterp spec fn meta_spawn_of(line: Seq<char>) -> (Option<Seq<char>>, Option<i64>);

/// Relies on serde_json's from_str and Value's get, as_str and as_i64:
/// reads the thread-spawn descriptor's fields.
#[verifier::external_body]
fn read_meta_spawn(line: &str) -> (r: (Option<String>, Option<i64>))
    ensures
        meta_spawn_of(line@) == (opt_view(r.0), r.1),
{
    let o = serde_json::from_str::<Value>(line).ok();
    let ts = o.as_ref().and_then(|v| v.get("payload")?.get("source")?.get("subagent")?.get("thread_spawn"));
    match ts {
        Some(t) => (t.get("parent_thread_id").and_then(|p| p.as_str()).map(String::from), t.get("depth").and_then(|d| d.as_i64())),
        None => (None, None),
    }
}

/// What each source shape classifies to: a bare string is the source name;
/// the full descriptor names the spawn with its parent and depth (a depth
/// outside the field's range saturates); degraded shapes keep the most
/// specific label they reached; anything else is unknown.
pub open spec fn spec_source_info(
    s: SourceReadingV,
    spawn: (Option<Seq<char>>, Option<i64>),
) -> (Option<Seq<char>>, Option<Seq<char>>, Option<i32>) {
    match s {
        SourceReadingV::Absent => (None, None, None),
        SourceReadingV::Text { label } => (Some(label), None, None),
        SourceReadingV::ThreadSpawn => (
            Some("subagent_thread_spawn"@),
            spawn.0,
            match spawn.1 {
                Some(d) => if i32::MIN <= d <= i32::MAX {
                    Some(d as i32)
                } else {
                    Some(i32::MAX)
                },
                None => None,
            },
        ),
        SourceReadingV::SpawnOpaque => (Some("subagent_thread_spawn"@), None, None),
        SourceReadingV::SubagentBare => (Some("subagent"@), None, None),
        SourceReadingV::SubagentOpaque => (Some("subagent"@), None, None),
        SourceReadingV::OtherObject => (Some("unknown"@), None, None),
        SourceReadingV::OtherValue => (Some("unknown"@), None, None),
    }
}

/// Classifies the polymorphic `source` field of a transcript's first line,
/// exactly as `spec_source_info` reads its probed shape and descriptor.
pub fn parse_session_source(line: &str) -> (r: SourceInfo)
    ensures
        (
            crate::model::opt_view(r.session_source),
            crate::model::opt_view(r.subagent_parent_thread_id),
            r.subagent_depth,
        ) == spec_source_info(meta_source_of(line@), meta_spawn_of(line@)),
{
    match read_meta_source(line) {
        SourceReading::Absent => SourceInfo {
            session_source: None,
            subagent_parent_thread_id: None,
            subagent_depth: None,
        },
        SourceReading::Text { label } => SourceInfo {
            session_source: Some(label),
            subagent_parent_thread_id: None,
            subagent_depth: None,
        },
        SourceReading::ThreadSpawn => {
            let (parent, depth) = read_meta_spawn(line);
            let clamped: Option<i32> = match depth {
                Some(d) => {
                    if i32::MIN as i64 <= d && d <= i32::MAX as i64 {
                        Some(d as i32)
                    } else {
                        Some(i32::MAX)
                    }
                },
                None => None,
            };
            SourceInfo {
                session_source: Some("subagent_thread_spawn".to_owned()),
                subagent_parent_thread_id: parent,
                subagent_depth: clamped,
            }
        },
        SourceReading::SpawnOpaque => SourceInfo {
            session_source: Some("subagent_thread_spawn".to_owned()),
            subagent_parent_thread_id: None,
            subagent_depth: None,
        },
        SourceReading::SubagentBare => SourceInfo {
            session_source: Some("subagent".to_owned()),
            subagent_parent_thread_id: None,
            subagent_depth: None,
        },
        SourceReading::SubagentOpaque => SourceInfo {
            session_source: Some("subagent".to_owned()),
            subagent_parent_thread_id: None,
            subagent_depth: None,
        },
        SourceReading::OtherObject => SourceInfo {
            session_source: Some("unknown".to_owned()),
            subagent_parent_thread_id: None,
            subagent_depth: None,
        },
        SourceReading::OtherValue => SourceInfo {
            session_source: Some("unknown".to_owned()),
            subagent_parent_thread_id: None,
            subagent_depth: None,
        },
    }
}

/// The envelope of a transcript record line: its type tag and whether its
/// payload member is an object; nothing when the line is not a JSON object
/// with a string type tag. The outcome depends on the line alone.
pub uninterp spec fn meta_envelope_of(line: Seq<char>) -> Option<(Seq<char>, bool)>;

/// Relies on serde_json's from_str and Value's get, as_str and is_object:
/// reads the record envelope of a transcript's first line.
#[verifier::external_body]
fn decode_meta_envelope(line: &str) -> (r: Option<(String, bool)>)
    ensures
        meta_envelope_of(line@) == pair_view(r),
{
    let Ok(v) = serde_json::from_str::<Value>(line) else { return None };
    let tag = v.get("type")?.as_str()?.to_string();
    let payload_ok = v.get("payload").map_or(false, |p| p.is_object());
    Some((tag, payload_ok))
}

/// How a payload member reads as an optional text: `Some(None)` for absent
/// or null, `Some(Some(..))` for a string, `None` for a value of any other
/// type. The outcome depends on the line and key alone.
pub uninterp spec fn meta_field_of(line: Seq<char>, key: Seq<char>) -> Option<Option<Seq<char>>>;

/// A plain view of a read optional member.
pub open spec fn field_view(r: Option<Option<String>>) -> Option<Option<Seq<char>>> {
    match r {
        Some(f) => Some(opt_view(f)),
        None => None,
    }
}

/// Relies on serde_json's from_str and Value's get, as_str and is_null:
/// reads one optional string member of the record's payload.
#[verifier::external_body]
fn read_meta_field(line: &str, key: &str) -> (r: Option<Option<String>>)
    ensures
        meta_field_of(line@, key@) == field_view(r),
{
    let Ok(v) = serde_json::from_str::<Value>(line) else { return None };
    let p = match v.get("payload") { Some(p) => p, None => return Some(None) };
    match p.get(key) {
        None => Some(None),
        Some(x) if x.is_null() => Some(None),
        Some(x) => x.as_str().map(|s| Some(s.to_string())),
    }
}

/// Like `meta_field_of`, for a member of the payload's `git` object: absent
/// or null `git` reads as absent fields; a non-object `git` is a type error.
pub uninterp spec fn meta_git_field_of(line: Seq<char>, key: Seq<char>) -> Option<
    Option<Seq<char>>,
>;

/// Relies on serde_json's from_str and Value's get, as_str, is_null and
/// is_object: reads one optional string member of the payload's `git`
/// object.
#[verifier::external_body]
fn read_meta_git_field(line: &str, key: &str) -> (r: Option<Option<String>>)
    ensures
        meta_git_field_of(line@, key@) == field_view(r),
{
    let Ok(v) = serde_json::from_str::<Value>(line) else { return None };
    let g = match v.get("payload").and_then(|p| p.get("git")) {
        None => return Some(None),
        Some(g) if g.is_null() => return Some(None),
        Some(g) => g,
    };
    if !g.is_object() { return None }
    match g.get(key) {
        None => Some(None),
        Some(x) if x.is_null() => Some(None),
        Some(x) => x.as_str().map(|s| Some(s.to_string())),
    }
}

/// Parses a transcript's first line./// Parses a transcript's first line./// Parses a transcript's first line. The line is load-bearing: it must be a
/// JSON record tagged `session_meta` with a well-formed payload; the wrong
/// tag is called out by name, and any other malformation is the generic
/// parse error — the caller records either as a diagnostic rather than
/// failing the row.
pub fn parse_session_meta_line(line: &str) -> (r: Result<SessionMeta, String>)
    ensures
        ({
            match meta_envelope_of(line@) {
                None => r matches Err(e) && e@ == "parse first JSONL line"@,
                Some((tag, payload_ok)) => if tag != "session_meta"@ {
                    r matches Err(e) && e@ == "expected first line type=session_meta, got type="@
                        + tag
                } else if !payload_ok {
                    r matches Err(e) && e@ == "parse first JSONL line"@
                } else {
                    match (
                        meta_field_of(line@, "id"@),
                        meta_field_of(line@, "forked_from_id"@),
                        meta_field_of(line@, "cwd"@),
                        meta_git_field_of(line@, "branch"@),
                        meta_git_field_of(line@, "commit_hash"@),
                    ) {
                        (Some(id), Some(ff), Some(cw), Some(br), Some(ch)) => r matches Ok(m) && {
                            &&& m@.id == id
                            &&& m@.forked_from_id == ff
                            &&& m@.cwd == cw
                            &&& m@.git_branch == br
                            &&& m@.git_commit == ch
                            &&& (m@.session_source, m@.subagent_parent_thread_id, m@.subagent_depth)
                                == spec_source_info(meta_source_of(line@), meta_spawn_of(line@))
                        },
                        _ => r matches Err(e) && e@ == "parse first JSONL line"@,
                    }
                },
            }
        }),
{
    let (tag, payload_ok) = match decode_meta_envelope(line) {
        Some(t) => t,
        None => {
            return Err("parse first JSONL line".to_owned());
        },
    };
    if !str_eq(tag.as_str(), "session_meta") {
        let mut msg = "expected first line type=session_meta, got type=".to_owned();
        msg.append(tag.as_str());
        return Err(msg);
    }
    if !payload_ok {
        return Err("parse first JSONL line".to_owned());
    }
    let id = match read_meta_field(line, "id") {
        Some(f) => f,
        None => {
            return Err("parse first JSONL line".to_owned());
        },
    };
    let forked_from_id = match read_meta_field(line, "forked_from_id") {
        Some(f) => f,
        None => {
            return Err("parse first JSONL line".to_owned());
        },
    };
    let cwd = match read_meta_field(line, "cwd") {
        Some(f) => f,
        None => {
            return Err("parse first JSONL line".to_owned());
        },
    };
    let git_branch = match read_meta_git_field(line, "branch") {
        Some(f) => f,
        None => {
            return Err("parse first JSONL line".to_owned());
        },
    };
    let git_commit = match read_meta_git_field(line, "commit_hash") {
        Some(f) => f,
        None => {
            return Err("parse first JSONL line".to_owned());
        },
    };
    let src_info = parse_session_source(line);
    Ok(
        SessionMeta {
            id,
            forked_from_id,
            cwd,
            git_branch,
            git_commit,
            session_source: src_info.session_source,
            subagent_parent_thread_id: src_info.subagent_parent_thread_id,
            subagent_depth: src_info.subagent_depth,
        },
    )
}

} // verus!