use vstd::prelude::*;
use vstd::string::StrSliceExecFns;

use crate::model::{status_severity, status_of_severity, SessionRow, SessionRowV, SessionStatus};
use crate::util::{lemma_lex_le_antisymmetric, lemma_lex_le_total, lemma_lex_le_transitive, lex_le,
    spec_trim, str_eq, str_le, trim_str};

verus! {

/// How many subagents a display group carries, counted by status.
#[derive(Clone, Copy, Debug, PartialEq, Eq, Structural)]
pub struct SubagentSummary {
    pub total: usize,
    pub working: usize,
    pub unknown: usize,
    pub waiting: usize,
}

/// One root session with everything folded in from its subagents.
#[derive(Clone, Debug)]
pub struct DisplaySessionRow {
    pub root: SessionRow,
    pub status: SessionStatus,
    pub last_activity_unix_s: Option<i64>,
    pub reason: Option<String>,
    pub subagents: SubagentSummary,
}

#[verifier::ext_equal]
pub ghost struct DisplaySessionRowV {
    pub root: SessionRowV,
    pub status: SessionStatus,
    pub last_activity_unix_s: Option<i64>,
    pub reason: Option<Seq<char>>,
    pub subagents: SubagentSummary,
}

impl View for DisplaySessionRow {
    type V = DisplaySessionRowV;

    open spec fn view(&self) -> DisplaySessionRowV {
        DisplaySessionRowV {
            root: self.root@,
            status: self.status,
            last_activity_unix_s: self.last_activity_unix_s,
            reason: crate::model::opt_view(self.reason),
            subagents: self.subagents,
        }
    }
}

/// One group under construction: the root row once seen, and the subagent
/// rows attached to it.
#[verifier::ext_equal]
pub ghost struct GroupV {
    pub key: (Seq<char>, Seq<char>),
    pub root: Option<SessionRowV>,
    pub subs: Seq<SessionRowV>,
}

struct GroupAgg {
    host: String,
    root_id: String,
    root: Option<SessionRow>,
    subs: Vec<SessionRow>,
}

impl View for GroupAgg {
    type V = GroupV;

    closed spec fn view(&self) -> GroupV {
        GroupV {
            key: (self.host@, self.root_id@),
            root: match self.root {
                Some(ref r) => Some(r@),
                None => None,
            },
            subs: self.subs@.map_values(|r: SessionRow| r@),
        }
    }
}

// ---------------------------------------------------------------------------
// Grouping rows under their root sessions
// ---------------------------------------------------------------------------

/// The identities present in a snapshot.
pub open spec fn spec_ids(rows: Seq<SessionRowV>) -> Set<(Seq<char>, Seq<char>)>
    decreases rows.len(),
{
    if rows.len() == 0 {
        Set::empty()
    } else {
        spec_ids(rows.drop_last()).insert((rows.last().host, rows.last().thread_id))
    }
}

proof fn lemma_spec_ids(rows: Seq<SessionRowV>, kv: (Seq<char>, Seq<char>))
    ensures
        spec_ids(rows).contains(kv) <==> exists|j: int|
            0 <= j < rows.len() && ((#[trigger] rows[j]).host, rows[j].thread_id) == kv,
    decreases rows.len(),
{
    if rows.len() > 0 {
        lemma_spec_ids(rows.drop_last(), kv);
        if spec_ids(rows).contains(kv) {
            if (rows.last().host, rows.last().thread_id) == kv {
                assert(((rows[rows.len() - 1]).host, rows[rows.len() - 1].thread_id) == kv);
            } else {
                let j = choose|j: int|
                    0 <= j < rows.drop_last().len() && ((#[trigger] rows.drop_last()[j]).host,
                    rows.drop_last()[j].thread_id) == kv;
                assert(((rows[j]).host, rows[j].thread_id) == kv);
            }
        }
        if exists|j: int|
            0 <= j < rows.len() && ((#[trigger] rows[j]).host, rows[j].thread_id) == kv {
            let j = choose|j: int|
                0 <= j < rows.len() && ((#[trigger] rows[j]).host, rows[j].thread_id) == kv;
            if j < rows.len() - 1 {
                assert(((rows.drop_last()[j]).host, rows.drop_last()[j].thread_id) == kv);
            }
        }
    }
}

/// The root a row groups under: its declared subagent parent when that
/// parent is present on the same host, otherwise the row itself.
pub open spec fn spec_root_id(r: SessionRowV, ids: Set<(Seq<char>, Seq<char>)>) -> Seq<char> {
    match r.subagent_parent_thread_id {
        Some(p) => if ids.contains((r.host, p)) {
            p
        } else {
            r.thread_id
        },
        None => r.thread_id,
    }
}

pub open spec fn spec_update_group(g: GroupV, r: SessionRowV, is_root: bool) -> GroupV {
    if is_root {
        GroupV { root: Some(r), ..g }
    } else {
        GroupV { subs: g.subs.push(r), ..g }
    }
}

pub open spec fn spec_new_group(key: (Seq<char>, Seq<char>), r: SessionRowV, is_root: bool) -> GroupV {
    GroupV {
        key,
        root: if is_root {
            Some(r)
        } else {
            None
        },
        subs: if is_root {
            Seq::empty()
        } else {
            seq![r]
        },
    }
}

/// Files a row into the group list, under the first group with its key, or
/// as a new group at the end.
pub open spec fn spec_add_to_groups(
    gs: Seq<GroupV>,
    key: (Seq<char>, Seq<char>),
    r: SessionRowV,
    is_root: bool,
) -> Seq<GroupV>
    decreases gs.len(),
{
    if gs.len() == 0 {
        seq![spec_new_group(key, r, is_root)]
    } else if gs.first().key == key {
        seq![spec_update_group(gs.first(), r, is_root)] + gs.drop_first()
    } else {
        seq![gs.first()] + spec_add_to_groups(gs.drop_first(), key, r, is_root)
    }
}

/// The groups after filing every row, in order of first appearance.
pub open spec fn spec_groups(rows: Seq<SessionRowV>, ids: Set<(Seq<char>, Seq<char>)>) -> Seq<
    GroupV,
>
    decreases rows.len(),
{
    if rows.len() == 0 {
        Seq::empty()
    } else {
        let r = rows.last();
        let key = (r.host, spec_root_id(r, ids));
        spec_add_to_groups(spec_groups(rows.drop_last(), ids), key, r, r.thread_id == key.1)
    }
}

/// Filing at the first matching index is an update there; with no match it
/// is a push.
proof fn lemma_add_to_groups_at(
    gs: Seq<GroupV>,
    key: (Seq<char>, Seq<char>),
    r: SessionRowV,
    is_root: bool,
    idx: int,
)
    requires
        0 <= idx <= gs.len(),
        forall|m: int| 0 <= m < idx ==> (#[trigger] gs[m]).key != key,
        idx < gs.len() ==> gs[idx].key == key,
    ensures
        idx < gs.len() ==> spec_add_to_groups(gs, key, r, is_root) =~= gs.update(
            idx,
            spec_update_group(gs[idx], r, is_root),
        ),
        idx == gs.len() ==> spec_add_to_groups(gs, key, r, is_root) =~= gs.push(
            spec_new_group(key, r, is_root),
        ),
    decreases gs.len(),
{
    if gs.len() == 0 {
        assert(gs.push(spec_new_group(key, r, is_root)) =~= seq![spec_new_group(key, r, is_root)]);
    } else if gs.first().key == key {
        assert(idx == 0);
    } else {
        assert(idx > 0);
        assert(forall|m: int| 0 <= m < idx - 1 ==> (#[trigger] gs.drop_first()[m]).key != key);
        lemma_add_to_groups_at(gs.drop_first(), key, r, is_root, idx - 1);
    }
}

// ---------------------------------------------------------------------------
// Folding a group into one display row
// ---------------------------------------------------------------------------

/// The timestamp key used for recency comparisons; a missing timestamp
/// sorts oldest.
pub open spec fn ts_key(t: Option<i64>) -> int {
    match t {
        Some(x) => x as int,
        None => i64::MIN as int,
    }
}

/// The highest severity among the rows, with an all-quiet floor of zero.
pub open spec fn rows_status_score(rows: Seq<SessionRowV>) -> int
    decreases rows.len(),
{
    if rows.len() == 0 {
        0
    } else {
        let rest = rows_status_score(rows.drop_last());
        if status_severity(rows.last().status) > rest {
            status_severity(rows.last().status)
        } else {
            rest
        }
    }
}

/// The aggregate status is at least as severe as every row's status: the
/// max-severity rule for groups.
pub proof fn lemma_rows_status_score_is_max(rows: Seq<SessionRowV>)
    ensures
        forall|j: int|
            0 <= j < rows.len() ==> status_severity((#[trigger] rows[j]).status)
                <= rows_status_score(rows),
        rows.len() > 0 ==> exists|j: int|
            0 <= j < rows.len() && status_severity((#[trigger] rows[j]).status)
                == rows_status_score(rows),
    decreases rows.len(),
{
    if rows.len() > 0 {
        lemma_rows_status_score_is_max(rows.drop_last());
        assert(forall|j: int|
            0 <= j < rows.len() - 1 ==> rows.drop_last()[j] == #[trigger] rows[j]);
        let score = rows_status_score(rows);
        let rest = rows_status_score(rows.drop_last());
        if status_severity(rows.last().status) > rest {
            assert(status_severity(rows[rows.len() - 1].status) == score);
        } else if rows.len() == 1 {
            assert(rest == 0);
            assert(status_severity(rows[0].status) == 0);
        } else {
            let j = choose|j: int|
                0 <= j < rows.drop_last().len() && status_severity(
                    (#[trigger] rows.drop_last()[j]).status,
                ) == rest;
            assert(status_severity(rows[j].status) == score);
        }
    }
}

/// The most recent activity across the rows; rows without one have no
/// opinion rather than counting as time zero.
pub open spec fn rows_last_ts(rows: Seq<SessionRowV>) -> Option<i64>
    decreases rows.len(),
{
    if rows.len() == 0 {
        None
    } else {
        let rest = rows_last_ts(rows.drop_last());
        match (rest, rows.last().last_activity_unix_s) {
            (None, x) => x,
            (Some(a), None) => Some(a),
            (Some(a), Some(b)) => if b > a {
                Some(b)
            } else {
                Some(a)
            },
        }
    }
}

/// How many of the rows carry the given status.
pub open spec fn count_status(rows: Seq<SessionRowV>, st: SessionStatus) -> int
    decreases rows.len(),
{
    if rows.len() == 0 {
        0int
    } else {
        count_status(rows.drop_last(), st) + if rows.last().status == st {
            1int
        } else {
            0int
        }
    }
}

/// The row whose reason is displayed: among the rows at the winning status,
/// the one with the most recent activity, later rows winning ties.
pub open spec fn spec_pick_reason_row(rows: Seq<SessionRowV>, st: SessionStatus) -> Option<
    SessionRowV,
>
    decreases rows.len(),
{
    if rows.len() == 0 {
        None
    } else {
        let rest = spec_pick_reason_row(rows.drop_last(), st);
        if rows.last().status != st {
            rest
        } else {
            match rest {
                None => Some(rows.last()),
                Some(b) => if ts_key(rows.last().last_activity_unix_s) >= ts_key(
                    b.last_activity_unix_s,
                ) {
                    Some(rows.last())
                } else {
                    Some(b)
                },
            }
        }
    }
}

pub open spec fn spec_group_reason(all: Seq<SessionRowV>, st: SessionStatus, debug: bool) -> Option<
    Seq<char>,
> {
    if debug {
        match spec_pick_reason_row(all, st) {
            Some(row) => match row.debug {
                Some(d) => d.status_reason,
                None => None,
            },
            None => None,
        }
    } else {
        None
    }
}

/// The display row for a group that has a root.
pub open spec fn spec_display_row(g: GroupV, debug: bool) -> DisplaySessionRowV {
    let root = g.root.unwrap();
    let all = seq![root] + g.subs;
    let status = status_of_severity(rows_status_score(all));
    DisplaySessionRowV {
        root,
        status,
        last_activity_unix_s: rows_last_ts(all),
        reason: spec_group_reason(all, status, debug),
        subagents: SubagentSummary {
            total: g.subs.len() as usize,
            working: count_status(g.subs, SessionStatus::Working) as usize,
            unknown: count_status(g.subs, SessionStatus::Unknown) as usize,
            waiting: count_status(g.subs, SessionStatus::Waiting) as usize,
        },
    }
}

/// The max-severity rule in full: a group's display status is at least as
/// severe as every row in the group — the root and each subagent — and some
/// row in the group carries exactly that status.
pub proof fn lemma_display_status_is_max_severity(g: GroupV, debug: bool)
    requires
        g.root is Some,
    ensures
        ({
            let all = seq![g.root.unwrap()] + g.subs;
            let d = spec_display_row(g, debug);
            &&& (forall|j: int|
                0 <= j < all.len() ==> status_severity((#[trigger] all[j]).status)
                    <= status_severity(d.status))
            &&& (exists|j: int| 0 <= j < all.len() && (#[trigger] all[j]).status == d.status)
        }),
{
    let all = seq![g.root.unwrap()] + g.subs;
    let d = spec_display_row(g, debug);
    lemma_rows_status_score_is_max(all);
    assert(all.len() > 0);
    let score = rows_status_score(all);
    let w = choose|j: int|
        0 <= j < all.len() && status_severity((#[trigger] all[j]).status) == score;
    assert(0 <= score <= 2) by {
        assert(status_severity(all[w].status) == score);
    }
    assert(status_severity(status_of_severity(score)) == score);
    assert(all[w].status == d.status) by {
        assert(status_severity(all[w].status) == status_severity(d.status));
    }
}

/// The display rows for the groups in order; a group that never saw its root
/// row is dropped rather than fabricated.
pub open spec fn spec_display_rows(gs: Seq<GroupV>, debug: bool) -> Seq<DisplaySessionRowV>
    decreases gs.len(),
{
    if gs.len() == 0 {
        Seq::empty()
    } else {
        let rest = spec_display_rows(gs.drop_last(), debug);
        if gs.last().root is Some {
            rest.push(spec_display_row(gs.last(), debug))
        } else {
            rest
        }
    }
}

// ---------------------------------------------------------------------------
// Display order
// ---------------------------------------------------------------------------

/// Whether a row carries a non-empty user-assigned name.
pub open spec fn spec_is_named(r: SessionRowV) -> bool {
    match r.name {
        Some(n) => spec_trim(n).len() > 0,
        None => false,
    }
}

/// The display order: named sessions first, then most recent activity, then
/// host and thread id as deterministic tiebreakers.
pub open spec fn display_le(a: DisplaySessionRowV, b: DisplaySessionRowV) -> bool {
    let an = spec_is_named(a.root);
    let bn = spec_is_named(b.root);
    if an != bn {
        an
    } else if ts_key(a.last_activity_unix_s) != ts_key(b.last_activity_unix_s) {
        ts_key(a.last_activity_unix_s) > ts_key(b.last_activity_unix_s)
    } else if a.root.host != b.root.host {
        lex_le(a.root.host, b.root.host)
    } else {
        lex_le(a.root.thread_id, b.root.thread_id)
    }
}

/// A named session sorts ahead of an unnamed one whatever their recency:
/// name precedence beats recency.
pub proof fn lemma_named_sorts_first(a: DisplaySessionRowV, b: DisplaySessionRowV)
    requires
        spec_is_named(a.root),
        !spec_is_named(b.root),
    ensures
        display_le(a, b),
        !display_le(b, a),
{
}

pub proof fn lemma_display_le_total(a: DisplaySessionRowV, b: DisplaySessionRowV)
    ensures
        display_le(a, b) || display_le(b, a),
{
    lemma_lex_le_total(a.root.host, b.root.host);
    lemma_lex_le_total(a.root.thread_id, b.root.thread_id);
}

pub proof fn lemma_display_le_transitive(
    a: DisplaySessionRowV,
    b: DisplaySessionRowV,
    c: DisplaySessionRowV,
)
    requires
        display_le(a, b),
        display_le(b, c),
    ensures
        display_le(a, c),
{
    if spec_is_named(a.root) == spec_is_named(b.root) && spec_is_named(b.root) == spec_is_named(
        c.root,
    ) {
        let ta = ts_key(a.last_activity_unix_s);
        let tb = ts_key(b.last_activity_unix_s);
        let tc = ts_key(c.last_activity_unix_s);
        if ta == tb && tb == tc {
            if a.root.host == b.root.host && b.root.host == c.root.host {
                lemma_lex_le_transitive(a.root.thread_id, b.root.thread_id, c.root.thread_id);
            } else if a.root.host == b.root.host {
                // a and b share a host, b precedes c by host order
            } else if b.root.host == c.root.host {
                // a precedes b by host order, b and c share a host
            } else {
                lemma_lex_le_transitive(a.root.host, b.root.host, c.root.host);
                if a.root.host == c.root.host {
                    lemma_lex_le_antisymmetric(b.root.host, c.root.host);
                }
            }
        }
    }
}

/// Whether the whole sequence stands in display order.
pub open spec fn sorted_display(s: Seq<DisplaySessionRowV>) -> bool {
    forall|i: int, j: int| 0 <= i < j < s.len() ==> display_le(#[trigger] s[i], #[trigger] s[j])
}

/// Stable insertion into a sorted prefix: the new row goes after every row
/// it does not strictly precede.
pub open spec fn spec_insert_display(
    sorted: Seq<DisplaySessionRowV>,
    x: DisplaySessionRowV,
) -> Seq<DisplaySessionRowV>
    decreases sorted.len(),
{
    if sorted.len() == 0 {
        seq![x]
    } else if display_le(sorted.last(), x) {
        sorted.push(x)
    } else {
        spec_insert_display(sorted.drop_last(), x).push(sorted.last())
    }
}

/// The stable insertion sort by display order.
pub open spec fn spec_sort_display(rows: Seq<DisplaySessionRowV>) -> Seq<DisplaySessionRowV>
    decreases rows.len(),
{
    if rows.len() == 0 {
        Seq::empty()
    } else {
        spec_insert_display(spec_sort_display(rows.drop_last()), rows.last())
    }
}

proof fn lemma_insert_display_sorted(s: Seq<DisplaySessionRowV>, x: DisplaySessionRowV)
    requires
        sorted_display(s),
    ensures
        sorted_display(spec_insert_display(s, x)),
        forall|k: int|
            0 <= k < spec_insert_display(s, x).len() ==> (#[trigger] spec_insert_display(s, x)[k])
                == x || s.contains(spec_insert_display(s, x)[k]),
        spec_insert_display(s, x).len() == s.len() + 1,
    decreases s.len(),
{
    let r = spec_insert_display(s, x);
    if s.len() == 0 {
    } else if display_le(s.last(), x) {
        assert forall|i: int, j: int| 0 <= i < j < r.len() implies display_le(
            #[trigger] r[i],
            #[trigger] r[j],
        ) by {
            if j == r.len() - 1 {
                if i < s.len() - 1 {
                    lemma_display_le_transitive(s[i], s.last(), x);
                }
            }
        }
        assert forall|k: int| 0 <= k < r.len() implies (#[trigger] r[k]) == x || s.contains(
            r[k],
        ) by {
            if k < s.len() {
                assert(s[k] == r[k]);
            }
        }
    } else {
        assert(forall|i: int, j: int|
            0 <= i < j < s.drop_last().len() ==> display_le(
                #[trigger] s.drop_last()[i],
                #[trigger] s.drop_last()[j],
            ));
        lemma_insert_display_sorted(s.drop_last(), x);
        let r0 = spec_insert_display(s.drop_last(), x);
        lemma_display_le_total(s.last(), x);
        assert forall|i: int, j: int| 0 <= i < j < r.len() implies display_le(
            #[trigger] r[i],
            #[trigger] r[j],
        ) by {
            if j == r.len() - 1 {
                assert(r[j] == s.last());
                assert(r[i] == r0[i]);
                if r0[i] == x {
                    assert(display_le(x, s.last()));
                } else {
                    assert(s.drop_last().contains(r0[i]));
                    let m = choose|m: int|
                        0 <= m < s.drop_last().len() && s.drop_last()[m] == r0[i];
                    assert(s[m] == r0[i]);
                    assert(display_le(s[m], s.last()));
                }
            } else {
                assert(r[i] == r0[i] && r[j] == r0[j]);
            }
        }
        assert forall|k: int| 0 <= k < r.len() implies (#[trigger] r[k]) == x || s.contains(
            r[k],
        ) by {
            if k == r.len() - 1 {
                assert(r[k] == s.last());
                assert(s.contains(s.last()));
            } else {
                assert(r[k] == r0[k]);
                if r0[k] != x {
                    assert(s.drop_last().contains(r0[k]));
                    let m = choose|m: int|
                        0 <= m < s.drop_last().len() && s.drop_last()[m] == r0[k];
                    assert(s[m] == r0[k]);
                }
            }
        }
    }
}

/// The sorted sequence really is in display order.
pub proof fn lemma_sort_display_sorted(rows: Seq<DisplaySessionRowV>)
    ensures
        sorted_display(spec_sort_display(rows)),
        spec_sort_display(rows).len() == rows.len(),
    decreases rows.len(),
{
    if rows.len() > 0 {
        lemma_sort_display_sorted(rows.drop_last());
        lemma_insert_display_sorted(spec_sort_display(rows.drop_last()), rows.last());
    }
}

// ---------------------------------------------------------------------------
// Executable pipeline
// ---------------------------------------------------------------------------

impl DisplaySessionRow {
    /// A copy with the same view.
    pub fn clone_display(&self) -> (r: DisplaySessionRow)
        ensures
            r@ == self@,
    {
        let r = DisplaySessionRow {
            root: self.root.clone_row(),
            status: self.status,
            last_activity_unix_s: self.last_activity_unix_s,
            reason: crate::util::clone_opt_string(&self.reason),
            subagents: self.subagents,
        };
        proof {
            assert(r@ =~= self@);
        }
        r
    }
}

/// Whether the snapshot holds a row with this identity.
fn identity_present(sessions: &Vec<SessionRow>, host: &str, thread_id: &str) -> (r: bool)
    ensures
        r == spec_ids(sessions@.map_values(|x: SessionRow| x@)).contains((host@, thread_id@)),
{
    let ghost rows = sessions@.map_values(|x: SessionRow| x@);
    proof {
        lemma_spec_ids(rows, (host@, thread_id@));
    }
    let mut i: usize = 0;
    let n = sessions.len();
    while i < n
        invariant
            n == sessions@.len(),
            rows == sessions@.map_values(|x: SessionRow| x@),
            0 <= i <= n,
            forall|j: int| 0 <= j < i ==> ((#[trigger] rows[j]).host, rows[j].thread_id) != (
                host@,
                thread_id@,
            ),
        decreases n - i,
    {
        let s = &sessions[i];
        if str_eq(s.host.as_str(), host) && str_eq(s.thread_id.as_str(), thread_id) {
            proof {
                assert(((rows[i as int]).host, rows[i as int].thread_id) == (host@, thread_id@));
                lemma_spec_ids(rows, (host@, thread_id@));
            }
            return true;
        }
        i = i + 1;
    }
    proof {
        lemma_spec_ids(rows, (host@, thread_id@));
    }
    false
}

/// Files one row into the group list.
fn add_to_groups(groups: &mut Vec<GroupAgg>, row: &SessionRow, root_id: String, is_root: bool)
    ensures
        final(groups)@.map_values(|g: GroupAgg| g@) == spec_add_to_groups(
            old(groups)@.map_values(|g: GroupAgg| g@),
            (row.host@, root_id@),
            row@,
            is_root,
        ),
{
    let ghost gs = groups@.map_values(|g: GroupAgg| g@);
    let ghost key = (row.host@, root_id@);
    let n = groups.len();
    let mut idx: usize = 0;
    while idx < n
        invariant
            n == groups@.len(),
            gs == groups@.map_values(|g: GroupAgg| g@),
            key == (row.host@, root_id@),
            0 <= idx <= n,
            forall|m: int| 0 <= m < idx ==> (#[trigger] gs[m]).key != key,
        ensures
            0 <= idx <= n,
            forall|m: int| 0 <= m < idx ==> (#[trigger] gs[m]).key != key,
            idx < n ==> gs[idx as int].key == key,
        decreases n - idx,
    {
        let g = &groups[idx];
        proof {
            assert(gs[idx as int] == groups@[idx as int]@);
            assert(gs[idx as int].key == (groups@[idx as int].host@, groups@[idx as int].root_id@));
        }
        if str_eq(g.host.as_str(), row.host.as_str()) && str_eq(
            g.root_id.as_str(),
            root_id.as_str(),
        ) {
            proof {
                assert(gs[idx as int].key =~= key);
            }
            break;
        }
        idx = idx + 1;
    }
    proof {
        lemma_add_to_groups_at(gs, key, row@, is_root, idx as int);
    }
    if idx < groups.len() {
        let mut g = groups.remove(idx);
        if is_root {
            g.root = Some(row.clone_row());
        } else {
            g.subs.push(row.clone_row());
        }
        proof {
            if !is_root {
                assert(g.subs@.map_values(|r: SessionRow| r@).drop_last() =~= gs[idx as int].subs);
            }
            assert(g@ =~= spec_update_group(gs[idx as int], row@, is_root));
        }
        groups.insert(idx, g);
        proof {
            assert(groups@.map_values(|g2: GroupAgg| g2@) =~= gs.update(
                idx as int,
                spec_update_group(gs[idx as int], row@, is_root),
            ));
        }
    } else {
        let g = GroupAgg {
            host: row.host.clone(),
            root_id,
            root: if is_root {
                Some(row.clone_row())
            } else {
                None
            },
            subs: if is_root {
                Vec::new()
            } else {
                let mut v = Vec::new();
                v.push(row.clone_row());
                v
            },
        };
        proof {
            assert(g@ =~= spec_new_group(key, row@, is_root));
        }
        groups.push(g);
        proof {
            assert(groups@.map_values(|g2: GroupAgg| g2@) =~= gs.push(
                spec_new_group(key, row@, is_root),
            ));
        }
    }
}

/// The timestamp key for recency comparisons.
fn ts_key_exec(t: &Option<i64>) -> (r: i64)
    ensures
        r as int == ts_key(*t),
{
    match t {
        Some(x) => *x,
        None => i64::MIN,
    }
}

/// Whether the row carries a non-empty user-assigned name.
fn is_named(row: &SessionRow) -> (r: bool)
    ensures
        r == spec_is_named(row@),
{
    match &row.name {
        Some(n) => {
            let t = trim_str(n.as_str());
            t.unicode_len() > 0
        },
        None => false,
    }
}

/// The display-order comparison.
fn display_le_exec(a: &DisplaySessionRow, b: &DisplaySessionRow) -> (r: bool)
    ensures
        r == display_le(a@, b@),
{
    let an = is_named(&a.root);
    let bn = is_named(&b.root);
    if an != bn {
        return an;
    }
    let ta = ts_key_exec(&a.last_activity_unix_s);
    let tb = ts_key_exec(&b.last_activity_unix_s);
    if ta != tb {
        return ta > tb;
    }
    if !str_eq(a.root.host.as_str(), b.root.host.as_str()) {
        return str_le(a.root.host.as_str(), b.root.host.as_str());
    }
    str_le(a.root.thread_id.as_str(), b.root.thread_id.as_str())
}

/// Inserts a row into a sorted list, after every row it does not precede.
fn insert_display(sorted: &mut Vec<DisplaySessionRow>, x: DisplaySessionRow)
    ensures
        final(sorted)@.map_values(|d: DisplaySessionRow| d@) == spec_insert_display(
            old(sorted)@.map_values(|d: DisplaySessionRow| d@),
            x@,
        ),
{
    let ghost s = sorted@.map_values(|d: DisplaySessionRow| d@);
    let n = sorted.len();
    let mut k: usize = n;
    while k > 0
        invariant
            n == sorted@.len(),
            s == sorted@.map_values(|d: DisplaySessionRow| d@),
            0 <= k <= n,
            forall|m: int| k <= m < n ==> !display_le(#[trigger] s[m], x@),
        ensures
            0 <= k <= n,
            forall|m: int| k <= m < n ==> !display_le(#[trigger] s[m], x@),
            k > 0 ==> display_le(s[k - 1], x@),
        decreases k,
    {
        if display_le_exec(&sorted[k - 1], &x) {
            break;
        }
        k = k - 1;
    }
    proof {
        if k > 0 {
            assert(display_le(s[k - 1], x@));
        }
        lemma_insert_at(s, x@, k as int);
    }
    sorted.insert(k, x);
    proof {
        assert(sorted@.map_values(|d: DisplaySessionRow| d@) =~= s.take(k as int) + seq![x@]
            + s.skip(k as int));
    }
}

/// Inserting lands exactly where the backward scan stopped.
proof fn lemma_insert_at(s: Seq<DisplaySessionRowV>, x: DisplaySessionRowV, k: int)
    requires
        0 <= k <= s.len(),
        forall|m: int| k <= m < s.len() ==> !display_le(#[trigger] s[m], x),
        k > 0 ==> display_le(s[k - 1], x),
    ensures
        spec_insert_display(s, x) == s.take(k) + seq![x] + s.skip(k),
    decreases s.len() - k,
{
    if k == s.len() {
        if s.len() == 0 {
            assert(spec_insert_display(s, x) =~= s.take(k) + seq![x] + s.skip(k));
        } else {
            assert(display_le(s.last(), x));
            assert(s.push(x) =~= s.take(k) + seq![x] + s.skip(k));
        }
    } else {
        assert(!display_le(s.last(), x));
        assert(forall|m: int|
            k <= m < s.drop_last().len() ==> !display_le(#[trigger] s.drop_last()[m], x));
        lemma_insert_at(s.drop_last(), x, k);
        assert(spec_insert_display(s, x) == spec_insert_display(s.drop_last(), x).push(s.last()));
        assert((s.drop_last().take(k) + seq![x] + s.drop_last().skip(k)).push(s.last()) =~= s.take(
            k,
        ) + seq![x] + s.skip(k));
    }
}

/// Folds flat per-thread rows into root-plus-subagent display groups, each
/// with its aggregate status (most severe wins), most recent activity,
/// subagent counts by status and, in debug mode, the winning row's reason;
/// ordered with named sessions first, then by recency, host and thread id.
pub fn group_sessions_for_display(sessions: &Vec<SessionRow>, debug: bool) -> (r: Vec<
    DisplaySessionRow,
>)
    ensures
        r@.map_values(|d: DisplaySessionRow| d@) == spec_sort_display(
            spec_display_rows(
                spec_groups(
                    sessions@.map_values(|x: SessionRow| x@),
                    spec_ids(sessions@.map_values(|x: SessionRow| x@)),
                ),
                debug,
            ),
        ),
        sorted_display(r@.map_values(|d: DisplaySessionRow| d@)),
{
    let ghost rows = sessions@.map_values(|x: SessionRow| x@);
    let ghost ids = spec_ids(rows);
    let mut groups: Vec<GroupAgg> = Vec::new();
    let mut i: usize = 0;
    let n = sessions.len();
    proof {
        assert(rows.take(0) =~= Seq::<SessionRowV>::empty());
        assert(groups@.map_values(|g: GroupAgg| g@) =~= spec_groups(rows.take(0), ids));
    }
    while i < n
        invariant
            n == sessions@.len(),
            rows == sessions@.map_values(|x: SessionRow| x@),
            ids == spec_ids(rows),
            0 <= i <= n,
            groups@.map_values(|g: GroupAgg| g@) == spec_groups(rows.take(i as int), ids),
        decreases n - i,
    {
        proof {
            assert(rows.take(i as int + 1).drop_last() =~= rows.take(i as int));
            assert(rows.take(i as int + 1).last() == rows[i as int]);
        }
        let row = &sessions[i];
        let root_id: String = match &row.subagent_parent_thread_id {
            Some(p) => {
                if identity_present(sessions, row.host.as_str(), p.as_str()) {
                    p.clone()
                } else {
                    row.thread_id.clone()
                }
            },
            None => row.thread_id.clone(),
        };
        proof {
            assert(root_id@ == spec_root_id(rows[i as int], ids));
        }
        let is_root = str_eq(row.thread_id.as_str(), root_id.as_str());
        add_to_groups(&mut groups, row, root_id, is_root);
        i = i + 1;
    }
    proof {
        assert(rows.take(n as int) =~= rows);
    }

    let ghost gs = groups@.map_values(|g: GroupAgg| g@);
    let mut out: Vec<DisplaySessionRow> = Vec::new();
    let mut gi: usize = 0;
    let gn = groups.len();
    proof {
        assert(gs.take(0) =~= Seq::<GroupV>::empty());
        assert(out@.map_values(|d: DisplaySessionRow| d@) =~= spec_display_rows(
            gs.take(0),
            debug,
        ));
    }
    while gi < gn
        invariant
            gn == groups@.len(),
            gs == groups@.map_values(|g: GroupAgg| g@),
            0 <= gi <= gn,
            out@.map_values(|d: DisplaySessionRow| d@) == spec_display_rows(
                gs.take(gi as int),
                debug,
            ),
        decreases gn - gi,
    {
        proof {
            assert(gs.take(gi as int + 1).drop_last() =~= gs.take(gi as int));
            assert(gs.take(gi as int + 1).last() == gs[gi as int]);
        }
        let g = &groups[gi];
        match &g.root {
            Some(root) => {
                let d = fold_group(root, &g.subs, debug);
                proof {
                    assert(d@ =~= spec_display_row(gs[gi as int], debug));
                }
                let ghost pre = out@;
                out.push(d);
                proof {
                    assert(out@.drop_last() =~= pre);
                    assert(out@.map_values(|x: DisplaySessionRow| x@) =~= spec_display_rows(
                        gs.take(gi as int + 1),
                        debug,
                    ));
                }
            },
            None => {
                proof {
                    assert(out@.map_values(|x: DisplaySessionRow| x@) =~= spec_display_rows(
                        gs.take(gi as int + 1),
                        debug,
                    ));
                }
            },
        }
        gi = gi + 1;
    }
    proof {
        assert(gs.take(gn as int) =~= gs);
    }

    let ghost unsorted = out@.map_values(|d: DisplaySessionRow| d@);
    let mut sorted: Vec<DisplaySessionRow> = Vec::new();
    let mut si: usize = 0;
    let sn = out.len();
    proof {
        assert(unsorted.take(0) =~= Seq::<DisplaySessionRowV>::empty());
        assert(sorted@.map_values(|d: DisplaySessionRow| d@) =~= spec_sort_display(
            unsorted.take(0),
        ));
    }
    while si < sn
        invariant
            sn == out@.len(),
            unsorted == out@.map_values(|d: DisplaySessionRow| d@),
            0 <= si <= sn,
            sorted@.map_values(|d: DisplaySessionRow| d@) == spec_sort_display(
                unsorted.take(si as int),
            ),
        decreases sn - si,
    {
        proof {
            assert(unsorted.take(si as int + 1).drop_last() =~= unsorted.take(si as int));
            assert(unsorted.take(si as int + 1).last() == unsorted[si as int]);
        }
        let x = out[si].clone_display();
        insert_display(&mut sorted, x);
        si = si + 1;
    }
    proof {
        assert(unsorted.take(sn as int) =~= unsorted);
        lemma_sort_display_sorted(unsorted);
    }
    sorted
}

/// Folds one group's root and subagents into its display row.
fn fold_group(root: &SessionRow, subs: &Vec<SessionRow>, debug: bool) -> (r: DisplaySessionRow)
    ensures
        r@ == spec_display_row(
            GroupV {
                key: (root.host@, root.thread_id@),
                root: Some(root@),
                subs: subs@.map_values(|x: SessionRow| x@),
            },
            debug,
        ),
{
    let ghost subs_v = subs@.map_values(|x: SessionRow| x@);
    let ghost all = seq![root@] + subs_v;

    let mut score: u8 = root.status.severity();
    let mut last_ts: Option<i64> = root.last_activity_unix_s;
    let mut working: usize = 0;
    let mut unknown: usize = 0;
    let mut waiting: usize = 0;
    let mut i: usize = 0;
    let n = subs.len();
    proof {
        assert(all.take(1) =~= seq![root@]);
        assert(all.take(1).drop_last() =~= Seq::<SessionRowV>::empty());
        assert(rows_status_score(Seq::<SessionRowV>::empty()) == 0);
        assert(rows_last_ts(Seq::<SessionRowV>::empty()) is None);
        assert(all.take(1).last() == root@);
        assert(score as int == rows_status_score(all.take(1)));
        assert(last_ts == rows_last_ts(all.take(1)));
        assert(subs_v.take(0) =~= Seq::<SessionRowV>::empty());
        assert(count_status(subs_v.take(0), SessionStatus::Working) == 0);
        assert(count_status(subs_v.take(0), SessionStatus::Unknown) == 0);
        assert(count_status(subs_v.take(0), SessionStatus::Waiting) == 0);
    }
    while i < n
        invariant
            n == subs@.len(),
            subs_v == subs@.map_values(|x: SessionRow| x@),
            all == seq![root@] + subs_v,
            all.len() == 1 + n,
            0 <= i <= n,
            score as int == rows_status_score(all.take(i as int + 1)),
            score <= 2,
            last_ts == rows_last_ts(all.take(i as int + 1)),
            working as int == count_status(subs_v.take(i as int), SessionStatus::Working),
            unknown as int == count_status(subs_v.take(i as int), SessionStatus::Unknown),
            waiting as int == count_status(subs_v.take(i as int), SessionStatus::Waiting),
            working <= i && unknown <= i && waiting <= i,
        decreases n - i,
    {
        proof {
            assert(all.take(i as int + 2).drop_last() =~= all.take(i as int + 1));
            assert(all.take(i as int + 2).last() == all[i as int + 1]);
            assert(all[i as int + 1] == subs_v[i as int]);
            assert(subs_v.take(i as int + 1).drop_last() =~= subs_v.take(i as int));
            assert(subs_v.take(i as int + 1).last() == subs_v[i as int]);
        }
        let sub = &subs[i];
        let sev = sub.status.severity();
        if sev > score {
            score = sev;
        }
        last_ts = match (last_ts, sub.last_activity_unix_s) {
            (None, x) => x,
            (Some(a), None) => Some(a),
            (Some(a), Some(b)) => if b > a {
                Some(b)
            } else {
                Some(a)
            },
        };
        match sub.status {
            SessionStatus::Working => {
                working = working + 1;
            },
            SessionStatus::Unknown => {
                unknown = unknown + 1;
            },
            SessionStatus::Waiting => {
                waiting = waiting + 1;
            },
        }
        i = i + 1;
    }
    proof {
        assert(all.take(n as int + 1) =~= all);
        assert(subs_v.take(n as int) =~= subs_v);
    }
    let status = if score == 2 {
        SessionStatus::Working
    } else if score == 1 {
        SessionStatus::Unknown
    } else {
        SessionStatus::Waiting
    };

    let reason: Option<String> = if debug {
        match pick_reason_row(root, subs, status) {
            Some(row) => match &row.debug {
                Some(d) => crate::util::clone_opt_string(&d.status_reason),
                None => None,
            },
            None => None,
        }
    } else {
        None
    };

    let r = DisplaySessionRow {
        root: root.clone_row(),
        status,
        last_activity_unix_s: last_ts,
        reason,
        subagents: SubagentSummary { total: subs.len(), working, unknown, waiting },
    };
    proof {
        assert(r@ =~= spec_display_row(
            GroupV { key: (root.host@, root.thread_id@), root: Some(root@), subs: subs_v },
            debug,
        ));
    }
    r
}

/// The row whose diagnostic reason the group displays.
fn pick_reason_row<'a>(root: &'a SessionRow, subs: &'a Vec<SessionRow>, st: SessionStatus) -> (r:
    Option<&'a SessionRow>)
    ensures
        ({
            let all = seq![root@] + subs@.map_values(|x: SessionRow| x@);
            match r {
                Some(row) => spec_pick_reason_row(all, st) == Some(row@),
                None => spec_pick_reason_row(all, st) is None,
            }
        }),
{
    let ghost subs_v = subs@.map_values(|x: SessionRow| x@);
    let ghost all = seq![root@] + subs_v;
    let mut best: Option<&SessionRow> = None;
    proof {
        assert(all.take(0) =~= Seq::<SessionRowV>::empty());
    }
    if root.status.severity() == st.severity() {
        proof {
            lemma_severity_injective(root.status, st);
        }
        best = Some(root);
    }
    proof {
        assert(all.take(1).drop_last() =~= Seq::<SessionRowV>::empty());
        assert(spec_pick_reason_row(Seq::<SessionRowV>::empty(), st) is None);
        assert(all.take(1).last() == root@);
        match best {
            Some(b) => {
                assert(spec_pick_reason_row(all.take(1), st) == Some(b@));
            },
            None => {
                assert(root.status != st) by {
                    lemma_severity_injective(root.status, st);
                }
                assert(spec_pick_reason_row(all.take(1), st) is None);
            },
        }
    }
    let mut i: usize = 0;
    let n = subs.len();
    while i < n
        invariant
            n == subs@.len(),
            subs_v == subs@.map_values(|x: SessionRow| x@),
            all == seq![root@] + subs_v,
            all.len() == 1 + n,
            0 <= i <= n,
            match best {
                Some(b) => spec_pick_reason_row(all.take(i as int + 1), st) == Some(b@),
                None => spec_pick_reason_row(all.take(i as int + 1), st) is None,
            },
        decreases n - i,
    {
        proof {
            assert(all.take(i as int + 2).drop_last() =~= all.take(i as int + 1));
            assert(all.take(i as int + 2).last() == all[i as int + 1]);
            assert(all[i as int + 1] == subs_v[i as int]);
        }
        let sub = &subs[i];
        if sub.status.severity() == st.severity() {
            proof {
                lemma_severity_injective(sub.status, st);
            }
            let replace = match best {
                Some(b) => ts_key_exec(&sub.last_activity_unix_s) >= ts_key_exec(
                    &b.last_activity_unix_s,
                ),
                None => true,
            };
            if replace {
                best = Some(sub);
            }
        } else {
            proof {
                lemma_severity_injective(sub.status, st);
            }
        }
        i = i + 1;
    }
    proof {
        assert(all.take(n as int + 1) =~= all);
    }
    best
}

/// Statuses with equal severity are the same status.
proof fn lemma_severity_injective(a: SessionStatus, b: SessionStatus)
    ensures
        (status_severity(a) == status_severity(b)) <==> a == b,
{
}


// ---------------------------------------------------------------------------
// Text helpers for rendering
// ---------------------------------------------------------------------------

/// A thread id shortened for a narrow column: within fourteen characters it
/// passes through; otherwise its first eight and last five characters stand
/// around an ellipsis.
pub open spec fn spec_short_thread_id(s: Seq<char>) -> Seq<char> {
    let t = spec_trim(s);
    if t.len() <= 14 {
        t
    } else {
        t.take(8) + seq!['…'] + t.skip(t.len() - 5)
    }
}

pub fn short_thread_id(thread_id: &str) -> (r: String)
    ensures
        r@ == spec_short_thread_id(thread_id@),
{
    let tid = trim_str(thread_id);
    let n = tid.unicode_len();
    if n <= 14 {
        return tid;
    }
    proof {
        reveal_strlit("…");
    }
    let mut out = tid.as_str().substring_char(0, 8).to_owned();
    out.append("…");
    out.append(tid.as_str().substring_char(n - 5, n));
    proof {
        assert("…"@ =~= seq!['…']);
        assert(out@ =~= spec_short_thread_id(thread_id@));
    }
    out
}

/// The subagent column: the count alone, or in debug mode the count with a
/// breakdown by status for whichever statuses occur.
pub open spec fn spec_format_subagents(s: SubagentSummary, debug: bool) -> Seq<char> {
    if s.total == 0 {
        "0"@
    } else if !debug {
        crate::util::spec_dec(s.total as int)
    } else {
        let parts = spec_subagent_parts(s);
        if parts.len() == 0 {
            crate::util::spec_dec(s.total as int)
        } else {
            crate::util::spec_dec(s.total as int) + " ("@ + parts + ")"@
        }
    }
}

/// The breakdown text: working, unknown and waiting counts, each present
/// only when non-zero, separated by slashes.
pub open spec fn spec_subagent_parts(s: SubagentSummary) -> Seq<char> {
    let w: Seq<char> = if s.working > 0 {
        crate::util::spec_dec(s.working as int) + "W"@
    } else {
        Seq::empty()
    };
    let u: Seq<char> = if s.unknown > 0 {
        (if w.len() > 0 {
            w + "/"@
        } else {
            w
        }) + crate::util::spec_dec(s.unknown as int) + "U"@
    } else {
        w
    };
    if s.waiting > 0 {
        (if u.len() > 0 {
            u + "/"@
        } else {
            u
        }) + crate::util::spec_dec(s.waiting as int) + "WT"@
    } else {
        u
    }
}

pub fn format_subagents(s: &SubagentSummary, debug: bool) -> (r: String)
    ensures
        r@ == spec_format_subagents(*s, debug),
{
    if s.total == 0 {
        proof {
            reveal_strlit("0");
        }
        return "0".to_owned();
    }
    if !debug {
        return crate::util::u64_to_dec(s.total as u64);
    }
    let mut parts = String::new();
    if s.working > 0 {
        let num = crate::util::u64_to_dec(s.working as u64);
        parts.append(num.as_str());
        parts.append("W");
    }
    if s.unknown > 0 {
        if parts.unicode_len() > 0 {
            parts.append("/");
        }
        let num = crate::util::u64_to_dec(s.unknown as u64);
        parts.append(num.as_str());
        parts.append("U");
    }
    if s.waiting > 0 {
        if parts.unicode_len() > 0 {
            parts.append("/");
        }
        let num = crate::util::u64_to_dec(s.waiting as u64);
        parts.append(num.as_str());
        parts.append("WT");
    }
    proof {
        assert(parts@ =~= spec_subagent_parts(*s));
    }
    if parts.unicode_len() == 0 {
        return crate::util::u64_to_dec(s.total as u64);
    }
    let mut out = crate::util::u64_to_dec(s.total as u64);
    out.append(" (");
    out.append(parts.as_str());
    out.append(")");
    proof {
        assert(out@ =~= spec_format_subagents(*s, debug));
    }
    out
}

/// A path with the home directory abbreviated to `~`; anything else passes
/// through trimmed.
pub open spec fn spec_shorten_home_path(path: Seq<char>, home: Seq<char>) -> Seq<char> {
    let p = spec_trim(path);
    if home.len() == 0 {
        p
    } else if p == home {
        "~"@
    } else if crate::util::spec_starts_with(p, home) && p.len() > home.len() && p[home.len() as int]
        == '/' {
        "~"@ + p.skip(home.len() as int)
    } else {
        p
    }
}

pub fn shorten_home_path(path: &str, home: &str) -> (r: String)
    ensures
        r@ == spec_shorten_home_path(path@, home@),
{
    let p = trim_str(path);
    let hn = home.unicode_len();
    if hn == 0 {
        return p;
    }
    if str_eq(p.as_str(), home) {
        proof {
            reveal_strlit("~");
        }
        let r = "~".to_owned();
        proof {
            assert(r@ =~= spec_shorten_home_path(path@, home@));
        }
        return r;
    }
    let pn = p.unicode_len();
    if crate::util::str_starts_with(p.as_str(), home) && pn > hn && p.as_str().get_char(hn)
        == '/' {
        proof {
            reveal_strlit("~");
        }
        let mut out = "~".to_owned();
        out.append(p.as_str().substring_char(hn, pn));
        proof {
            assert("~"@ =~= seq!['~']);
            assert(out@ =~= spec_shorten_home_path(path@, home@));
        }
        return out;
    }
    p
}


// ---------------------------------------------------------------------------
// Foreground refresh pacing
// ---------------------------------------------------------------------------

/// The foreground's refresh gate: a refresh timer fires at a configured
/// interval, and at most one refresh is ever in flight — a tick while one is
/// outstanding is a no-op, so the foreground never queues up behind a slow
/// collection.
pub struct RefreshThrottle {
    interval_ms: u64,
    in_flight: bool,
    last_sent_ms: i64,
}

impl RefreshThrottle {
    pub closed spec fn interval_view(&self) -> int {
        self.interval_ms as int
    }

    pub closed spec fn in_flight_view(&self) -> bool {
        self.in_flight
    }

    pub closed spec fn last_sent_view(&self) -> int {
        self.last_sent_ms as int
    }

    /// A gate that fires at the given interval, floored at 100 milliseconds;
    /// nothing is in flight yet, and the first tick is already due.
    pub fn new(interval_ms: u64) -> (r: RefreshThrottle)
        ensures
            !r.in_flight_view(),
            r.interval_view() == (if interval_ms >= 100 {
                interval_ms as int
            } else {
                100
            }),
            r.last_sent_view() == i64::MIN as int,
    {
        let interval = if interval_ms >= 100 {
            interval_ms
        } else {
            100
        };
        RefreshThrottle { interval_ms: interval, in_flight: false, last_sent_ms: i64::MIN }
    }

    /// Whether the timer has reached its next firing point.
    pub fn timer_due(&self, now_ms: i64) -> (r: bool)
        ensures
            r == (now_ms as int - self.last_sent_view() >= self.interval_view()),
    {
        let wide: i128 = now_ms as i128 - self.last_sent_ms as i128;
        wide >= self.interval_ms as i128
    }

    /// Asks to send a refresh now: granted exactly when none is in flight,
    /// and a granted request is the one in flight until its outcome lands.
    pub fn request(&mut self, now_ms: i64) -> (sent: bool)
        ensures
            sent == !old(self).in_flight_view(),
            final(self).in_flight_view(),
            final(self).interval_view() == old(self).interval_view(),
            sent ==> final(self).last_sent_view() == now_ms as int,
            !sent ==> final(self).last_sent_view() == old(self).last_sent_view(),
    {
        if self.in_flight {
            return false;
        }
        self.in_flight = true;
        self.last_sent_ms = now_ms;
        true
    }

    /// The in-flight refresh answered — with a snapshot or an error — so the
    /// next request may go out.
    pub fn note_outcome(&mut self)
        ensures
            !final(self).in_flight_view(),
            final(self).interval_view() == old(self).interval_view(),
            final(self).last_sent_view() == old(self).last_sent_view(),
    {
        self.in_flight = false;
    }
}

} // verus!
