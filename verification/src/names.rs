use vstd::prelude::*;
use vstd::string::StrSliceExecFns;
use vstd::string::StringExecFns;

use serde_json::Value;

use crate::util::{hex_digit, hex_char_string, spec_dec, spec_trim, str_eq, trim_str,
    u64_to_dec};

verus! {

/// The key of the user-assigned-name map: thread ids are unique per host
/// only, so the host is part of the key.
#[derive(Clone, Debug)]
pub struct SessionNameKey {
    pub host: String,
    pub thread_id: String,
}

pub open spec fn key_view(k: SessionNameKey) -> (Seq<char>, Seq<char>) {
    (k.host@, k.thread_id@)
}

/// One line of the append-only name log; an absent or empty name is a
/// tombstone.
#[derive(Clone, Debug)]
pub struct NameRecord {
    pub host: String,
    pub thread_id: String,
    pub name: Option<String>,
}

#[verifier::ext_equal]
pub ghost struct NameRecordV {
    pub host: Seq<char>,
    pub thread_id: Seq<char>,
    pub name: Option<Seq<char>>,
}

impl View for NameRecord {
    type V = NameRecordV;

    open spec fn view(&self) -> NameRecordV {
        NameRecordV {
            host: self.host@,
            thread_id: self.thread_id@,
            name: match self.name {
                Some(ref n) => Some(n@),
                None => None,
            },
        }
    }
}

// ---------------------------------------------------------------------------
// Name normalization
// ---------------------------------------------------------------------------

/// Trims the name; a whitespace-only or absent name normalizes to `None`,
/// which means "clear".
pub open spec fn spec_normalize_name(name: Option<Seq<char>>) -> Option<Seq<char>> {
    match name {
        None => None,
        Some(s) => if spec_trim(s).len() == 0 {
            None
        } else {
            Some(spec_trim(s))
        },
    }
}

pub fn normalize_name_opt(name: Option<String>) -> (r: Option<String>)
    ensures
        match r {
            Some(n) => spec_normalize_name(
                match name {
                    Some(s) => Some(s@),
                    None => None,
                },
            ) == Some(n@),
            None => spec_normalize_name(
                match name {
                    Some(s) => Some(s@),
                    None => None,
                },
            ) is None,
        },
{
    match name {
        None => None,
        Some(s) => {
            let trimmed = trim_str(s.as_str());
            if trimmed.unicode_len() == 0 {
                None
            } else {
                Some(trimmed)
            }
        },
    }
}

// ---------------------------------------------------------------------------
// Encoding one log line as a JSON document
// ---------------------------------------------------------------------------

/// A character the JSON encoding copies through unescaped.
pub open spec fn json_plain(c: char) -> bool {
    c != '"' && c != '\\' && (c as int) >= 32
}

/// The escape sequence for one character, as serde_json writes it.
pub open spec fn spec_escape_char(c: char) -> Seq<char> {
    if c == '"' {
        seq!['\\', '"']
    } else if c == '\\' {
        seq!['\\', '\\']
    } else if c == '\u{8}' {
        seq!['\\', 'b']
    } else if c == '\t' {
        seq!['\\', 't']
    } else if c == '\n' {
        seq!['\\', 'n']
    } else if c == '\u{c}' {
        seq!['\\', 'f']
    } else if c == '\r' {
        seq!['\\', 'r']
    } else if (c as int) < 32 {
        seq!['\\', 'u', '0', '0', hex_digit(c as int / 16), hex_digit(c as int % 16)]
    } else {
        seq![c]
    }
}

pub open spec fn spec_escaped(s: Seq<char>) -> Seq<char>
    decreases s.len(),
{
    if s.len() == 0 {
        Seq::empty()
    } else {
        spec_escaped(s.drop_last()) + spec_escape_char(s.last())
    }
}

/// A JSON string literal: quotes around the escaped text.
pub open spec fn spec_json_string(s: Seq<char>) -> Seq<char> {
    seq!['"'] + spec_escaped(s) + seq!['"']
}

proof fn lemma_escaped_run(s: Seq<char>, a: int, b: int)
    requires
        0 <= a <= b <= s.len(),
        forall|j: int| a <= j < b ==> json_plain(#[trigger] s[j]),
    ensures
        spec_escaped(s.take(b)) == spec_escaped(s.take(a)) + s.subrange(a, b),
    decreases b - a,
{
    if b > a {
        lemma_escaped_run(s, a, b - 1);
        assert(s.take(b).drop_last() =~= s.take(b - 1));
        assert(s.take(b).last() == s[b - 1]);
        assert(json_plain(s[b - 1]));
        assert(spec_escape_char(s[b - 1]) =~= seq![s[b - 1]]);
        assert(spec_escaped(s.take(a)) + s.subrange(a, b - 1) + seq![s[b - 1]] =~= spec_escaped(
            s.take(a),
        ) + s.subrange(a, b));
    } else {
        assert(s.subrange(a, a) =~= Seq::<char>::empty());
        assert(spec_escaped(s.take(a)) + s.subrange(a, a) =~= spec_escaped(s.take(a)));
    }
}

/// The written form of one escaped character.
fn escape_piece(c: char) -> (r: String)
    requires
        !json_plain(c),
    ensures
        r@ == spec_escape_char(c),
{
    proof {
        reveal_strlit("\\\"");
        reveal_strlit("\\\\");
        reveal_strlit("\\b");
        reveal_strlit("\\t");
        reveal_strlit("\\n");
        reveal_strlit("\\f");
        reveal_strlit("\\r");
        reveal_strlit("\\u00");
    }
    if c == '"' {
        let r = "\\\"".to_owned();
        proof {
            assert(r@ =~= spec_escape_char(c));
        }
        r
    } else if c == '\\' {
        let r = "\\\\".to_owned();
        proof {
            assert(r@ =~= spec_escape_char(c));
        }
        r
    } else if c == '\u{8}' {
        let r = "\\b".to_owned();
        proof {
            assert(r@ =~= spec_escape_char(c));
        }
        r
    } else if c == '\t' {
        let r = "\\t".to_owned();
        proof {
            assert(r@ =~= spec_escape_char(c));
        }
        r
    } else if c == '\n' {
        let r = "\\n".to_owned();
        proof {
            assert(r@ =~= spec_escape_char(c));
        }
        r
    } else if c == '\u{c}' {
        let r = "\\f".to_owned();
        proof {
            assert(r@ =~= spec_escape_char(c));
        }
        r
    } else if c == '\r' {
        let r = "\\r".to_owned();
        proof {
            assert(r@ =~= spec_escape_char(c));
        }
        r
    } else {
        let code = c as u32;
        let mut r = "\\u00".to_owned();
        let hi = hex_char_string(code / 16);
        let lo = hex_char_string(code % 16);
        r.append(hi.as_str());
        r.append(lo.as_str());
        proof {
            assert(r@ =~= spec_escape_char(c));
        }
        r
    }
}

/// Appends the JSON string literal for `s` to `out`.
fn append_json_string(out: &mut String, s: &str)
    ensures
        final(out)@ == old(out)@ + spec_json_string(s@),
{
    proof {
        reveal_strlit("\"");
    }
    let ghost base = out@;
    out.append("\"");
    proof {
        assert("\""@ =~= seq!['"']);
    }
    let n = s.unicode_len();
    let mut start: usize = 0;
    let mut i: usize = 0;
    proof {
        assert(s@.take(0) =~= Seq::<char>::empty());
        assert(out@ =~= base + seq!['"'] + spec_escaped(s@.take(0)));
    }
    while i < n
        invariant
            n == s@.len(),
            0 <= start <= i <= n,
            out@ == base + seq!['"'] + spec_escaped(s@.take(start as int)),
            forall|j: int| start <= j < i ==> json_plain(#[trigger] s@[j]),
        decreases n - i,
    {
        let c = s.get_char(i);
        let plain = !(c == '"' || c == '\\' || (c as u32) < 32);
        if !plain {
            let run = s.substring_char(start, i);
            out.append(run);
            proof {
                lemma_escaped_run(s@, start as int, i as int);
                assert(out@ =~= base + seq!['"'] + spec_escaped(s@.take(i as int)));
            }
            let piece = escape_piece(c);
            out.append(piece.as_str());
            proof {
                assert(s@.take(i as int + 1).drop_last() =~= s@.take(i as int));
                assert(s@.take(i as int + 1).last() == s@[i as int]);
                assert(out@ =~= base + seq!['"'] + spec_escaped(s@.take(i as int + 1)));
            }
            start = i + 1;
        }
        i = i + 1;
    }
    let run = s.substring_char(start, n);
    out.append(run);
    proof {
        lemma_escaped_run(s@, start as int, n as int);
        assert(s@.take(n as int) =~= s@);
    }
    out.append("\"");
    proof {
        assert(out@ =~= base + spec_json_string(s@));
    }
}

/// One log line as serde_json serializes the record: the three fields in
/// declaration order, a tombstone's name written as `null`.
pub open spec fn spec_names_line(
    host: Seq<char>,
    thread_id: Seq<char>,
    name: Option<Seq<char>>,
) -> Seq<char> {
    "{\"host\":"@ + spec_json_string(host) + ",\"thread_id\":"@ + spec_json_string(thread_id)
        + ",\"name\":"@ + (match name {
        Some(n) => spec_json_string(n),
        None => "null"@,
    }) + "}"@
}

/// Encodes one record of the append-only log.
pub fn encode_names_line(key: &SessionNameKey, name: Option<&String>) -> (r: String)
    ensures
        r@ == spec_names_line(
            key.host@,
            key.thread_id@,
            match name {
                Some(n) => Some(n@),
                None => None,
            },
        ),
{
    let mut out = "{\"host\":".to_owned();
    append_json_string(&mut out, key.host.as_str());
    out.append(",\"thread_id\":");
    append_json_string(&mut out, key.thread_id.as_str());
    out.append(",\"name\":");
    match name {
        Some(n) => {
            append_json_string(&mut out, n.as_str());
        },
        None => {
            out.append("null");
        },
    }
    out.append("}");
    proof {
        assert(out@ =~= spec_names_line(
            key.host@,
            key.thread_id@,
            match name {
                Some(n) => Some(n@),
                None => None,
            },
        ));
    }
    out
}

// ---------------------------------------------------------------------------
// Decoding log lines
// ---------------------------------------------------------------------------

/// What one log line decodes to: the host, thread id and optional name of
/// an object of that shape, or nothing for any other text; the outcome
/// depends on the line alone.
pub uninterp spec fn decoded_name_record(line: Seq<char>) -> Option<
    (Seq<char>, Seq<char>, Option<Seq<char>>),
>;

/// A plain view of an optional decoded record.
pub open spec fn name_record_view(r: Option<NameRecord>) -> Option<
    (Seq<char>, Seq<char>, Option<Seq<char>>),
> {
    match r {
        Some(rec) => Some((rec@.host, rec@.thread_id, rec@.name)),
        None => None,
    }
}

/// Relies on serde_json's from_str and Value's get, as_str and is_null:
/// decodes one log line as an object with string `host` and `thread_id`
/// members and a string-or-null-or-absent `name` member. Anything else is
/// corruption, which the store treats as an error.
#[verifier::external_body]
pub fn decode_names_line(line: &str) -> (r: Option<NameRecord>)
    ensures
        decoded_name_record(line@) == name_record_view(r),
{
    let Ok(v) = serde_json::from_str::<Value>(line) else { return None };
    let host = v.get("host")?.as_str()?.to_string();
    let thread_id = v.get("thread_id")?.as_str()?.to_string();
    let name = match v.get("name") {
        None => None,
        Some(n) if n.is_null() => None,
        Some(n) => Some(n.as_str()?.to_string()),
    };
    Some(NameRecord { host, thread_id, name })
}

/// The record a decoded line contributes to the replay.
pub open spec fn record_of(t: (Seq<char>, Seq<char>, Option<Seq<char>>)) -> NameRecordV {
    NameRecordV { host: t.0, thread_id: t.1, name: t.2 }
}

/// Whether a log line takes part at all: blank lines are skipped.
pub open spec fn live_line(l: Seq<char>) -> bool {
    spec_trim(l).len() > 0
}

/// A live line whose trimmed text does not decode: corruption.
pub open spec fn line_bad(l: Seq<char>) -> bool {
    live_line(l) && decoded_name_record(spec_trim(l)) is None
}

/// The records the log's lines decode to, in file order, blank lines
/// skipped; meaningful when no line is bad.
pub open spec fn spec_decoded_records(lines: Seq<Seq<char>>) -> Seq<NameRecordV>
    decreases lines.len(),
{
    if lines.len() == 0 {
        Seq::empty()
    } else {
        spec_decoded_records(lines.drop_last()) + (if live_line(lines.last()) {
            match decoded_name_record(spec_trim(lines.last())) {
                Some(t) => seq![record_of(t)],
                None => Seq::<NameRecordV>::empty(),
            }
        } else {
            Seq::<NameRecordV>::empty()
        })
    }
}

// ---------------------------------------------------------------------------
// Replaying records in file order
// ---------------------------------------------------------------------------

/// The effective name map after replaying records in file order: each record
/// sets its key, or deletes it when its name normalizes to nothing — the
/// last writer in file order wins.
pub open spec fn spec_replay(records: Seq<NameRecordV>) -> Map<(Seq<char>, Seq<char>), Seq<char>>
    decreases records.len(),
{
    if records.len() == 0 {
        Map::empty()
    } else {
        let m = spec_replay(records.drop_last());
        let rec = records.last();
        match spec_normalize_name(rec.name) {
            Some(n) => m.insert((rec.host, rec.thread_id), n),
            None => m.remove((rec.host, rec.thread_id)),
        }
    }
}

/// The law of the log: the effective name for a key is the one carried by
/// the last record for that key, normalized; a key no record names, or whose
/// last record is a tombstone, is absent.
#[verifier::rlimit(100)]
#[verifier::spinoff_prover]
pub proof fn lemma_replay_last_record_wins(records: Seq<NameRecordV>, kv: (Seq<char>, Seq<char>))
    ensures
        (forall|j: int|
            0 <= j < records.len() ==> (#[trigger] records[j].host, records[j].thread_id) != kv)
            ==> !spec_replay(records).contains_key(kv),
        forall|j: int|
            0 <= j < records.len() && (#[trigger] records[j].host, records[j].thread_id) == kv
                && (forall|m: int|
                j < m < records.len() ==> ((#[trigger] records[m].host), records[m].thread_id)
                    != kv) ==> match spec_normalize_name(records[j].name) {
                Some(n) => spec_replay(records).contains_key(kv) && spec_replay(records)[kv] == n,
                None => !spec_replay(records).contains_key(kv),
            },
    decreases records.len(),
{
    if records.len() > 0 {
        lemma_replay_last_record_wins(records.drop_last(), kv);
        assert(forall|j: int|
            0 <= j < records.len() - 1 ==> records.drop_last()[j] == #[trigger] records[j]);
    }
}

// ---------------------------------------------------------------------------
// The association list that carries the map
// ---------------------------------------------------------------------------

pub open spec fn entries_map(entries: Seq<(SessionNameKey, String)>) -> Map<
    (Seq<char>, Seq<char>),
    Seq<char>,
>
    decreases entries.len(),
{
    if entries.len() == 0 {
        Map::empty()
    } else {
        entries_map(entries.drop_last()).insert(
            key_view(entries.last().0),
            entries.last().1@,
        )
    }
}

proof fn lemma_entries_found(entries: Seq<(SessionNameKey, String)>, j: int)
    requires
        0 <= j < entries.len(),
        forall|m: int|
            j < m < entries.len() ==> key_view(#[trigger] entries[m].0) != key_view(entries[j].0),
    ensures
        entries_map(entries).contains_key(key_view(entries[j].0)),
        entries_map(entries)[key_view(entries[j].0)] == entries[j].1@,
    decreases entries.len(),
{
    if j == entries.len() - 1 {
    } else {
        assert(forall|m: int|
            0 <= m < entries.len() - 1 ==> entries.drop_last()[m] == #[trigger] entries[m]);
        lemma_entries_found(entries.drop_last(), j);
    }
}

proof fn lemma_entries_absent(entries: Seq<(SessionNameKey, String)>, kv: (Seq<char>, Seq<char>))
    requires
        forall|m: int| 0 <= m < entries.len() ==> key_view(#[trigger] entries[m].0) != kv,
    ensures
        !entries_map(entries).contains_key(kv),
    decreases entries.len(),
{
    if entries.len() > 0 {
        assert(forall|m: int|
            0 <= m < entries.len() - 1 ==> entries.drop_last()[m] == #[trigger] entries[m]);
        lemma_entries_absent(entries.drop_last(), kv);
    }
}

/// Whether two keys agree.
pub fn key_eq(a: &SessionNameKey, b: &SessionNameKey) -> (r: bool)
    ensures
        r == (key_view(*a) == key_view(*b)),
{
    let r = str_eq(a.host.as_str(), b.host.as_str()) && str_eq(
        a.thread_id.as_str(),
        b.thread_id.as_str(),
    );
    proof {
        if r {
            assert(key_view(*a) =~= key_view(*b));
        }
    }
    r
}

/// A copy of a key with the same view.
pub fn clone_key(k: &SessionNameKey) -> (r: SessionNameKey)
    ensures
        key_view(r) == key_view(*k),
{
    let r = SessionNameKey { host: k.host.clone(), thread_id: k.thread_id.clone() };
    proof {
        assert(key_view(r) =~= key_view(*k));
    }
    r
}

/// Removes every entry under `key`, leaving the map without it.
fn remove_entries(entries: Vec<(SessionNameKey, String)>, key: &SessionNameKey) -> (r: Vec<
    (SessionNameKey, String),
>)
    ensures
        entries_map(r@) == entries_map(entries@).remove(key_view(*key)),
{
    let mut out: Vec<(SessionNameKey, String)> = Vec::new();
    let mut i: usize = 0;
    proof {
        assert(entries@.take(0) =~= Seq::<(SessionNameKey, String)>::empty());
        assert(entries_map(out@) =~= entries_map(entries@.take(0)).remove(key_view(*key)));
    }
    let n = entries.len();
    while i < n
        invariant
            n == entries@.len(),
            0 <= i <= n,
            entries_map(out@) == entries_map(entries@.take(i as int)).remove(key_view(*key)),
        decreases n - i,
    {
        proof {
            assert(entries@.take(i as int + 1).drop_last() =~= entries@.take(i as int));
            assert(entries@.take(i as int + 1).last() == entries@[i as int]);
        }
        let e = &entries[i];
        if !key_eq(&e.0, key) {
            let item = (clone_key(&e.0), e.1.clone());
            proof {
                assert(key_view(item.0) == key_view(entries@[i as int].0));
                assert(item.1@ == entries@[i as int].1@);
            }
            let ghost pre = out@;
            out.push(item);
            proof {
                assert(out@.drop_last() =~= pre);
                assert(out@.last() == item);
            }
        }
        proof {
            assert(entries_map(out@) =~= entries_map(entries@.take(i as int + 1)).remove(
                key_view(*key),
            ));
        }
        i = i + 1;
    }
    proof {
        assert(entries@.take(n as int) =~= entries@);
    }
    out
}


// ---------------------------------------------------------------------------
// The store
// ---------------------------------------------------------------------------

/// The modification-time-gated, append-only-log-backed cache of
/// user-assigned session names.
pub struct NamesStore {
    path: String,
    last_mtime: Option<i64>,
    names: Vec<(SessionNameKey, String)>,
}

/// What a mutation hands back: the normalized name now in force (when one
/// is), and the log line that must be appended to the backing file.
pub struct NameWrite {
    pub normalized: Option<String>,
    pub line: String,
}

impl NamesStore {
    /// The effective name map this store serves.
    pub closed spec fn names_map(&self) -> Map<(Seq<char>, Seq<char>), Seq<char>> {
        entries_map(self.names@)
    }

    pub closed spec fn last_mtime_view(&self) -> Option<i64> {
        self.last_mtime
    }

    /// An empty store over the log at `path`; nothing is cached yet.
    pub fn new(path: String) -> (r: NamesStore)
        ensures
            r.names_map() == Map::<(Seq<char>, Seq<char>), Seq<char>>::empty(),
            r.last_mtime_view() is None,
            r.path_str()@ == path@,
    {
        let r = NamesStore { path, last_mtime: None, names: Vec::new() };
        proof {
            assert(r.names@.take(0) =~= Seq::<(SessionNameKey, String)>::empty());
        }
        r
    }

    /// Where the backing log lives.
    pub fn path(&self) -> (r: &str)
        ensures
            r@ == self.path_str()@,
    {
        self.path.as_str()
    }

    pub closed spec fn path_str(&self) -> String {
        self.path
    }

    /// The cached name for a key, straight from the effective map.
    pub fn get_cached(&self, key: &SessionNameKey) -> (r: Option<&String>)
        ensures
            match r {
                Some(n) => self.names_map().contains_key(key_view(*key))
                    && self.names_map().index(key_view(*key)) == n@,
                None => !self.names_map().contains_key(key_view(*key)),
            },
    {
        let n = self.names.len();
        let mut i: usize = n;
        while i > 0
            invariant
                n == self.names@.len(),
                0 <= i <= n,
                forall|m: int|
                    i <= m < n ==> key_view(#[trigger] self.names@[m].0) != key_view(*key),
            decreases i,
        {
            let e = &self.names[i - 1];
            if key_eq(&e.0, key) {
                proof {
                    lemma_entries_found(self.names@, i - 1);
                }
                return Some(&e.1);
            }
            i = i - 1;
        }
        proof {
            lemma_entries_absent(self.names@, key_view(*key));
        }
        None
    }

    /// Forgets everything: the backing file is gone, so no name is in force.
    pub fn note_missing(&mut self)
        ensures
            final(self).names_map() == Map::<(Seq<char>, Seq<char>), Seq<char>>::empty(),
            final(self).last_mtime_view() is None,
            final(self).path_str()@ == old(self).path_str()@,
    {
        self.last_mtime = None;
        self.names = Vec::new();
        proof {
            assert(self.names@.take(0) =~= Seq::<(SessionNameKey, String)>::empty());
        }
    }

    /// Whether a reload can be skipped: the file's modification time is
    /// known and has not moved since the last load.
    pub fn is_unchanged(&self, mtime: Option<i64>) -> (r: bool)
        ensures
            r == (mtime is Some && self.last_mtime_view() is Some && mtime
                == self.last_mtime_view()),
    {
        match (mtime, &self.last_mtime) {
            (Some(a), Some(b)) => a == *b,
            _ => false,
        }
    }

    /// Replaces the cache with the replay of `records` read at `mtime`.
    pub fn load_records(&mut self, mtime: Option<i64>, records: &Vec<NameRecord>)
        ensures
            final(self).names_map() == spec_replay(records@.map_values(|r: NameRecord| r@)),
            final(self).last_mtime_view() == mtime,
            final(self).path_str()@ == old(self).path_str()@,
    {
        let ghost recs = records@.map_values(|r: NameRecord| r@);
        let mut entries: Vec<(SessionNameKey, String)> = Vec::new();
        let mut i: usize = 0;
        proof {
            assert(recs.take(0) =~= Seq::<NameRecordV>::empty());
            assert(entries@.take(0) =~= Seq::<(SessionNameKey, String)>::empty());
            assert(entries_map(entries@) =~= spec_replay(recs.take(0)));
        }
        let n = records.len();
        while i < n
            invariant
                n == records@.len(),
                recs == records@.map_values(|r: NameRecord| r@),
                0 <= i <= n,
                entries_map(entries@) == spec_replay(recs.take(i as int)),
            decreases n - i,
        {
            proof {
                assert(recs.take(i as int + 1).drop_last() =~= recs.take(i as int));
                assert(recs.take(i as int + 1).last() == recs[i as int]);
            }
            let rec = &records[i];
            let key = SessionNameKey {
                host: rec.host.clone(),
                thread_id: rec.thread_id.clone(),
            };
            let normalized = normalize_name_opt(clone_opt_name(&rec.name));
            match normalized {
                Some(name) => {
                    let ghost pre = entries@;
                    entries.push((key, name));
                    proof {
                        assert(entries@.drop_last() =~= pre);
                        assert(entries_map(entries@) =~= spec_replay(recs.take(i as int + 1)));
                    }
                },
                None => {
                    entries = remove_entries(entries, &key);
                    proof {
                        assert(entries_map(entries@) =~= spec_replay(recs.take(i as int + 1)));
                    }
                },
            }
            i = i + 1;
        }
        proof {
            assert(recs.take(n as int) =~= recs);
        }
        self.names = entries;
        self.last_mtime = mtime;
    }

    /// A corrupt log fails loud: the cache is reset to empty rather than
    /// left silently stale, and the next read sees the failure again only
    /// if the file changes again.
    pub fn load_failed(&mut self, mtime: Option<i64>)
        ensures
            final(self).names_map() == Map::<(Seq<char>, Seq<char>), Seq<char>>::empty(),
            final(self).last_mtime_view() == mtime,
            final(self).path_str()@ == old(self).path_str()@,
    {
        self.names = Vec::new();
        self.last_mtime = mtime;
        proof {
            assert(self.names@.take(0) =~= Seq::<(SessionNameKey, String)>::empty());
        }
    }

    /// Reloads from the log's lines unless the modification time says the
    /// cache is current: the effective map becomes the replay of the lines'
    /// decoded records. A bad line is corruption: the error names its line
    /// number and the cache is reset to empty, not left stale.
    pub fn refresh_from_lines(&mut self, mtime: Option<i64>, lines: &Vec<String>) -> (r: Result<
        (),
        String,
    >)
        ensures
            final(self).path_str()@ == old(self).path_str()@,
            ({
                let lv = lines@.map_values(|l: String| l@);
                let unchanged = mtime is Some && old(self).last_mtime_view() is Some && mtime
                    == old(self).last_mtime_view();
                if unchanged {
                    &&& r is Ok
                    &&& final(self).names_map() == old(self).names_map()
                    &&& final(self).last_mtime_view() == old(self).last_mtime_view()
                } else {
                    &&& final(self).last_mtime_view() == mtime
                    &&& match r {
                        Ok(u) => (forall|j: int|
                            0 <= j < lv.len() ==> !line_bad(#[trigger] lv[j])) && final(self).names_map() == spec_replay(spec_decoded_records(lv)),
                        Err(msg) => (exists|i: int|
                            0 <= i < lv.len() && line_bad(#[trigger] lv[i]) && (forall|j: int|
                                0 <= j < i ==> !line_bad(#[trigger] lv[j])) && msg@
                                == "parse session_names.jsonl line "@ + spec_dec(i + 1)) && final(self).names_map() == Map::<(Seq<char>, Seq<char>), Seq<char>>::empty(),
                    }
                }
            }),
    {
        if self.is_unchanged(mtime) {
            return Ok(());
        }
        match decode_names_lines(lines) {
            Ok(records) => {
                self.load_records(mtime, &records);
                proof {
                    let recs = records@.map_values(|rr: NameRecord| rr@);
                    assert(self.names_map() == spec_replay(recs));
                }
                Ok(())
            },
            Err(line_no) => {
                self.load_failed(mtime);
                let mut msg = "parse session_names.jsonl line ".to_owned();
                let num = u64_to_dec(line_no);
                msg.append(num.as_str());
                Err(msg)
            },
        }
    }

    /// Records a name for a key: the name is trimmed, and a whitespace-only
    /// name behaves exactly like `clear`. The caller appends the returned
    /// line to the log.
    pub fn set(&mut self, key: SessionNameKey, name: String) -> (w: NameWrite)
        ensures
            final(self).path_str()@ == old(self).path_str()@,
            final(self).last_mtime_view() == old(self).last_mtime_view(),
            match w.normalized {
                Some(n) => spec_normalize_name(Some(name@)) == Some(n@) && final(self).names_map()
                    == old(self).names_map().insert(key_view(key), n@) && w.line@
                    == spec_names_line(key.host@, key.thread_id@, Some(n@)),
                None => spec_normalize_name(Some(name@)) is None && final(self).names_map() == old(self).names_map().remove(key_view(key)) && w.line@ == spec_names_line(
                    key.host@,
                    key.thread_id@,
                    None,
                ),
            },
    {
        match normalize_name_opt(Some(name)) {
            Some(normalized) => {
                let line = encode_names_line(&key, Some(&normalized));
                let stored = normalized.clone();
                let ghost pre = self.names@;
                let kv = (key, stored);
                self.names.push(kv);
                proof {
                    assert(self.names@.drop_last() =~= pre);
                }
                NameWrite { normalized: Some(normalized), line }
            },
            None => {
                let line = self.clear(key);
                NameWrite { normalized: None, line }
            },
        }
    }

    /// Appends a tombstone for the key and drops it from the cache.
    pub fn clear(&mut self, key: SessionNameKey) -> (line: String)
        ensures
            final(self).path_str()@ == old(self).path_str()@,
            final(self).last_mtime_view() == old(self).last_mtime_view(),
            final(self).names_map() == old(self).names_map().remove(key_view(key)),
            line@ == spec_names_line(key.host@, key.thread_id@, None),
    {
        let line = encode_names_line(&key, None);
        let mut entries = Vec::new();
        core::mem::swap(&mut entries, &mut self.names);
        let removed = remove_entries(entries, &key);
        self.names = removed;
        line
    }

    /// Remembers the log's modification time right after an append, so the
    /// next refresh is a no-op when nobody else wrote.
    pub fn note_appended(&mut self, mtime: Option<i64>)
        ensures
            final(self).names_map() == old(self).names_map(),
            final(self).last_mtime_view() == mtime,
            final(self).path_str()@ == old(self).path_str()@,
    {
        self.last_mtime = mtime;
    }
}

/// Decodes every non-empty line of the log, in order; `Err` carries the
/// 1-based number of the first line that does not decode.
pub fn decode_names_lines(lines: &Vec<String>) -> (r: Result<Vec<NameRecord>, u64>)
    ensures
        ({
            let lv = lines@.map_values(|l: String| l@);
            match r {
                Ok(records) => (forall|j: int| 0 <= j < lv.len() ==> !line_bad(#[trigger] lv[j]))
                    && records@.map_values(|rec: NameRecord| rec@) == spec_decoded_records(lv),
                Err(n) => 1 <= n <= lv.len() && line_bad(lv[n - 1]) && (forall|j: int|
                    0 <= j < n - 1 ==> !line_bad(#[trigger] lv[j])),
            }
        }),
{
    let ghost lv = lines@.map_values(|l: String| l@);
    let mut records: Vec<NameRecord> = Vec::new();
    let mut i: usize = 0;
    let n = lines.len();
    proof {
        assert(lv.take(0) =~= Seq::<Seq<char>>::empty());
        assert(records@.map_values(|rec: NameRecord| rec@) =~= spec_decoded_records(lv.take(0)));
    }
    while i < n
        invariant
            n == lines@.len(),
            lv == lines@.map_values(|l: String| l@),
            0 <= i <= n,
            forall|j: int| 0 <= j < i ==> !line_bad(#[trigger] lv[j]),
            records@.map_values(|rec: NameRecord| rec@) == spec_decoded_records(lv.take(i as int)),
        decreases n - i,
    {
        proof {
            assert(lv.take(i as int + 1).drop_last() =~= lv.take(i as int));
            assert(lv.take(i as int + 1).last() == lv[i as int]);
        }
        let raw = trim_str(lines[i].as_str());
        if raw.unicode_len() > 0 {
            match decode_names_line(raw.as_str()) {
                Some(rec) => {
                    let ghost pre = records@;
                    records.push(rec);
                    proof {
                        assert(records@.drop_last() =~= pre);
                        assert(records@.map_values(|x: NameRecord| x@) =~= spec_decoded_records(
                            lv.take(i as int + 1),
                        ));
                    }
                },
                None => {
                    proof {
                        assert(line_bad(lv[i as int]));
                    }
                    return Err((i as u64) + 1);
                },
            }
        } else {
            proof {
                assert(records@.map_values(|x: NameRecord| x@) =~= spec_decoded_records(
                    lv.take(i as int + 1),
                ));
            }
        }
        i = i + 1;
    }
    proof {
        assert(lv.take(n as int) =~= lv);
    }
    Ok(records)
}

/// A copy of an optional name with the same view.
fn clone_opt_name(name: &Option<String>) -> (r: Option<String>)
    ensures
        match (name, &r) {
            (Some(a), Some(b)) => a@ == b@,
            (None, None) => true,
            _ => false,
        },
{
    match name {
        Some(a) => Some(a.clone()),
        None => None,
    }
}

} // verus!
