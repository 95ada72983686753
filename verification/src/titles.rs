use vstd::prelude::*;
use vstd::string::StrSliceExecFns;
use vstd::string::StringExecFns;

use serde_json::Value;

use crate::util::{lemma_str_pair_absent, lemma_str_pair_found, str_eq, str_pair_map};

verus! {

/// The display-title cache, backed by an external JSON state file and
/// reloaded only when that file's modification time changes.
pub struct TitleResolver {
    path: String,
    last_mtime: Option<i64>,
    titles: Vec<(String, String)>,
}

/// What the state file's text decodes to: the thread-id-to-title entries of
/// its `thread-titles`.`titles` table, in the document's own order, with an
/// absent table reading as no entries; nothing when the text does not have
/// the document's shape. The outcome depends on the text alone.
pub uninterp spec fn titles_of(text: Seq<char>) -> Option<Seq<(Seq<char>, Seq<char>)>>;

/// The mapping a list of entries carries; a later entry for a thread id
/// shadows an earlier one.
pub open spec fn titles_map_of(entries: Seq<(Seq<char>, Seq<char>)>) -> Map<Seq<char>, Seq<char>>
    decreases entries.len(),
{
    if entries.len() == 0 {
        Map::empty()
    } else {
        titles_map_of(entries.drop_last()).insert(entries.last().0, entries.last().1)
    }
}

proof fn lemma_titles_map_of_entries(entries: Seq<(String, String)>)
    ensures
        str_pair_map(entries) == titles_map_of(
            entries.map_values(|p: (String, String)| (p.0@, p.1@)),
        ),
    decreases entries.len(),
{
    if entries.len() > 0 {
        lemma_titles_map_of_entries(entries.drop_last());
        assert(entries.map_values(|p: (String, String)| (p.0@, p.1@)).drop_last()
            =~= entries.drop_last().map_values(|p: (String, String)| (p.0@, p.1@)));
        assert(entries.map_values(|p: (String, String)| (p.0@, p.1@)).last() == (
            entries.last().0@,
            entries.last().1@,
        ));
    }
}

/// A plain view of an optional entry list.
pub open spec fn entries_view(r: Option<Vec<(String, String)>>) -> Option<
    Seq<(Seq<char>, Seq<char>)>,
> {
    match r {
        Some(entries) => Some(entries@.map_values(|p: (String, String)| (p.0@, p.1@))),
        None => None,
    }
}

/// Relies on serde_json's from_str, Value's get, as_str, is_null, is_object
/// and as_object, and Map's iteration: decodes the state document's title
/// table; a missing or null table is empty, any shape mismatch is a failure.
#[verifier::external_body]
fn decode_titles(text: &str) -> (r: Option<Vec<(String, String)>>)
    ensures
        titles_of(text@) == entries_view(r),
{
    let Ok(v) = serde_json::from_str::<Value>(text) else { return None };
    if !v.is_object() { return None }
    let table = match v.get("thread-titles") {
        Some(t) if !t.is_null() => t.as_object()?.get("titles").filter(|x| !x.is_null()),
        _ => None,
    };
    let mut out = Vec::new();
    if let Some(titles) = table {
        for (k, val) in titles.as_object()? { out.push((k.clone(), val.as_str()?.to_string())); }
    }
    Some(out)
}

impl TitleResolver {
    /// The thread-id-to-title mapping this cache serves.
    pub closed spec fn titles_map(&self) -> Map<Seq<char>, Seq<char>> {
        str_pair_map(self.titles@)
    }

    pub closed spec fn last_mtime_view(&self) -> Option<i64> {
        self.last_mtime
    }

    pub closed spec fn path_str(&self) -> String {
        self.path
    }

    /// An empty cache over the state file inside the scope root.
    pub fn new(codex_home: &str) -> (r: TitleResolver)
        ensures
            r.titles_map() == Map::<Seq<char>, Seq<char>>::empty(),
            r.last_mtime_view() is None,
            r.path_str()@ == codex_home@ + "/.codex-global-state.json"@,
    {
        let mut path = codex_home.to_owned();
        path.append("/.codex-global-state.json");
        let r = TitleResolver { path, last_mtime: None, titles: Vec::new() };
        proof {
            assert(r.titles@.take(0) =~= Seq::<(String, String)>::empty());
        }
        r
    }

    /// The cached title for a thread id, straight from the mapping.
    pub fn get_title(&self, thread_id: &str) -> (r: Option<String>)
        ensures
            match r {
                Some(t) => self.titles_map().contains_key(thread_id@) && self.titles_map().index(
                    thread_id@,
                ) == t@,
                None => !self.titles_map().contains_key(thread_id@),
            },
    {
        let n = self.titles.len();
        let mut i: usize = n;
        while i > 0
            invariant
                n == self.titles@.len(),
                0 <= i <= n,
                forall|m: int| i <= m < n ==> (#[trigger] self.titles@[m].0)@ != thread_id@,
            decreases i,
        {
            let e = &self.titles[i - 1];
            if str_eq(e.0.as_str(), thread_id) {
                proof {
                    lemma_str_pair_found(self.titles@, i - 1);
                }
                return Some(e.1.clone());
            }
            i = i - 1;
        }
        proof {
            lemma_str_pair_absent(self.titles@, thread_id@);
        }
        None
    }

    /// The state file is gone: serve nothing rather than stale titles.
    pub fn note_missing(&mut self)
        ensures
            final(self).titles_map() == Map::<Seq<char>, Seq<char>>::empty(),
            final(self).last_mtime_view() is None,
            final(self).path_str()@ == old(self).path_str()@,
    {
        self.last_mtime = None;
        self.titles = Vec::new();
        proof {
            assert(self.titles@.take(0) =~= Seq::<(String, String)>::empty());
        }
    }

    /// Whether a reload can be skipped: the file's modification time is
    /// known and has not moved since the last load.
    pub fn is_unchanged(&self, mtime: Option<i64>) -> (r: bool)
        ensures
            r == (mtime is Some && self.last_mtime_view() is Some && mtime
                == self.last_mtime_view()),
    {
        match (mtime, &self.last_mtime) {
            (Some(a), Some(b)) => a == *b,
            _ => false,
        }
    }

    /// Reloads the mapping from the state file's text unless the
    /// modification time says the cache is current: the mapping becomes
    /// exactly the document's title table. An unparseable file is an error
    /// naming the file, and leaves the cache as it was: serving values
    /// cached before the break is acceptable.
    pub fn refresh_from_text(&mut self, mtime: Option<i64>, text: &str) -> (r: Result<(), String>)
        ensures
            final(self).path_str()@ == old(self).path_str()@,
            ({
                let unchanged = mtime is Some && old(self).last_mtime_view() is Some && mtime
                    == old(self).last_mtime_view();
                if unchanged {
                    &&& r is Ok
                    &&& final(self).titles_map() == old(self).titles_map()
                    &&& final(self).last_mtime_view() == old(self).last_mtime_view()
                } else {
                    match titles_of(text@) {
                        Some(entries) => {
                            &&& r is Ok
                            &&& final(self).titles_map() == titles_map_of(entries)
                            &&& final(self).last_mtime_view() == mtime
                        },
                        None => {
                            &&& (r matches Err(e) && e@ == "parse codex global state JSON: "@
                                + old(self).path_str()@)
                            &&& final(self).titles_map() == old(self).titles_map()
                            &&& final(self).last_mtime_view() == old(self).last_mtime_view()
                        },
                    }
                }
            }),
    {
        if self.is_unchanged(mtime) {
            return Ok(());
        }
        match decode_titles(text) {
            Some(entries) => {
                proof {
                    lemma_titles_map_of_entries(entries@);
                }
                self.titles = entries;
                self.last_mtime = mtime;
                Ok(())
            },
            None => {
                let mut msg = "parse codex global state JSON: ".to_owned();
                msg.append(self.path.as_str());
                proof {
                    assert(msg@ =~= "parse codex global state JSON: "@ + self.path_str()@);
                }
                Err(msg)
            },
        }
    }
}

} // verus!