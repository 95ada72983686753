use vstd::prelude::*;
use vstd::string::StrSliceExecFns;

use crate::util::{spec_trim, str_eq, trim_str};

verus! {

/// The TTL cache for "working directory to version-control root" probes.
/// Failed probes and "not a repository" outcomes are cached too, so repeated
/// misses do not shell out again within the window.
pub struct GitCache {
    ttl_s: u64,
    entries: Vec<(String, (i64, Option<String>))>,
}

pub open spec fn git_entries_map(entries: Seq<(String, (i64, Option<String>))>) -> Map<
    Seq<char>,
    (int, Option<Seq<char>>),
>
    decreases entries.len(),
{
    if entries.len() == 0 {
        Map::empty()
    } else {
        git_entries_map(entries.drop_last()).insert(
            entries.last().0@,
            (
                entries.last().1.0 as int,
                match entries.last().1.1 {
                    Some(ref r) => Some(r@),
                    None => None,
                },
            ),
        )
    }
}

proof fn lemma_git_entries_found(entries: Seq<(String, (i64, Option<String>))>, j: int)
    requires
        0 <= j < entries.len(),
        forall|m: int| j < m < entries.len() ==> (#[trigger] entries[m].0)@ != entries[j].0@,
    ensures
        git_entries_map(entries).contains_key(entries[j].0@),
        git_entries_map(entries)[entries[j].0@] == (
            entries[j].1.0 as int,
            match entries[j].1.1 {
                Some(ref r) => Some(r@),
                None => None,
            },
        ),
    decreases entries.len(),
{
    if j < entries.len() - 1 {
        assert(forall|m: int|
            0 <= m < entries.len() - 1 ==> entries.drop_last()[m] == #[trigger] entries[m]);
        lemma_git_entries_found(entries.drop_last(), j);
    }
}

proof fn lemma_git_entries_absent(entries: Seq<(String, (i64, Option<String>))>, kv: Seq<char>)
    requires
        forall|m: int| 0 <= m < entries.len() ==> (#[trigger] entries[m].0)@ != kv,
    ensures
        !git_entries_map(entries).contains_key(kv),
    decreases entries.len(),
{
    if entries.len() > 0 {
        assert(forall|m: int|
            0 <= m < entries.len() - 1 ==> entries.drop_last()[m] == #[trigger] entries[m]);
        lemma_git_entries_absent(entries.drop_last(), kv);
    }
}

/// A cache entry answers for a query at `now` while it is no older than the
/// TTL; a never-served future timestamp counts as fresh, matching a
/// monotonic clock's saturating difference.
pub open spec fn entry_fresh(stored_at: int, now: int, ttl_s: int) -> bool {
    now - stored_at <= ttl_s
}

impl GitCache {
    pub closed spec fn cache_map(&self) -> Map<Seq<char>, (int, Option<Seq<char>>)> {
        git_entries_map(self.entries@)
    }

    pub closed spec fn ttl_view(&self) -> int {
        self.ttl_s as int
    }

    /// An empty cache whose entries answer for `ttl_s` seconds.
    pub fn new(ttl_s: u64) -> (r: GitCache)
        ensures
            r.cache_map() == Map::<Seq<char>, (int, Option<Seq<char>>)>::empty(),
            r.ttl_view() == ttl_s as int,
    {
        let r = GitCache { ttl_s, entries: Vec::new() };
        proof {
            assert(r.entries@.take(0) =~= Seq::<(String, (i64, Option<String>))>::empty());
        }
        r
    }

    /// The fresh cached outcome for a directory, when one is on file.
    fn lookup_fresh(&self, cwd: &str, now_s: i64) -> (r: Option<Option<String>>)
        ensures
            match r {
                Some(root) => self.cache_map().contains_key(cwd@) && entry_fresh(
                    self.cache_map().index(cwd@).0,
                    now_s as int,
                    self.ttl_view(),
                ) && (match root {
                    Some(ref p) => self.cache_map().index(cwd@).1 == Some(p@),
                    None => self.cache_map().index(cwd@).1 is None,
                }),
                None => !self.cache_map().contains_key(cwd@) || !entry_fresh(
                    self.cache_map().index(cwd@).0,
                    now_s as int,
                    self.ttl_view(),
                ),
            },
    {
        let n = self.entries.len();
        let mut i: usize = n;
        while i > 0
            invariant
                n == self.entries@.len(),
                0 <= i <= n,
                forall|m: int| i <= m < n ==> (#[trigger] self.entries@[m].0)@ != cwd@,
            decreases i,
        {
            let e = &self.entries[i - 1];
            if str_eq(e.0.as_str(), cwd) {
                proof {
                    lemma_git_entries_found(self.entries@, i - 1);
                }
                let (ts, cached) = &e.1;
                let fresh = if now_s >= *ts {
                    let wide: i128 = now_s as i128 - *ts as i128;
                    wide <= self.ttl_s as i128
                } else {
                    true
                };
                if fresh {
                    return Some(crate::util::clone_opt_string(cached));
                } else {
                    return None;
                }
            }
            i = i - 1;
        }
        proof {
            lemma_git_entries_absent(self.entries@, cwd@);
        }
        None
    }

    /// Remembers a probe outcome for a directory at `now`.
    fn store(&mut self, cwd: &str, now_s: i64, root: Option<String>)
        ensures
            final(self).cache_map() == old(self).cache_map().insert(
                cwd@,
                (
                    now_s as int,
                    match root {
                        Some(ref p) => Some(p@),
                        None => None,
                    },
                ),
            ),
            final(self).ttl_view() == old(self).ttl_view(),
    {
        let ghost pre = self.entries@;
        self.entries.push((cwd.to_owned(), (now_s, root)));
        proof {
            assert(self.entries@.drop_last() =~= pre);
        }
    }

    /// The repository root for a directory: a fresh cached answer when one
    /// exists, else the given probe's outcome, which is cached — including
    /// failures — with the current time. The second component is the
    /// diagnostic, never an abort.
    pub fn repo_root(&mut self, cwd: &str, now_s: i64, probe: Option<&Result<String, String>>) -> (r:
        (Option<String>, Option<String>))
        ensures
            final(self).ttl_view() == old(self).ttl_view(),
            ({
                let cached = old(self).cache_map().contains_key(cwd@) && entry_fresh(
                    old(self).cache_map().index(cwd@).0,
                    now_s as int,
                    old(self).ttl_view(),
                );
                if cached {
                    &&& final(self).cache_map() == old(self).cache_map()
                    &&& (match r.0 {
                        Some(ref p) => old(self).cache_map().index(cwd@).1 == Some(p@),
                        None => old(self).cache_map().index(cwd@).1 is None,
                    })
                    &&& r.1 is None
                } else {
                    match probe {
                        Some(out) => match out {
                            Ok(stdout) => {
                                if spec_trim(stdout@).len() == 0 {
                                    &&& final(self).cache_map() == old(self).cache_map().insert(
                                        cwd@,
                                        (now_s as int, None),
                                    )
                                    &&& r.0 is None
                                    &&& (r.1 matches Some(e) && e@
                                        == "git rev-parse returned empty"@)
                                } else {
                                    &&& final(self).cache_map() == old(self).cache_map().insert(
                                        cwd@,
                                        (now_s as int, Some(spec_trim(stdout@))),
                                    )
                                    &&& (r.0 matches Some(p) && p@ == spec_trim(stdout@))
                                    &&& r.1 is None
                                }
                            },
                            Err(msg) => {
                                &&& final(self).cache_map() == old(self).cache_map().insert(
                                    cwd@,
                                    (now_s as int, None),
                                )
                                &&& r.0 is None
                                &&& (r.1 matches Some(e) && e@ == msg@)
                            },
                        },
                        None => {
                            &&& final(self).cache_map() == old(self).cache_map().insert(
                                cwd@,
                                (now_s as int, None),
                            )
                            &&& r.0 is None
                            &&& (r.1 matches Some(e) && e@ == "git probe error"@)
                        },
                    }
                }
            }),
    {
        match self.lookup_fresh(cwd, now_s) {
            Some(cached) => (cached, None),
            None => {
                match probe {
                    Some(out) => match out {
                        Ok(stdout) => {
                            let root = trim_str(stdout.as_str());
                            if root.unicode_len() == 0 {
                                self.store(cwd, now_s, None);
                                (None, Some("git rev-parse returned empty".to_owned()))
                            } else {
                                let kept = root.clone();
                                self.store(cwd, now_s, Some(root));
                                (Some(kept), None)
                            }
                        },
                        Err(msg) => {
                            self.store(cwd, now_s, None);
                            (None, Some(msg.clone()))
                        },
                    },
                    None => {
                        self.store(cwd, now_s, None);
                        (None, Some("git probe error".to_owned()))
                    },
                }
            },
        }
    }

    /// Whether serving a query for `cwd` at `now` would need a fresh probe.
    pub fn probe_needed(&self, cwd: &str, now_s: i64) -> (r: bool)
        ensures
            r == !(self.cache_map().contains_key(cwd@) && entry_fresh(
                self.cache_map().index(cwd@).0,
                now_s as int,
                self.ttl_view(),
            )),
    {
        match self.lookup_fresh(cwd, now_s) {
            Some(_) => false,
            None => true,
        }
    }
}

} // verus!
