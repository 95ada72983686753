use vstd::prelude::*;
use vstd::string::StrSliceExecFns;
use vstd::string::StringExecFns;

use crate::util::{
    spec_contains_seq, spec_ends_with, spec_last_segment_start, spec_starts_with, str_contains,
    str_ends_with, str_eq, str_starts_with,
};

verus! {

// ---------------------------------------------------------------------------
// Thread ids in transcript filenames
// ---------------------------------------------------------------------------

pub open spec fn is_lower_hex(c: char) -> bool {
    ('0' <= c && c <= '9') || ('a' <= c && c <= 'f')
}

/// ASCII lowercasing restricted to the hex letters; all other characters are
/// left alone, which accepts and rejects exactly the same candidates.
pub open spec fn spec_lower_hex(c: char) -> char {
    if c == 'A' {
        'a'
    } else if c == 'B' {
        'b'
    } else if c == 'C' {
        'c'
    } else if c == 'D' {
        'd'
    } else if c == 'E' {
        'e'
    } else if c == 'F' {
        'f'
    } else {
        c
    }
}

pub open spec fn uuid_dash_position(i: int) -> bool {
    i == 8 || i == 13 || i == 18 || i == 23
}

/// The canonical 8-4-4-4-12 lowercase hex-dash token shape.
pub open spec fn is_uuid_like(s: Seq<char>) -> bool {
    s.len() == 36 && forall|i: int|
        0 <= i < 36 ==> (if uuid_dash_position(i) {
            s[i] == '-'
        } else {
            is_lower_hex(#[trigger] s[i])
        })
}

/// The thread id embedded in a transcript path: the last 36 characters of the
/// filename once its `.jsonl` suffix is stripped, lowercased, accepted only
/// in the canonical hex-dash shape.
pub open spec fn spec_extract_thread_id(path: Seq<char>) -> Option<Seq<char>> {
    let name = path.skip(spec_last_segment_start(path));
    if !spec_ends_with(name, ".jsonl"@) {
        None
    } else {
        let stem = name.take(name.len() - 6);
        if stem.len() < 36 {
            None
        } else {
            let cand = stem.skip(stem.len() - 36).map_values(|c: char| spec_lower_hex(c));
            if is_uuid_like(cand) {
                Some(cand)
            } else {
                None
            }
        }
    }
}

/// The lowercased spelling of a hex digit or `'-'`; `None` for anything else.
fn hex_or_dash_piece(c: char) -> (r: Option<&'static str>)
    ensures
        match r {
            Some(s) => s@ == seq![spec_lower_hex(c)] && (spec_lower_hex(c) == '-' <==> c == '-')
                && (c != '-' ==> is_lower_hex(spec_lower_hex(c))),
            None => !is_lower_hex(spec_lower_hex(c)) && c != '-',
        },
{
    proof {
        reveal_strlit("0");
        reveal_strlit("1");
        reveal_strlit("2");
        reveal_strlit("3");
        reveal_strlit("4");
        reveal_strlit("5");
        reveal_strlit("6");
        reveal_strlit("7");
        reveal_strlit("8");
        reveal_strlit("9");
        reveal_strlit("a");
        reveal_strlit("b");
        reveal_strlit("c");
        reveal_strlit("d");
        reveal_strlit("e");
        reveal_strlit("f");
        reveal_strlit("-");
    }
    match c {
        '0' => Some("0"),
        '1' => Some("1"),
        '2' => Some("2"),
        '3' => Some("3"),
        '4' => Some("4"),
        '5' => Some("5"),
        '6' => Some("6"),
        '7' => Some("7"),
        '8' => Some("8"),
        '9' => Some("9"),
        'a' | 'A' => Some("a"),
        'b' | 'B' => Some("b"),
        'c' | 'C' => Some("c"),
        'd' | 'D' => Some("d"),
        'e' | 'E' => Some("e"),
        'f' | 'F' => Some("f"),
        '-' => Some("-"),
        _ => None,
    }
}

/// Extracts the session thread id from a transcript file path, or `None`
/// when the filename does not carry one in the canonical shape.
pub fn extract_thread_id_from_rollout_path(path: &str) -> (r: Option<String>)
    ensures
        match r {
            Some(id) => spec_extract_thread_id(path@) == Some(id@),
            None => spec_extract_thread_id(path@) is None,
        },
{
    let n = path.unicode_len();
    let mut seg: usize = n;
    while seg > 0
        invariant
            n == path@.len(),
            0 <= seg <= n,
            forall|j: int| seg <= j < n ==> path@[j] != '/',
        ensures
            0 <= seg <= n,
            forall|j: int| seg <= j < n ==> path@[j] != '/',
            seg > 0 ==> path@[seg - 1] == '/',
        decreases seg,
    {
        if path.get_char(seg - 1) == '/' {
            break;
        }
        seg = seg - 1;
    }
    proof {
        lemma_segment_start(path@, seg as int);
    }
    let name = path.substring_char(seg, n);
    if !str_ends_with(name, ".jsonl") {
        return None;
    }
    let name_len = name.unicode_len();
    proof {
        reveal_strlit(".jsonl");
    }
    let stem_len = name_len - 6;
    if stem_len < 36 {
        return None;
    }
    let ghost cand = name@.take(stem_len as int).skip(stem_len - 36).map_values(
        |c: char| spec_lower_hex(c),
    );
    let mut out: String = String::new();
    let mut k: usize = 0;
    proof {
        assert(out@ =~= cand.take(0));
        assert(name@ =~= path@.skip(seg as int));
    }
    while k < 36
        invariant
            n == path@.len(),
            spec_last_segment_start(path@) == seg as int,
            spec_ends_with(name@, ".jsonl"@),
            name@ == path@.skip(seg as int),
            name_len == name@.len(),
            stem_len == name_len - 6,
            36 <= stem_len,
            cand == name@.take(stem_len as int).skip(stem_len - 36).map_values(
                |c: char| spec_lower_hex(c),
            ),
            cand.len() == 36,
            0 <= k <= 36,
            out@ == cand.take(k as int),
            forall|i: int|
                0 <= i < k ==> (if uuid_dash_position(i) {
                    cand[i] == '-'
                } else {
                    is_lower_hex(#[trigger] cand[i])
                }),
        decreases 36 - k,
    {
        let c = name.get_char(stem_len - 36 + k);
        proof {
            assert(cand[k as int] == spec_lower_hex(name@[stem_len - 36 + k as int]));
        }
        let piece = match hex_or_dash_piece(c) {
            Some(p) => p,
            None => {
                proof {
                    lemma_not_uuid_like(cand, k as int);
                }
                return None;
            },
        };
        let dash = k == 8 || k == 13 || k == 18 || k == 23;
        if dash != (c == '-') {
            proof {
                lemma_not_uuid_like(cand, k as int);
            }
            return None;
        }
        out.append(piece);
        proof {
            assert(out@ =~= cand.take(k as int + 1));
        }
        k = k + 1;
    }
    proof {
        assert(out@ =~= cand);
        assert(is_uuid_like(cand));
    }
    Some(out)
}

proof fn lemma_segment_start(s: Seq<char>, i: int)
    requires
        0 <= i <= s.len(),
        forall|j: int| i <= j < s.len() ==> s[j] != '/',
        i > 0 ==> s[i - 1] == '/',
    ensures
        spec_last_segment_start(s) == i,
    decreases s.len(),
{
    if s.len() == 0 {
    } else if s.last() == '/' {
        assert(i == s.len());
    } else {
        assert(i < s.len());
        lemma_segment_start(s.drop_last(), i);
    }
}

// ---------------------------------------------------------------------------
// Signed decimal parsing (process ids)
// ---------------------------------------------------------------------------

pub open spec fn is_digit(c: char) -> bool {
    '0' <= c && c <= '9'
}

pub open spec fn char_digit(c: char) -> int {
    c as int - '0' as int
}

pub open spec fn all_digits(s: Seq<char>) -> bool {
    forall|i: int| 0 <= i < s.len() ==> is_digit(#[trigger] s[i])
}

/// The value of a non-empty digit string, most significant digit first.
pub open spec fn digits_val(s: Seq<char>) -> int
    decreases s.len(),
{
    if s.len() == 0 {
        0
    } else {
        digits_val(s.drop_last()) * 10 + char_digit(s.last())
    }
}

/// What `i32::from_str` accepts: an optional sign, one or more digits, and a
/// value within the `i32` range.
pub open spec fn spec_parse_i32(s: Seq<char>) -> Option<int> {
    let negative = s.len() > 0 && s[0] == '-';
    let digits = if s.len() > 0 && (s[0] == '-' || s[0] == '+') {
        s.skip(1)
    } else {
        s
    };
    if digits.len() == 0 || !all_digits(digits) {
        None
    } else {
        let v = if negative {
            -digits_val(digits)
        } else {
            digits_val(digits)
        };
        if i32::MIN <= v <= i32::MAX {
            Some(v)
        } else {
            None
        }
    }
}

proof fn lemma_digits_val_nonneg(s: Seq<char>)
    requires
        all_digits(s),
    ensures
        digits_val(s) >= 0,
    decreases s.len(),
{
    if s.len() > 0 {
        assert(forall|i: int| 0 <= i < s.len() - 1 ==> is_digit(#[trigger] s.drop_last()[i]));
        lemma_digits_val_nonneg(s.drop_last());
    }
}

/// Parses a decimal integer exactly as `i32::from_str` does.
pub fn parse_i32(s: &str) -> (r: Option<i32>)
    ensures
        match r {
            Some(v) => spec_parse_i32(s@) == Some(v as int),
            None => spec_parse_i32(s@) is None,
        },
{
    let n = s.unicode_len();
    if n == 0 {
        return None;
    }
    let c0 = s.get_char(0);
    let negative = c0 == '-';
    let start: usize = if c0 == '-' || c0 == '+' {
        1
    } else {
        0
    };
    if n == start {
        return None;
    }
    let ghost digits = if s@[0] == '-' || s@[0] == '+' {
        s@.skip(1)
    } else {
        s@
    };
    let mut acc: u64 = 0;
    let mut too_big = false;
    let mut i: usize = start;
    proof {
        assert(digits.take(0) =~= Seq::<char>::empty());
    }
    while i < n
        invariant
            n == s@.len(),
            start <= i <= n,
            start == 0 || start == 1,
            start == 1 ==> (s@[0] == '-' || s@[0] == '+'),
            start == 0 ==> !(s@[0] == '-' || s@[0] == '+'),
            digits == if s@[0] == '-' || s@[0] == '+' {
                s@.skip(1)
            } else {
                s@
            },
            digits.len() == n - start,
            forall|j: int| 0 <= j < i - start ==> is_digit(#[trigger] digits[j]),
            !too_big ==> acc == digits_val(digits.take(i - start)) && acc <= 2147483648u64,
            too_big ==> digits_val(digits.take(i - start)) > 2147483648,
        decreases n - i,
    {
        let c = s.get_char(i);
        if !(c >= '0' && c <= '9') {
            assert(digits[i - start] == s@[i as int]);
            assert(!all_digits(digits));
            return None;
        }
        proof {
            assert(digits[i - start] == s@[i as int]);
            assert(digits.take(i - start + 1).drop_last() =~= digits.take(i - start));
            assert(digits.take(i - start + 1).last() == digits[i - start]);
        }
        let d = (c as u32) - 48;
        if !too_big {
            acc = acc * 10 + (d as u64);
            if acc > 2147483648 {
                too_big = true;
            }
        }
        i = i + 1;
    }
    proof {
        assert(digits.take(n - start) =~= digits);
        assert(all_digits(digits));
    }
    if too_big {
        return None;
    }
    if negative {
        if acc > 2147483648 {
            return None;
        }
        let v: i64 = -(acc as i64);
        Some(v as i32)
    } else {
        if acc > 2147483647 {
            return None;
        }
        Some(acc as i32)
    }
}

proof fn lemma_not_uuid_like(cand: Seq<char>, k: int)
    requires
        cand.len() == 36,
        0 <= k < 36,
        if uuid_dash_position(k) {
            cand[k] != '-'
        } else {
            !is_lower_hex(cand[k])
        },
    ensures
        !is_uuid_like(cand),
{
}

// ---------------------------------------------------------------------------
// Parsing the process-lister's field-tagged output
// ---------------------------------------------------------------------------

/// One process that holds transcript files open.
#[derive(Clone, Debug)]
pub struct CodexLsofProcess {
    pub pid: i32,
    pub exe: Option<String>,
    pub cwd: Option<String>,
    pub tty: Option<String>,
    pub rollout_paths: Vec<String>,
}

/// Mathematical model of one discovered process.
#[verifier::ext_equal]
pub ghost struct LsofProcV {
    pub pid: int,
    pub exe: Option<Seq<char>>,
    pub cwd: Option<Seq<char>>,
    pub tty: Option<Seq<char>>,
    pub rollout_paths: Seq<Seq<char>>,
}

impl View for CodexLsofProcess {
    type V = LsofProcV;

    open spec fn view(&self) -> LsofProcV {
        LsofProcV {
            pid: self.pid as int,
            exe: match self.exe {
                Some(ref e) => Some(e@),
                None => None,
            },
            cwd: match self.cwd {
                Some(ref c) => Some(c@),
                None => None,
            },
            tty: match self.tty {
                Some(ref t) => Some(t@),
                None => None,
            },
            rollout_paths: self.rollout_paths@.map_values(|p: String| p@),
        }
    }
}

/// Parser state: finished records, the record being filled, and the open
/// file-descriptor context.
#[verifier::ext_equal]
pub ghost struct LsofAccV {
    pub done: Seq<LsofProcV>,
    pub cur: Option<LsofProcV>,
    pub fd: Option<Seq<char>>,
}

/// Component-wise path-prefix test, as `Path::starts_with`.
pub open spec fn spec_path_starts_with(p: Seq<char>, root: Seq<char>) -> bool {
    spec_starts_with(p, root) && (root.len() == 0 || p.len() == root.len() || root.last() == '/'
        || p[root.len() as int] == '/')
}

pub fn path_starts_with(p: &str, root: &str) -> (r: bool)
    ensures
        r == spec_path_starts_with(p@, root@),
{
    if !str_starts_with(p, root) {
        return false;
    }
    let pn = p.unicode_len();
    let rn = root.unicode_len();
    if rn == 0 || pn == rn {
        return true;
    }
    if root.get_char(rn - 1) == '/' {
        return true;
    }
    p.get_char(rn) == '/'
}

/// Whether a path names a transcript under the scope root.
pub open spec fn spec_is_rollout_path(nm: Seq<char>, root: Seq<char>) -> bool {
    spec_contains_seq(nm, "rollout-"@) && spec_ends_with(nm, ".jsonl"@) && spec_path_starts_with(
        nm,
        root,
    )
}

/// How one output line advances the parser: a `p` line closes the previous
/// record and opens one for the parsed pid, an `f` line switches the
/// descriptor context, an `n` line attaches a path to that context.
pub open spec fn lsof_line_step(acc: LsofAccV, line: Seq<char>, root: Seq<char>) -> LsofAccV {
    if line.len() > 0 && line[0] == 'p' {
        let done1 = match acc.cur {
            Some(p) => acc.done.push(p),
            None => acc.done,
        };
        match spec_parse_i32(line.skip(1)) {
            Some(pid) => LsofAccV {
                done: done1,
                cur: Some(
                    LsofProcV {
                        pid: pid,
                        exe: None,
                        cwd: None,
                        tty: None,
                        rollout_paths: Seq::empty(),
                    },
                ),
                fd: None,
            },
            None => LsofAccV { done: done1, cur: None, fd: None },
        }
    } else if line.len() > 0 && line[0] == 'f' {
        LsofAccV { fd: Some(line.skip(1)), ..acc }
    } else if line.len() > 0 && line[0] == 'n' {
        match acc.cur {
            None => acc,
            Some(p) => {
                let nm = line.skip(1);
                let p1 = if acc.fd == Some("cwd"@) {
                    if p.cwd is None {
                        LsofProcV { cwd: Some(nm), ..p }
                    } else {
                        p
                    }
                } else if acc.fd == Some("txt"@) {
                    if p.exe is None {
                        LsofProcV { exe: Some(nm), ..p }
                    } else {
                        p
                    }
                } else if acc.fd == Some("0"@) || acc.fd == Some("1"@) || acc.fd == Some("2"@) {
                    if p.tty is None && spec_starts_with(nm, "/dev/tty"@) {
                        LsofProcV { tty: Some(nm.skip(5)), ..p }
                    } else {
                        p
                    }
                } else {
                    p
                };
                let p2 = if spec_is_rollout_path(nm, root) {
                    LsofProcV { rollout_paths: p1.rollout_paths.push(nm), ..p1 }
                } else {
                    p1
                };
                LsofAccV { cur: Some(p2), ..acc }
            },
        }
    } else {
        acc
    }
}

pub open spec fn lsof_fold(lines: Seq<Seq<char>>, root: Seq<char>) -> LsofAccV
    decreases lines.len(),
{
    if lines.len() == 0 {
        LsofAccV { done: Seq::empty(), cur: None, fd: None }
    } else {
        lsof_line_step(lsof_fold(lines.drop_last(), root), lines.last(), root)
    }
}

/// A record is kept when it holds a transcript and its executable does not
/// point into the excluded desktop application.
pub open spec fn spec_keep_process(p: LsofProcV) -> bool {
    p.rollout_paths.len() > 0 && match p.exe {
        Some(e) => !spec_contains_seq(e, "/Applications/Codex.app/"@),
        None => true,
    }
}

pub open spec fn spec_filter_sessions(ps: Seq<LsofProcV>) -> Seq<LsofProcV>
    decreases ps.len(),
{
    if ps.len() == 0 {
        Seq::empty()
    } else {
        let rest = spec_filter_sessions(ps.drop_last());
        if spec_keep_process(ps.last()) {
            rest.push(ps.last())
        } else {
            rest
        }
    }
}

/// Everything `parse_lsof_processes` returns for a given output text.
pub open spec fn spec_lsof_processes(stdout: Seq<char>, root: Seq<char>) -> Seq<LsofProcV> {
    let acc = lsof_fold(crate::util::spec_split_lines(stdout), root);
    let all = match acc.cur {
        Some(p) => acc.done.push(p),
        None => acc.done,
    };
    spec_filter_sessions(all)
}

/// Parses the process-lister's field-tagged output into the processes that
/// hold transcript files open under `codex_home`, excluding the desktop
/// application's sessions.
pub fn parse_lsof_processes(stdout: &str, codex_home: &str) -> (r: Vec<CodexLsofProcess>)
    ensures
        r@.map_values(|p: CodexLsofProcess| p@) == spec_lsof_processes(stdout@, codex_home@),
{
    let lines = crate::util::split_lines(stdout);
    let ghost lines_v = lines@.map_values(|t: String| t@);
    let mut done: Vec<CodexLsofProcess> = Vec::new();
    let mut cur: Option<CodexLsofProcess> = None;
    let mut fd: Option<String> = None;
    let mut i: usize = 0;
    proof {
        assert(lines_v.take(0) =~= Seq::<Seq<char>>::empty());
        assert(acc_view(&done, &cur, &fd) =~~= lsof_fold(lines_v.take(0), codex_home@));
    }
    while i < lines.len()
        invariant
            lines_v == lines@.map_values(|t: String| t@),
            0 <= i <= lines.len(),
            acc_view(&done, &cur, &fd) == lsof_fold(lines_v.take(i as int), codex_home@),
        decreases lines.len() - i,
    {
        proof {
            assert(lines_v.take(i + 1).drop_last() =~= lines_v.take(i as int));
            assert(lines_v.take(i + 1).last() == lines_v[i as int]);
        }
        let ghost pre = acc_view(&done, &cur, &fd);
        let ghost goal = lsof_line_step(pre, lines_v[i as int], codex_home@);
        let line: &str = lines[i].as_str();
        let ln = line.unicode_len();
        if ln > 0 && line.get_char(0) == 'p' {
            if let Some(p) = cur.take() {
                done.push(p);
            }
            fd = None;
            let rest = line.substring_char(1, ln);
            match parse_i32(rest) {
                Some(pid) => {
                    cur = Some(
                        CodexLsofProcess {
                            pid,
                            exe: None,
                            cwd: None,
                            tty: None,
                            rollout_paths: Vec::new(),
                        },
                    );
                },
                None => {
                    cur = None;
                },
            }
            proof {
                assert(acc_view(&done, &cur, &fd) =~~= goal);
            }
        } else if ln > 0 && line.get_char(0) == 'f' {
            fd = Some(line.substring_char(1, ln).to_owned());
            proof {
                assert(acc_view(&done, &cur, &fd) =~~= goal);
            }
        } else if ln > 0 && line.get_char(0) == 'n' {
            let nm = line.substring_char(1, ln);
            if let Some(p) = &mut cur {
                match &fd {
                    Some(f) => {
                        if str_eq(f.as_str(), "cwd") {
                            if p.cwd.is_none() {
                                p.cwd = Some(nm.to_owned());
                            }
                        } else if str_eq(f.as_str(), "txt") {
                            if p.exe.is_none() {
                                p.exe = Some(nm.to_owned());
                            }
                        } else if str_eq(f.as_str(), "0") || str_eq(f.as_str(), "1") || str_eq(
                            f.as_str(),
                            "2",
                        ) {
                            if p.tty.is_none() && str_starts_with(nm, "/dev/tty") {
                                let nn = nm.unicode_len();
                                proof {
                                    reveal_strlit("/dev/tty");
                                }
                                p.tty = Some(nm.substring_char(5, nn).to_owned());
                            }
                        }
                    },
                    None => {},
                }
                if str_contains(nm, "rollout-") && str_ends_with(nm, ".jsonl")
                    && path_starts_with(nm, codex_home) {
                    p.rollout_paths.push(nm.to_owned());
                }
            }
            proof {
                assert(acc_view(&done, &cur, &fd) =~~= goal);
            }
        } else {
            proof {
                assert(acc_view(&done, &cur, &fd) =~~= goal);
            }
        }
        i = i + 1;
    }
    proof {
        assert(lines_v.take(lines@.len() as int) =~= lines_v);
    }
    let ghost accg = acc_view(&done, &cur, &fd);
    proof {
        assert(accg == lsof_fold(lines_v, codex_home@));
    }
    if let Some(p) = cur.take() {
        done.push(p);
    }
    let ghost all = done@.map_values(|p: CodexLsofProcess| p@);
    proof {
        assert(all =~= match accg.cur {
            Some(q) => accg.done.push(q),
            None => accg.done,
        });
        assert(spec_lsof_processes(stdout@, codex_home@) == spec_filter_sessions(all));
    }
    let mut out: Vec<CodexLsofProcess> = Vec::new();
    let mut j: usize = 0;
    proof {
        assert(all.take(0) =~= Seq::<LsofProcV>::empty());
        assert(out@.map_values(|p: CodexLsofProcess| p@) =~= spec_filter_sessions(all.take(0)));
    }
    while j < done.len()
        invariant
            all == done@.map_values(|p: CodexLsofProcess| p@),
            0 <= j <= done.len(),
            out@.map_values(|p: CodexLsofProcess| p@) == spec_filter_sessions(all.take(j as int)),
        decreases done.len() - j,
    {
        proof {
            assert(all.take(j + 1).drop_last() =~= all.take(j as int));
            assert(all.take(j + 1).last() == all[j as int]);
        }
        let p = &done[j];
        let keep = if p.rollout_paths.len() == 0 {
            false
        } else {
            match &p.exe {
                Some(e) => !str_contains(e.as_str(), "/Applications/Codex.app/"),
                None => true,
            }
        };
        if keep {
            out.push(p.clone_process());
        }
        proof {
            assert(out@.map_values(|q: CodexLsofProcess| q@) =~= spec_filter_sessions(
                all.take(j + 1),
            ));
        }
        j = j + 1;
    }
    proof {
        assert(all.take(done@.len() as int) =~= all);
    }
    out
}


/// Interprets one run of the process lister: a successful run's output is
/// parsed; the "no matches" exit code means zero sessions, not a broken
/// collector; any other failure is an error for the local host.
pub fn lsof_processes_outcome(
    success: bool,
    code: Option<i32>,
    stdout: &str,
    codex_home: &str,
) -> (r: Result<Vec<CodexLsofProcess>, String>)
    ensures
        success ==> (r matches Ok(ps) && ps@.map_values(|p: CodexLsofProcess| p@)
            == spec_lsof_processes(stdout@, codex_home@)),
        !success && code == Some(1i32) ==> (r matches Ok(ps) && ps@.len() == 0),
        !success && code != Some(1i32) ==> (r matches Err(e) && e@ == (match code {
            Some(c) => if c >= 0 {
                "lsof failed with status "@ + crate::util::spec_dec(c as int)
            } else {
                "lsof failed"@
            },
            None => "lsof failed"@,
        })),
{
    if success {
        return Ok(parse_lsof_processes(stdout, codex_home));
    }
    match code {
        Some(c) => {
            if c == 1 {
                let empty: Vec<CodexLsofProcess> = Vec::new();
                return Ok(empty);
            }
            if c >= 0 {
                let mut msg = "lsof failed with status ".to_owned();
                let num = crate::util::u64_to_dec(c as u64);
                msg.append(num.as_str());
                proof {
                    assert(msg@ =~= "lsof failed with status "@ + crate::util::spec_dec(c as int));
                }
                Err(msg)
            } else {
                Err("lsof failed".to_owned())
            }
        },
        None => Err("lsof failed".to_owned()),
    }
}

impl CodexLsofProcess {
    /// A copy with the same fields.
    pub fn clone_process(&self) -> (r: CodexLsofProcess)
        ensures
            r@ == self@,
    {
        let paths = self.rollout_paths.clone();
        proof {
            assert forall|j: int| 0 <= j < paths@.len() implies #[trigger] paths@[j]@
                == self.rollout_paths@[j]@ by {
                assert(vstd::pervasive::cloned::<String>(self.rollout_paths[j], paths[j]));
            }
            assert(paths@.map_values(|p: String| p@) =~= self.rollout_paths@.map_values(
                |p: String| p@,
            ));
        }
        let r = CodexLsofProcess {
            pid: self.pid,
            exe: crate::util::clone_opt_string(&self.exe),
            cwd: crate::util::clone_opt_string(&self.cwd),
            tty: crate::util::clone_opt_string(&self.tty),
            rollout_paths: paths,
        };
        proof {
            assert(r@ =~~= self@);
        }
        r
    }
}

/// The parser state as its model.
pub open spec fn acc_view(
    done: &Vec<CodexLsofProcess>,
    cur: &Option<CodexLsofProcess>,
    fd: &Option<String>,
) -> LsofAccV {
    LsofAccV {
        done: done@.map_values(|p: CodexLsofProcess| p@),
        cur: match cur {
            Some(p) => Some(p@),
            None => None,
        },
        fd: match fd {
            Some(f) => Some(f@),
            None => None,
        },
    }
}

} // verus!
