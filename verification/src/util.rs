use vstd::prelude::*;
use vstd::string::StrSliceExecFns;

verus! {

// ---------------------------------------------------------------------------
// Characters
// ---------------------------------------------------------------------------

/// The Unicode White_Space characters, the set `str::trim` strips.
pub open spec fn spec_is_space(c: char) -> bool {
    c == ' ' || c == '\t' || c == '\n' || c == '\r' || c == '\u{b}' || c == '\u{c}'
        || c == '\u{85}' || c == '\u{a0}' || c == '\u{1680}'
        || ('\u{2000}' <= c && c <= '\u{200a}')
        || c == '\u{2028}' || c == '\u{2029}' || c == '\u{202f}' || c == '\u{205f}'
        || c == '\u{3000}'
}

pub fn is_space(c: char) -> (r: bool)
    ensures
        r == spec_is_space(c),
{
    c == ' ' || c == '\t' || c == '\n' || c == '\r' || c == '\u{b}' || c == '\u{c}'
        || c == '\u{85}' || c == '\u{a0}' || c == '\u{1680}'
        || ('\u{2000}' <= c && c <= '\u{200a}')
        || c == '\u{2028}' || c == '\u{2029}' || c == '\u{202f}' || c == '\u{205f}'
        || c == '\u{3000}'
}

// ---------------------------------------------------------------------------
// String equality and lexicographic order
// ---------------------------------------------------------------------------

/// Character-by-character equality of two string slices.
pub fn str_eq(a: &str, b: &str) -> (r: bool)
    ensures
        r == (a@ == b@),
{
    let n = a.unicode_len();
    if n != b.unicode_len() {
        return false;
    }
    let mut i: usize = 0;
    while i < n
        invariant
            n == a@.len(),
            n == b@.len(),
            0 <= i <= n,
            forall|j: int| 0 <= j < i ==> a@[j] == b@[j],
        decreases n - i,
    {
        if a.get_char(i) != b.get_char(i) {
            return false;
        }
        i = i + 1;
    }
    proof {
        assert(a@ =~= b@);
    }
    true
}

/// Lexicographic order on character sequences; agrees with the byte order of
/// the UTF-8 encodings, since UTF-8 preserves code-point order.
pub open spec fn lex_le(a: Seq<char>, b: Seq<char>) -> bool
    decreases a.len(),
{
    if a.len() == 0 {
        true
    } else if b.len() == 0 {
        false
    } else if (a[0] as int) < (b[0] as int) {
        true
    } else if (a[0] as int) > (b[0] as int) {
        false
    } else {
        lex_le(a.drop_first(), b.drop_first())
    }
}

pub proof fn lemma_lex_le_total(a: Seq<char>, b: Seq<char>)
    ensures
        lex_le(a, b) || lex_le(b, a),
    decreases a.len(),
{
    if a.len() == 0 || b.len() == 0 {
    } else if (a[0] as int) == (b[0] as int) {
        lemma_lex_le_total(a.drop_first(), b.drop_first());
    }
}

pub proof fn lemma_lex_le_antisymmetric(a: Seq<char>, b: Seq<char>)
    requires
        lex_le(a, b),
        lex_le(b, a),
    ensures
        a == b,
    decreases a.len(),
{
    if a.len() == 0 {
        assert(b.len() == 0);
        assert(a =~= b);
    } else {
        assert(b.len() > 0);
        lemma_lex_le_antisymmetric(a.drop_first(), b.drop_first());
        assert(a =~= seq![a[0]] + a.drop_first());
        assert(b =~= seq![b[0]] + b.drop_first());
        assert(a =~= b);
    }
}

pub proof fn lemma_lex_le_transitive(a: Seq<char>, b: Seq<char>, c: Seq<char>)
    requires
        lex_le(a, b),
        lex_le(b, c),
    ensures
        lex_le(a, c),
    decreases a.len(),
{
    if a.len() == 0 || b.len() == 0 || c.len() == 0 {
    } else if (a[0] as int) == (b[0] as int) && (b[0] as int) == (c[0] as int) {
        lemma_lex_le_transitive(a.drop_first(), b.drop_first(), c.drop_first());
    }
}

/// Executable decision procedure for `lex_le`.
pub fn str_le(a: &str, b: &str) -> (r: bool)
    ensures
        r == lex_le(a@, b@),
{
    let an = a.unicode_len();
    let bn = b.unicode_len();
    let mut i: usize = 0;
    proof {
        assert(a@.skip(0) =~= a@);
        assert(b@.skip(0) =~= b@);
    }
    loop
        invariant
            an == a@.len(),
            bn == b@.len(),
            0 <= i <= an,
            0 <= i <= bn,
            forall|j: int| 0 <= j < i ==> a@[j] == b@[j],
            lex_le(a@, b@) == lex_le(a@.skip(i as int), b@.skip(i as int)),
        decreases an - i,
    {
        if i >= an {
            assert(a@.skip(i as int).len() == 0);
            return true;
        }
        if i >= bn {
            assert(b@.skip(i as int).len() == 0);
            assert(a@.skip(i as int).len() > 0);
            return false;
        }
        let ca = a.get_char(i);
        let cb = b.get_char(i);
        proof {
            assert(a@.skip(i as int)[0] == a@[i as int]);
            assert(b@.skip(i as int)[0] == b@[i as int]);
            assert(a@.skip(i as int).drop_first() =~= a@.skip(i as int + 1));
            assert(b@.skip(i as int).drop_first() =~= b@.skip(i as int + 1));
        }
        if (ca as u32) < (cb as u32) {
            return true;
        }
        if (ca as u32) > (cb as u32) {
            return false;
        }
        i = i + 1;
    }
}

// ---------------------------------------------------------------------------
// Trimming
// ---------------------------------------------------------------------------

pub open spec fn spec_trim_start(s: Seq<char>) -> Seq<char>
    decreases s.len(),
{
    if s.len() > 0 && spec_is_space(s[0]) {
        spec_trim_start(s.drop_first())
    } else {
        s
    }
}

pub open spec fn spec_trim_end(s: Seq<char>) -> Seq<char>
    decreases s.len(),
{
    if s.len() > 0 && spec_is_space(s.last()) {
        spec_trim_end(s.drop_last())
    } else {
        s
    }
}

/// What `str::trim` leaves: the text with leading and trailing white space
/// removed.
pub open spec fn spec_trim(s: Seq<char>) -> Seq<char> {
    spec_trim_end(spec_trim_start(s))
}

proof fn lemma_trim_start_skip(s: Seq<char>, i: int)
    requires
        0 <= i <= s.len(),
        forall|j: int| 0 <= j < i ==> spec_is_space(s[j]),
    ensures
        spec_trim_start(s) == spec_trim_start(s.skip(i)),
    decreases i,
{
    if i > 0 {
        assert(spec_is_space(s[0]));
        assert(s.drop_first() =~= s.skip(1));
        assert(forall|j: int| 0 <= j < i - 1 ==> spec_is_space(#[trigger] s.skip(1)[j]));
        lemma_trim_start_skip(s.skip(1), i - 1);
        assert(s.skip(1).skip(i - 1) =~= s.skip(i));
    } else {
        assert(s.skip(0) =~= s);
    }
}

proof fn lemma_trim_start_all_of(s: Seq<char>)
    requires
        s.len() == 0 || !spec_is_space(s[0]),
    ensures
        spec_trim_start(s) == s,
{
}

proof fn lemma_trim_end_take(s: Seq<char>, i: int)
    requires
        0 <= i <= s.len(),
        forall|j: int| i <= j < s.len() ==> spec_is_space(s[j]),
    ensures
        spec_trim_end(s) == spec_trim_end(s.take(i)),
    decreases s.len() - i,
{
    if i < s.len() {
        assert(spec_is_space(s.last()));
        assert(s.drop_last() =~= s.take(s.len() - 1));
        assert(forall|j: int|
            i <= j < s.len() - 1 ==> spec_is_space(#[trigger] s.take(s.len() - 1)[j]));
        lemma_trim_end_take(s.take(s.len() - 1), i);
        assert(s.take(s.len() - 1).take(i) =~= s.take(i));
    } else {
        assert(s.take(i) =~= s);
    }
}

/// The text with leading and trailing white space removed, as `str::trim`.
pub fn trim_str(s: &str) -> (r: String)
    ensures
        r@ == spec_trim(s@),
{
    let n = s.unicode_len();
    let mut start: usize = 0;
    while start < n && is_space(s.get_char(start))
        invariant
            n == s@.len(),
            0 <= start <= n,
            forall|j: int| 0 <= j < start ==> spec_is_space(s@[j]),
        decreases n - start,
    {
        start = start + 1;
    }
    proof {
        lemma_trim_start_skip(s@, start as int);
        lemma_trim_start_all_of(s@.skip(start as int));
        assert(spec_trim_start(s@) == s@.skip(start as int));
    }
    let mut end: usize = n;
    while end > start && is_space(s.get_char(end - 1))
        invariant
            n == s@.len(),
            0 <= start <= end <= n,
            forall|j: int| 0 <= j < start ==> spec_is_space(s@[j]),
            forall|j: int| end <= j < n ==> spec_is_space(s@[j]),
        decreases end,
    {
        end = end - 1;
    }
    let out = s.substring_char(start, end);
    proof {
        let t = s@.skip(start as int);
        lemma_trim_end_take(t, end - start);
        assert(t.take(end - start) =~= s@.subrange(start as int, end as int));
        let u = s@.subrange(start as int, end as int);
        if u.len() > 0 {
            assert(u.last() == s@[end - 1]);
            assert(!spec_is_space(u.last()));
        }
        assert(spec_trim_end(u) == u);
    }
    out.to_owned()
}

// ---------------------------------------------------------------------------
// Splitting into lines
// ---------------------------------------------------------------------------

/// The segments of `s` between `sep` separators, in order; always at least
/// one segment, and a trailing separator yields a final empty segment.
pub open spec fn spec_split_char(s: Seq<char>, sep: char) -> Seq<Seq<char>>
    decreases s.len(),
{
    if s.len() == 0 {
        seq![Seq::<char>::empty()]
    } else {
        let rest = spec_split_char(s.drop_last(), sep);
        if s.last() == sep {
            rest.push(Seq::<char>::empty())
        } else {
            rest.update(rest.len() - 1, rest.last().push(s.last()))
        }
    }
}

pub open spec fn spec_split_lines(s: Seq<char>) -> Seq<Seq<char>> {
    spec_split_char(s, '\n')
}

proof fn lemma_split_char_nonempty(s: Seq<char>, sep: char)
    ensures
        spec_split_char(s, sep).len() >= 1,
    decreases s.len(),
{
    if s.len() > 0 {
        lemma_split_char_nonempty(s.drop_last(), sep);
    }
}

/// Splits on one separator character.
pub fn split_char(s: &str, sep: char) -> (r: Vec<String>)
    ensures
        r@.map_values(|t: String| t@) == spec_split_char(s@, sep),
{
    let n = s.unicode_len();
    let mut out: Vec<String> = Vec::new();
    let mut start: usize = 0;
    let mut i: usize = 0;
    proof {
        assert(s@.take(0) =~= Seq::<char>::empty());
        assert(s@.subrange(0, 0) =~= Seq::<char>::empty());
        assert(out@.map_values(|t: String| t@).push(s@.subrange(0, 0)) =~= spec_split_char(
            s@.take(0),
            sep,
        ));
    }
    while i < n
        invariant
            n == s@.len(),
            0 <= start <= i <= n,
            out@.map_values(|t: String| t@).push(s@.subrange(start as int, i as int))
                == spec_split_char(s@.take(i as int), sep),
        decreases n - i,
    {
        let c = s.get_char(i);
        proof {
            assert(s@.take(i as int + 1).drop_last() =~= s@.take(i as int));
            assert(s@.take(i as int + 1).last() == s@[i as int]);
            lemma_split_char_nonempty(s@.take(i as int), sep);
        }
        if c == sep {
            let piece = s.substring_char(start, i);
            out.push(piece.to_owned());
            start = i + 1;
            proof {
                assert(s@.subrange(start as int, i as int + 1) =~= Seq::<char>::empty());
                assert(out@.map_values(|t: String| t@).push(
                    s@.subrange(start as int, i as int + 1),
                ) =~= spec_split_char(s@.take(i as int + 1), sep));
            }
        } else {
            proof {
                assert(s@.subrange(start as int, i as int + 1) =~= s@.subrange(
                    start as int,
                    i as int,
                ).push(s@[i as int]));
                assert(out@.map_values(|t: String| t@).push(
                    s@.subrange(start as int, i as int + 1),
                ) =~= spec_split_char(s@.take(i as int + 1), sep));
            }
        }
        i = i + 1;
    }
    proof {
        assert(s@.take(n as int) =~= s@);
    }
    let piece = s.substring_char(start, n);
    out.push(piece.to_owned());
    proof {
        assert(out@.map_values(|t: String| t@) =~= spec_split_char(s@, sep));
    }
    out
}

/// Splits on `'\n'`; together with a trim-and-skip-empty consumer this
/// agrees with `str::lines`.
pub fn split_lines(s: &str) -> (r: Vec<String>)
    ensures
        r@.map_values(|t: String| t@) == spec_split_lines(s@),
{
    split_char(s, '\n')
}

// ---------------------------------------------------------------------------
// Decimal rendering of unsigned integers
// ---------------------------------------------------------------------------

pub open spec fn dec_digit(d: int) -> char {
    if d == 0 {
        '0'
    } else if d == 1 {
        '1'
    } else if d == 2 {
        '2'
    } else if d == 3 {
        '3'
    } else if d == 4 {
        '4'
    } else if d == 5 {
        '5'
    } else if d == 6 {
        '6'
    } else if d == 7 {
        '7'
    } else if d == 8 {
        '8'
    } else {
        '9'
    }
}

/// The decimal numeral for `n`, most significant digit first, no leading
/// zeros (except for `n == 0` itself).
pub open spec fn spec_dec(n: int) -> Seq<char>
    decreases n,
{
    if n < 10 {
        seq![dec_digit(n)]
    } else {
        spec_dec(n / 10).push(dec_digit(n % 10))
    }
}

fn digit_string(d: u64) -> (s: String)
    requires
        d < 10,
    ensures
        s@ == seq![dec_digit(d as int)],
{
    proof {
        reveal_strlit("0");
        reveal_strlit("1");
        reveal_strlit("2");
        reveal_strlit("3");
        reveal_strlit("4");
        reveal_strlit("5");
        reveal_strlit("6");
        reveal_strlit("7");
        reveal_strlit("8");
        reveal_strlit("9");
    }
    let s = match d {
        0 => "0",
        1 => "1",
        2 => "2",
        3 => "3",
        4 => "4",
        5 => "5",
        6 => "6",
        7 => "7",
        8 => "8",
        _ => "9",
    };
    proof {
        assert(s@ =~= seq![dec_digit(d as int)]);
    }
    s.to_owned()
}

/// Renders `n` in decimal.
pub fn u64_to_dec(n: u64) -> (s: String)
    ensures
        s@ == spec_dec(n as int),
    decreases n,
{
    if n < 10 {
        digit_string(n)
    } else {
        let mut s = u64_to_dec(n / 10);
        let d = digit_string(n % 10);
        s.append(d.as_str());
        proof {
            assert(s@ =~= spec_dec(n as int));
        }
        s
    }
}

/// The lowercase hex digit for a value below 16.
pub open spec fn hex_digit(d: int) -> char {
    if d < 10 {
        dec_digit(d)
    } else if d == 10 {
        'a'
    } else if d == 11 {
        'b'
    } else if d == 12 {
        'c'
    } else if d == 13 {
        'd'
    } else if d == 14 {
        'e'
    } else {
        'f'
    }
}

pub fn hex_char_string(d: u32) -> (s: String)
    requires
        d < 16,
    ensures
        s@ == seq![hex_digit(d as int)],
{
    if d < 10 {
        let t = digit_string(d as u64);
        proof {
            assert(t@ =~= seq![hex_digit(d as int)]);
        }
        t
    } else {
        proof {
            reveal_strlit("a");
            reveal_strlit("b");
            reveal_strlit("c");
            reveal_strlit("d");
            reveal_strlit("e");
            reveal_strlit("f");
        }
        let s = match d {
            10 => "a",
            11 => "b",
            12 => "c",
            13 => "d",
            14 => "e",
            _ => "f",
        };
        proof {
            assert(s@ =~= seq![hex_digit(d as int)]);
        }
        s.to_owned()
    }
}

// ---------------------------------------------------------------------------
// Substring predicates
// ---------------------------------------------------------------------------

pub open spec fn spec_starts_with(s: Seq<char>, p: Seq<char>) -> bool {
    s.len() >= p.len() && s.subrange(0, p.len() as int) == p
}

pub open spec fn spec_ends_with(s: Seq<char>, p: Seq<char>) -> bool {
    s.len() >= p.len() && s.subrange(s.len() - p.len(), s.len() as int) == p
}

pub open spec fn spec_matches_at(s: Seq<char>, p: Seq<char>, i: int) -> bool {
    0 <= i && i + p.len() <= s.len() && s.subrange(i, i + p.len()) == p
}

pub open spec fn spec_contains_seq(s: Seq<char>, p: Seq<char>) -> bool {
    exists|i: int| spec_matches_at(s, p, i)
}

pub fn str_starts_with(s: &str, p: &str) -> (r: bool)
    ensures
        r == spec_starts_with(s@, p@),
{
    let sn = s.unicode_len();
    let pn = p.unicode_len();
    if sn < pn {
        return false;
    }
    let head = s.substring_char(0, pn);
    str_eq(head, p)
}

pub fn str_ends_with(s: &str, p: &str) -> (r: bool)
    ensures
        r == spec_ends_with(s@, p@),
{
    let sn = s.unicode_len();
    let pn = p.unicode_len();
    if sn < pn {
        return false;
    }
    let tail = s.substring_char(sn - pn, sn);
    str_eq(tail, p)
}

pub fn str_contains(s: &str, p: &str) -> (r: bool)
    ensures
        r == spec_contains_seq(s@, p@),
{
    let sn = s.unicode_len();
    let pn = p.unicode_len();
    if pn > sn {
        assert(forall|i: int| !spec_matches_at(s@, p@, i));
        return false;
    }
    if pn == 0 {
        proof {
            assert(s@.subrange(0, 0) =~= p@);
            assert(spec_matches_at(s@, p@, 0));
        }
        return true;
    }
    let mut i: usize = 0;
    while i <= sn - pn
        invariant
            sn == s@.len(),
            pn == p@.len(),
            0 < pn <= sn,
            0 <= i <= sn - pn + 1,
            forall|j: int| 0 <= j < i ==> !spec_matches_at(s@, p@, j),
        decreases sn - i,
    {
        let window = s.substring_char(i, i + pn);
        if str_eq(window, p) {
            assert(spec_matches_at(s@, p@, i as int));
            return true;
        }
        i = i + 1;
    }
    assert(forall|j: int| !spec_matches_at(s@, p@, j));
    false
}

// ---------------------------------------------------------------------------
// Middle truncation for display
// ---------------------------------------------------------------------------

/// `truncate_middle` keeps the two ends of an over-long text around one
/// ellipsis character; texts within the budget pass through unchanged.
pub open spec fn spec_truncate_middle(s: Seq<char>, max: int) -> Seq<char> {
    if s.len() <= max {
        s
    } else if max <= 1 {
        seq!['…']
    } else {
        let keep_left = (max - 1) / 2;
        let keep_right = max - 1 - keep_left;
        s.subrange(0, keep_left) + seq!['…'] + s.subrange(s.len() - keep_right, s.len() as int)
    }
}

pub fn truncate_middle(s: &str, max: usize) -> (r: String)
    ensures
        r@ == spec_truncate_middle(s@, max as int),
{
    let n = s.unicode_len();
    if n <= max {
        return s.to_owned();
    }
    proof {
        reveal_strlit("…");
    }
    if max <= 1 {
        let e = "…";
        assert(e@ =~= seq!['…']);
        return e.to_owned();
    }
    let keep_left = (max - 1) / 2;
    let keep_right = max - 1 - keep_left;
    let mut out = s.substring_char(0, keep_left).to_owned();
    out.append("…");
    out.append(s.substring_char(n - keep_right, n));
    proof {
        assert(out@ =~= spec_truncate_middle(s@, max as int));
    }
    out
}

// ---------------------------------------------------------------------------
// Clock conversion and path tails
// ---------------------------------------------------------------------------

/// Unix seconds from a clock reading given as whole seconds since the epoch
/// (`None` when the reading lies before the epoch), as a signed value.
pub fn system_time_to_unix_s(secs_since_epoch: Option<u64>) -> (r: Option<i64>)
    ensures
        r == match secs_since_epoch {
            Some(s) => if s <= i64::MAX as u64 {
                Some(s as i64)
            } else {
                None
            },
            None => None,
        },
{
    match secs_since_epoch {
        Some(s) => {
            if s <= i64::MAX as u64 {
                Some(s as i64)
            } else {
                None
            }
        },
        None => None,
    }
}

/// The start of the last `/`-separated segment: the index right after the
/// final separator, or 0 when there is none.
pub open spec fn spec_last_segment_start(s: Seq<char>) -> int
    decreases s.len(),
{
    if s.len() == 0 {
        0
    } else if s.last() == '/' {
        s.len() as int
    } else {
        spec_last_segment_start(s.drop_last())
    }
}

proof fn lemma_last_segment_start_bounds(s: Seq<char>)
    ensures
        0 <= spec_last_segment_start(s) <= s.len(),
        forall|j: int| spec_last_segment_start(s) <= j < s.len() ==> s[j] != '/',
        spec_last_segment_start(s) > 0 ==> s[spec_last_segment_start(s) - 1] == '/',
    decreases s.len(),
{
    if s.len() > 0 && s.last() != '/' {
        lemma_last_segment_start_bounds(s.drop_last());
        assert(forall|j: int|
            0 <= j < s.len() - 1 ==> #[trigger] s[j] == s.drop_last()[j]);
    }
}

/// The final path segment, `None` when it is empty (trailing separator or
/// empty input), as `rsplit('/').next()` filtered to non-empty.
pub fn last_path_segment(s: &str) -> (r: Option<String>)
    ensures
        0 <= spec_last_segment_start(s@) <= s@.len(),
        ({
            let start = spec_last_segment_start(s@);
            match r {
                Some(seg) => seg@ == s@.subrange(start, s@.len() as int) && start < s@.len(),
                None => start == s@.len(),
            }
        }),
{
    proof {
        lemma_last_segment_start_bounds(s@);
    }
    let n = s.unicode_len();
    let mut i: usize = n;
    while i > 0
        invariant
            n == s@.len(),
            0 <= i <= n,
            forall|j: int| i <= j < n ==> s@[j] != '/',
        ensures
            0 <= i <= n,
            forall|j: int| i <= j < n ==> s@[j] != '/',
            i > 0 ==> s@[i - 1] == '/',
        decreases i,
    {
        if s.get_char(i - 1) == '/' {
            break;
        }
        i = i - 1;
    }
    proof {
        lemma_segment_start_agrees(s@, i as int);
    }
    if i == n {
        None
    } else {
        Some(s.substring_char(i, n).to_owned())
    }
}

proof fn lemma_segment_start_agrees(s: Seq<char>, i: int)
    requires
        0 <= i <= s.len(),
        forall|j: int| i <= j < s.len() ==> s[j] != '/',
        i > 0 ==> s[i - 1] == '/',
    ensures
        spec_last_segment_start(s) == i,
    decreases s.len(),
{
    if s.len() == 0 {
    } else if s.last() == '/' {
        assert(i == s.len());
    } else {
        assert(i < s.len());
        lemma_segment_start_agrees(s.drop_last(), i);
    }
}

// ---------------------------------------------------------------------------
// Joining with commas
// ---------------------------------------------------------------------------

/// `items` joined with a single comma between neighbours.
pub open spec fn spec_join_comma(items: Seq<Seq<char>>) -> Seq<char>
    decreases items.len(),
{
    if items.len() == 0 {
        Seq::<char>::empty()
    } else if items.len() == 1 {
        items[0]
    } else {
        spec_join_comma(items.drop_last()) + seq![','] + items.last()
    }
}

pub fn join_comma(items: &Vec<String>) -> (r: String)
    ensures
        r@ == spec_join_comma(items@.map_values(|t: String| t@)),
{
    proof {
        reveal_strlit(",");
    }
    let mut out = String::new();
    let mut i: usize = 0;
    proof {
        let m = items@.map_values(|t: String| t@);
        assert(m.take(0) =~= Seq::<Seq<char>>::empty());
        assert(out@ =~= spec_join_comma(m.take(0)));
    }
    while i < items.len()
        invariant
            0 <= i <= items@.len(),
            out@ == spec_join_comma(items@.map_values(|t: String| t@).take(i as int)),
        decreases items@.len() - i,
    {
        proof {
            reveal_strlit(",");
        }
        if i > 0 {
            out.append(",");
            assert(","@ =~= seq![',']);
        }
        out.append(items[i].as_str());
        proof {
            let m = items@.map_values(|t: String| t@);
            assert(m.take(i as int + 1).drop_last() =~= m.take(i as int));
            assert(m.take(i as int + 1).last() == m[i as int]);
            if i == 0 {
                assert(out@ =~= spec_join_comma(m.take(i as int + 1)));
            } else {
                assert(out@ =~= spec_join_comma(m.take(i as int + 1)));
            }
        }
        i = i + 1;
    }
    proof {
        let m = items@.map_values(|t: String| t@);
        assert(m.take(i as int) =~= m);
    }
    out
}


// ---------------------------------------------------------------------------
// Association lists of text pairs
// ---------------------------------------------------------------------------

/// The map carried by an association list of text pairs; a later entry for a
/// key shadows an earlier one.
pub open spec fn str_pair_map(entries: Seq<(String, String)>) -> Map<Seq<char>, Seq<char>>
    decreases entries.len(),
{
    if entries.len() == 0 {
        Map::empty()
    } else {
        str_pair_map(entries.drop_last()).insert(entries.last().0@, entries.last().1@)
    }
}

pub proof fn lemma_str_pair_found(entries: Seq<(String, String)>, j: int)
    requires
        0 <= j < entries.len(),
        forall|m: int| j < m < entries.len() ==> (#[trigger] entries[m].0)@ != entries[j].0@,
    ensures
        str_pair_map(entries).contains_key(entries[j].0@),
        str_pair_map(entries)[entries[j].0@] == entries[j].1@,
    decreases entries.len(),
{
    if j < entries.len() - 1 {
        assert(forall|m: int|
            0 <= m < entries.len() - 1 ==> entries.drop_last()[m] == #[trigger] entries[m]);
        lemma_str_pair_found(entries.drop_last(), j);
    }
}

pub proof fn lemma_str_pair_absent(entries: Seq<(String, String)>, kv: Seq<char>)
    requires
        forall|m: int| 0 <= m < entries.len() ==> (#[trigger] entries[m].0)@ != kv,
    ensures
        !str_pair_map(entries).contains_key(kv),
    decreases entries.len(),
{
    if entries.len() > 0 {
        assert(forall|m: int|
            0 <= m < entries.len() - 1 ==> entries.drop_last()[m] == #[trigger] entries[m]);
        lemma_str_pair_absent(entries.drop_last(), kv);
    }
}


/// A copy of an optional text with the same view.
pub fn clone_opt_string(s: &Option<String>) -> (r: Option<String>)
    ensures
        match (s, &r) {
            (Some(a), Some(b)) => a@ == b@,
            (None, None) => true,
            _ => false,
        },
{
    match s {
        Some(a) => Some(a.clone()),
        None => None,
    }
}


} // verus!
