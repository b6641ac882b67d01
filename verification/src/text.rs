//! Character-level text utilities: substring search, line counting,
//! whitespace trimming, and lexicographic path order.

use vstd::prelude::*;
use vstd::string::*;

verus! {

/// True when `pat` occurs in `s` starting at index `i`.
pub open spec fn match_at(s: Seq<char>, pat: Seq<char>, i: int) -> bool {
    0 <= i && i + pat.len() <= s.len() && s.subrange(i, i + pat.len() as int) == pat
}

/// Index of the first occurrence of `pat` in `s` at or after `from`,
/// or `None` when there is none.
pub open spec fn find_from(s: Seq<char>, pat: Seq<char>, from: int) -> Option<int>
    decreases s.len() - from,
    when 0 <= from && pat.len() > 0
{
    if from + pat.len() > s.len() {
        None
    } else if s.subrange(from, from + pat.len() as int) == pat {
        Some(from)
    } else {
        find_from(s, pat, from + 1)
    }
}

/// A found occurrence lies at or after `from` and fits inside `s`.
pub proof fn lemma_find_from_bounds(s: Seq<char>, pat: Seq<char>, from: int, j: int)
    requires
        0 <= from,
        pat.len() > 0,
        find_from(s, pat, from) == Some(j),
    ensures
        from <= j,
        j + pat.len() <= s.len(),
        match_at(s, pat, j),
    decreases s.len() - from,
{
    if from + pat.len() > s.len() {
    } else if s.subrange(from, from + pat.len() as int) == pat {
    } else {
        lemma_find_from_bounds(s, pat, from + 1, j);
    }
}

/// Compares `pat` against the characters of `s` starting at `i`.
fn match_tag_at(s: &str, s_len: usize, pat: &str, pat_len: usize, i: usize) -> (r: bool)
    requires
        s_len == s@.len(),
        pat_len == pat@.len(),
        i + pat@.len() <= s@.len(),
    ensures
        r == match_at(s@, pat@, i as int),
{
    let mut k: usize = 0;
    while k < pat_len
        invariant
            s_len == s@.len(),
            pat_len == pat@.len(),
            i + pat_len <= s_len,
            0 <= k <= pat_len,
            forall|m: int| 0 <= m < k ==> s@[i + m] == pat@[m],
        decreases pat_len - k,
    {
        if s.get_char(i + k) != pat.get_char(k) {
            proof {
                let sub = s@.subrange(i as int, i + pat@.len() as int);
                assert(sub[k as int] == s@[i + k]);
            }
            return false;
        }
        k = k + 1;
    }
    proof {
        assert(s@.subrange(i as int, i + pat@.len() as int) =~= pat@);
    }
    true
}

/// First occurrence of `pat` in `s` at or after `from`, as an index.
pub fn find_in_str(s: &str, pat: &str, from: usize) -> (r: Option<usize>)
    requires
        pat@.len() > 0,
        from <= s@.len(),
    ensures
        match r {
            Some(j) => find_from(s@, pat@, from as int) == Some(j as int),
            None => find_from(s@, pat@, from as int) is None,
        },
{
    let s_len = s.unicode_len();
    let pat_len = pat.unicode_len();
    let mut i: usize = from;
    loop
        invariant
            s_len == s@.len(),
            pat_len == pat@.len(),
            pat_len > 0,
            from <= i <= s_len,
            find_from(s@, pat@, from as int) == find_from(s@, pat@, i as int),
        decreases s_len - i,
    {
        if pat_len > s_len - i {
            return None;
        }
        if match_tag_at(s, s_len, pat, pat_len, i) {
            return Some(i);
        }
        i = i + 1;
    }
}

/// Number of newline characters in `s`.
pub open spec fn newline_count(s: Seq<char>) -> nat
    decreases s.len(),
{
    if s.len() == 0 {
        0
    } else {
        newline_count(s.drop_last()) + (if s.last() == '\n' {
            1nat
        } else {
            0nat
        })
    }
}

/// Number of lines of `s`, counted as newline-delimited segments: an
/// empty text has zero lines, and a final newline closes the last line
/// rather than opening a new one.
pub open spec fn lines_count(s: Seq<char>) -> nat {
    if s.len() == 0 {
        0
    } else if s.last() == '\n' {
        newline_count(s)
    } else {
        newline_count(s) + 1
    }
}

pub proof fn lemma_newline_count_le_len(s: Seq<char>)
    ensures
        newline_count(s) <= s.len(),
    decreases s.len(),
{
    if s.len() > 0 {
        lemma_newline_count_le_len(s.drop_last());
    }
}

/// Lines of the slice of `s` between `start` and `end`.
pub fn count_lines_range(s: &str, s_len: usize, start: usize, end: usize) -> (r: usize)
    requires
        s_len == s@.len(),
        start <= end <= s@.len(),
    ensures
        r == lines_count(s@.subrange(start as int, end as int)),
        r <= end - start,
{
    let mut i: usize = start;
    let mut cnt: usize = 0;
    while i < end
        invariant
            s_len == s@.len(),
            start <= i <= end <= s_len,
            cnt == newline_count(s@.subrange(start as int, i as int)),
            cnt <= i - start,
        decreases end - i,
    {
        let c = s.get_char(i);
        proof {
            assert(s@.subrange(start as int, i + 1).drop_last() =~= s@.subrange(
                start as int,
                i as int,
            ));
            assert(s@.subrange(start as int, i + 1).last() == s@[i as int]);
        }
        if c == '\n' {
            cnt = cnt + 1;
        }
        i = i + 1;
    }
    let ghost whole = s@.subrange(start as int, end as int);
    if start == end {
        proof {
            assert(whole.len() == 0);
        }
        0
    } else {
        let last = s.get_char(end - 1);
        proof {
            assert(whole.last() == s@[end - 1]);
        }
        if last == '\n' {
            cnt
        } else {
            proof {
                assert(whole.drop_last() =~= s@.subrange(start as int, end - 1));
                lemma_newline_count_le_len(whole.drop_last());
                assert(newline_count(whole) <= whole.len() - 1 + 1);
                assert(cnt <= end - 1 - start);
            }
            cnt + 1
        }
    }
}

/// The characters with the Unicode `White_Space` property, the set
/// that `str::trim` removes at either end.
pub open spec fn is_ws(c: char) -> bool {
    c == ' ' || c == '\t' || c == '\n' || c == '\r' || c == '\u{0B}' || c == '\u{0C}' || c
        == '\u{85}' || c == '\u{A0}' || c == '\u{1680}' || c == '\u{2000}' || c == '\u{2001}' || c
        == '\u{2002}' || c == '\u{2003}' || c == '\u{2004}' || c == '\u{2005}' || c == '\u{2006}'
        || c == '\u{2007}' || c == '\u{2008}' || c == '\u{2009}' || c == '\u{200A}' || c
        == '\u{2028}' || c == '\u{2029}' || c == '\u{202F}' || c == '\u{205F}' || c == '\u{3000}'
}

fn is_ws_exec(c: char) -> (r: bool)
    ensures
        r == is_ws(c),
{
    c == ' ' || c == '\t' || c == '\n' || c == '\r' || c == '\u{0B}' || c == '\u{0C}' || c
        == '\u{85}' || c == '\u{A0}' || c == '\u{1680}' || c == '\u{2000}' || c == '\u{2001}' || c
        == '\u{2002}' || c == '\u{2003}' || c == '\u{2004}' || c == '\u{2005}' || c == '\u{2006}'
        || c == '\u{2007}' || c == '\u{2008}' || c == '\u{2009}' || c == '\u{200A}' || c
        == '\u{2028}' || c == '\u{2029}' || c == '\u{202F}' || c == '\u{205F}' || c == '\u{3000}'
}

/// `s` with leading whitespace removed.
pub open spec fn trim_start_rec(s: Seq<char>) -> Seq<char>
    decreases s.len(),
{
    if s.len() == 0 {
        s
    } else if is_ws(s[0]) {
        trim_start_rec(s.drop_first())
    } else {
        s
    }
}

/// `s` with trailing whitespace removed.
pub open spec fn trim_end_rec(s: Seq<char>) -> Seq<char>
    decreases s.len(),
{
    if s.len() == 0 {
        s
    } else if is_ws(s.last()) {
        trim_end_rec(s.drop_last())
    } else {
        s
    }
}

/// `s` with whitespace removed at both ends, as `str::trim` leaves it.
pub open spec fn trim(s: Seq<char>) -> Seq<char> {
    trim_end_rec(trim_start_rec(s))
}

/// Trims whitespace from both ends of `s`.
pub fn trim_str<'a>(s: &'a str) -> (r: &'a str)
    ensures
        r@ == trim(s@),
{
    let len = s.unicode_len();
    proof {
        assert(s@.subrange(0, len as int) =~= s@);
    }
    let mut start: usize = 0;
    while start < len && is_ws_exec(s.get_char(start))
        invariant
            len == s@.len(),
            0 <= start <= len,
            trim_start_rec(s@) == trim_start_rec(s@.subrange(start as int, len as int)),
        decreases len - start,
    {
        proof {
            let cur = s@.subrange(start as int, len as int);
            assert(cur[0] == s@[start as int]);
            assert(cur.drop_first() =~= s@.subrange(start + 1, len as int));
        }
        start = start + 1;
    }
    proof {
        let cur = s@.subrange(start as int, len as int);
        if start < len {
            assert(cur[0] == s@[start as int]);
        }
        assert(trim_start_rec(cur) == cur);
    }
    let mut end: usize = len;
    while end > start && is_ws_exec(s.get_char(end - 1))
        invariant
            len == s@.len(),
            0 <= start <= end <= len,
            trim_start_rec(s@) == trim_start_rec(s@.subrange(start as int, len as int)),
            trim_start_rec(s@.subrange(start as int, len as int)) == s@.subrange(
                start as int,
                len as int,
            ),
            trim_end_rec(s@.subrange(start as int, len as int)) == trim_end_rec(
                s@.subrange(start as int, end as int),
            ),
        decreases end,
    {
        proof {
            let cur = s@.subrange(start as int, end as int);
            assert(cur.last() == s@[end - 1]);
            assert(cur.drop_last() =~= s@.subrange(start as int, end - 1));
        }
        end = end - 1;
    }
    proof {
        let cur = s@.subrange(start as int, end as int);
        if end > start {
            assert(cur.last() == s@[end - 1]);
        }
        assert(trim_end_rec(cur) == cur);
    }
    s.substring_char(start, end)
}

/// Lexicographic order on character sequences, by code point; this is
/// the order in which rendered blocks are arranged.
pub open spec fn lex_le(a: Seq<char>, b: Seq<char>) -> bool
    decreases a.len(),
{
    if a.len() == 0 {
        true
    } else if b.len() == 0 {
        false
    } else if (a[0] as u32) < (b[0] as u32) {
        true
    } else if (a[0] as u32) > (b[0] as u32) {
        false
    } else {
        lex_le(a.drop_first(), b.drop_first())
    }
}

/// Decides `lex_le` on two strings.
pub fn str_le(a: &str, b: &str) -> (r: bool)
    ensures
        r == lex_le(a@, b@),
{
    let a_len = a.unicode_len();
    let b_len = b.unicode_len();
    proof {
        assert(a@.subrange(0, a_len as int) =~= a@);
        assert(b@.subrange(0, b_len as int) =~= b@);
    }
    let mut i: usize = 0;
    loop
        invariant
            a_len == a@.len(),
            b_len == b@.len(),
            0 <= i <= a_len,
            i <= b_len,
            lex_le(a@, b@) == lex_le(
                a@.subrange(i as int, a_len as int),
                b@.subrange(i as int, b_len as int),
            ),
        decreases a_len - i,
    {
        proof {
            let ra = a@.subrange(i as int, a_len as int);
            let rb = b@.subrange(i as int, b_len as int);
            if i < a_len && i < b_len {
                assert(ra[0] == a@[i as int]);
                assert(rb[0] == b@[i as int]);
                assert(ra.drop_first() =~= a@.subrange(i + 1, a_len as int));
                assert(rb.drop_first() =~= b@.subrange(i + 1, b_len as int));
            }
        }
        if i >= a_len {
            return true;
        }
        if i >= b_len {
            return false;
        }
        let ca = a.get_char(i);
        let cb = b.get_char(i);
        if (ca as u32) < (cb as u32) {
            return true;
        }
        if (ca as u32) > (cb as u32) {
            return false;
        }
        i = i + 1;
    }
}

/// Number of occurrences of `pat` in `s` at or after `from`, counted
/// by a left-to-right scan that resumes after each occurrence.
pub open spec fn count_occ(s: Seq<char>, pat: Seq<char>, from: int) -> nat
    decreases s.len() - from,
    when 0 <= from && pat.len() > 0 via count_occ_decreases
{
    match find_from(s, pat, from) {
        None => 0,
        Some(j) => 1 + count_occ(s, pat, j + pat.len()),
    }
}

#[via_fn]
proof fn count_occ_decreases(s: Seq<char>, pat: Seq<char>, from: int) {
    if 0 <= from && pat.len() > 0 {
        if let Some(j) = find_from(s, pat, from) {
            lemma_find_from_bounds(s, pat, from, j);
        }
    }
}

/// A match inside a slice of `s` is a match in `s` itself.
pub proof fn lemma_match_in_subrange(s: Seq<char>, a: int, b: int, pat: Seq<char>, k: int)
    requires
        0 <= a <= b <= s.len(),
        match_at(s.subrange(a, b), pat, k),
    ensures
        match_at(s, pat, a + k),
{
    assert(s.subrange(a + k, a + k + pat.len() as int) =~= s.subrange(a, b).subrange(
        k,
        k + pat.len() as int,
    ));
}

/// The search finds a match that no earlier position offers.
pub proof fn lemma_find_from_first(s: Seq<char>, pat: Seq<char>, from: int, j: int)
    requires
        0 <= from <= j,
        pat.len() > 0,
        match_at(s, pat, j),
        forall|k: int| from <= k < j ==> !match_at(s, pat, k),
    ensures
        find_from(s, pat, from) == Some(j),
    decreases j - from,
{
    if from < j {
        assert(!match_at(s, pat, from));
        lemma_find_from_first(s, pat, from + 1, j);
    }
}

/// Where no position at or after `from` matches, the search fails.
pub proof fn lemma_find_from_none(s: Seq<char>, pat: Seq<char>, from: int)
    requires
        0 <= from,
        pat.len() > 0,
        forall|k: int| from <= k ==> !match_at(s, pat, k),
    ensures
        find_from(s, pat, from) is None,
    decreases s.len() - from,
{
    if from + pat.len() <= s.len() {
        assert(!match_at(s, pat, from));
        lemma_find_from_none(s, pat, from + 1);
    }
}

/// Skipping over positions that match nowhere leaves the search
/// result unchanged.
pub proof fn lemma_find_from_advance(s: Seq<char>, pat: Seq<char>, t1: int, t2: int)
    requires
        0 <= t1 <= t2,
        pat.len() > 0,
        forall|k: int| t1 <= k < t2 ==> !match_at(s, pat, k),
    ensures
        find_from(s, pat, t1) == find_from(s, pat, t2),
    decreases t2 - t1,
{
    if t1 < t2 {
        assert(!match_at(s, pat, t1));
        lemma_find_from_advance(s, pat, t1 + 1, t2);
    }
}

/// In a concatenation, searching at or past the first part is a
/// search of the second part alone.
pub proof fn lemma_find_from_shift(a: Seq<char>, b: Seq<char>, pat: Seq<char>, t: int)
    requires
        a.len() <= t,
        pat.len() > 0,
    ensures
        find_from(a + b, pat, t) == match find_from(b, pat, t - a.len()) {
            None => None::<int>,
            Some(j) => Some(j + a.len()),
        },
    decreases (a + b).len() - t,
{
    let s = a + b;
    if t + pat.len() <= s.len() {
        assert(s.subrange(t, t + pat.len() as int) =~= b.subrange(
            t - a.len(),
            t - a.len() + pat.len() as int,
        ));
        lemma_find_from_shift(a, b, pat, t + 1);
    }
}

/// Counting at or past the first part of a concatenation counts in
/// the second part alone.
pub proof fn lemma_count_occ_shift(a: Seq<char>, b: Seq<char>, pat: Seq<char>, t: int)
    requires
        a.len() <= t,
        pat.len() > 0,
    ensures
        count_occ(a + b, pat, t) == count_occ(b, pat, t - a.len()),
    decreases (a + b).len() - t,
{
    lemma_find_from_shift(a, b, pat, t);
    match find_from(b, pat, t - a.len()) {
        None => {},
        Some(j) => {
            lemma_find_from_bounds(b, pat, t - a.len(), j);
            lemma_count_occ_shift(a, b, pat, j + a.len() + pat.len());
        },
    }
}

/// True when `needle` occurs somewhere in `hay`.
pub open spec fn contains_seq(hay: Seq<char>, needle: Seq<char>) -> bool {
    exists|i: int| match_at(hay, needle, i)
}

/// The path order is total.
pub proof fn lemma_lex_le_total(a: Seq<char>, b: Seq<char>)
    ensures
        lex_le(a, b) || lex_le(b, a),
    decreases a.len(),
{
    if a.len() > 0 && b.len() > 0 && (a[0] as u32) == (b[0] as u32) {
        lemma_lex_le_total(a.drop_first(), b.drop_first());
    }
}

/// The path order is transitive.
pub proof fn lemma_lex_le_trans(a: Seq<char>, b: Seq<char>, c: Seq<char>)
    requires
        lex_le(a, b),
        lex_le(b, c),
    ensures
        lex_le(a, c),
    decreases a.len(),
{
    if a.len() > 0 && b.len() > 0 && c.len() > 0 && (a[0] as u32) == (b[0] as u32) && (
    b[0] as u32) == (c[0] as u32) {
        lemma_lex_le_trans(a.drop_first(), b.drop_first(), c.drop_first());
    }
}

/// The path order is antisymmetric: mutually ordered sequences are equal.
pub proof fn lemma_lex_le_antisym(a: Seq<char>, b: Seq<char>)
    requires
        lex_le(a, b),
        lex_le(b, a),
    ensures
        a == b,
    decreases a.len(),
{
    if a.len() == 0 {
        assert(b.len() == 0);
        assert(a =~= b);
    } else {
        assert(b.len() > 0);
        assert(!((a[0] as u32) < (b[0] as u32)));
        assert(!((b[0] as u32) < (a[0] as u32)));
        assert((a[0] as u32) == (b[0] as u32));
        vstd::utf8::char_u32_cast(a[0], a[0] as u32);
        vstd::utf8::char_u32_cast(b[0], b[0] as u32);
        assert(a[0] == b[0]);
        assert(lex_le(a.drop_first(), b.drop_first()));
        assert(lex_le(b.drop_first(), a.drop_first()));
        lemma_lex_le_antisym(a.drop_first(), b.drop_first());
        assert(a.len() == b.len());
        assert forall|i: int| 0 <= i < a.len() implies a[i] == b[i] by {
            if i > 0 {
                assert(a[i] == a.drop_first()[i - 1]);
                assert(b[i] == b.drop_first()[i - 1]);
            }
        }
        assert(a =~= b);
    }
}

} // verus!
