//! What the editor shows of git: the state of changed files and, for the
//! open file, which lines were added, modified or deleted against `HEAD`.
use vstd::prelude::*;
use std::collections::HashMap;
use crate::paths::{join_path, path_join, path_components};
use crate::strs::{
    find_char, find_char_from, lemma_find_char_from, lines_from, parse_usize, parse_usize_spec,
    slice_vec, split_lines, split_words, str_to_chars, words_from, trim_str, trimmed, utf8_len, chars_at_byte,
    chars_at_byte_of, bytes_exceed, char_whitespace, skip_ws, word_end, lemma_skip_ws, all_digits,
};

verus! {

broadcast use vstd::std_specs::hash::group_hash_axioms;

/// State of a file in the working tree.
#[derive(Clone, Copy, Debug, PartialEq, Eq, Structural)]
pub enum FileGitStatus {
    Modified,
    Added,
    Untracked,
    Deleted,
}

/// State of one line compared with `HEAD`.
#[derive(Clone, Copy, Debug, PartialEq, Eq, Structural)]
pub enum GitLineStatus {
    Added,
    Modified,
    Deleted,
}

/// What the interface knows of git for the workspace.
pub struct GitContext {
    pub branch: Option<String>,
    pub is_repo: bool,
    /// Per-line state of the open file against `HEAD`, by zero-based line.
    pub line_statuses: HashMap<usize, GitLineStatus>,
    /// Totals of added, modified and deleted lines.
    pub stats: (usize, usize, usize),
    /// State of each changed file, by path (paths that agree component by
    /// component are one file).  A list of pairs: Verus proves nothing of a
    /// `HashMap` keyed by text, and only the components decide which file a
    /// key is.
    pub file_statuses: Vec<(String, FileGitStatus)>,
}

impl GitContext {
    /// An empty context: not a repository, nothing changed.
    pub fn empty() -> (c: Self)
        ensures
            c.branch is None,
            !c.is_repo,
            c.line_statuses@ == Map::<usize, GitLineStatus>::empty(),
            c.stats == (0usize, 0usize, 0usize),
            c.file_statuses@.len() == 0,
    {
        GitContext {
            branch: None,
            is_repo: false,
            line_statuses: HashMap::new(),
            stats: (0, 0, 0),
            file_statuses: Vec::new(),
        }
    }
}

pub open spec fn starts_with_hunk_marker(line: Seq<char>) -> bool {
    line.len() >= 3 && line[0] == '@' && line[1] == '@' && line[2] == ' '
}

pub open spec fn or_one(r: Option<usize>) -> nat {
    match r {
        Some(v) => v as nat,
        None => 1,
    }
}

/// The numbers of a hunk header `@@ -a,b +c,d @@`: start of the new range,
/// its length, and the length of the old range (a missing or unreadable
/// number counts as 1); `None` for any other line.
pub open spec fn hunk_header(line: Seq<char>) -> Option<(nat, nat, nat)> {
    let parts = words_from(line, 0);
    if !starts_with_hunk_marker(line) || parts.len() < 3 {
        None
    } else {
        let old = parts[1];
        let new = parts[2];
        if !(new.len() > 0 && new[0] == '+') || !(old.len() > 0 && old[0] == '-') {
            None
        } else {
            let a = new.drop_first();
            let ca = find_char_from(a, ',', 0);
            let start = if ca >= 0 { or_one(parse_usize_spec(a.take(ca))) } else { or_one(parse_usize_spec(a)) };
            let count = if ca >= 0 { or_one(parse_usize_spec(a.skip(ca + 1))) } else { 1 };
            let r = old.drop_first();
            let cr = find_char_from(r, ',', 0);
            let count_old = if cr >= 0 { or_one(parse_usize_spec(r.skip(cr + 1))) } else { 1 };
            Some((start, count, count_old))
        }
    }
}

pub open spec fn sat(x: int) -> nat {
    if x > usize::MAX { usize::MAX as nat } else if x < 0 { 0 } else { x as nat }
}

/// `m` with the lines `[base, base + count)` (those that are valid indices)
/// marked `st`.
pub open spec fn mark_lines(m: Map<usize, GitLineStatus>, base: nat, count: nat, st: GitLineStatus) -> Map<usize, GitLineStatus> {
    m.union_prefer_right(Map::new(|k: usize| base <= k < base + count, |k: usize| st))
}

/// The line states and totals after reading `lines` of a zero-context diff:
/// a new range with no old lines is added, an old range with no new lines is
/// deleted (marked on the line where it was), anything else is modified.
pub open spec fn diff_summary(lines: Seq<Seq<char>>) -> (Map<usize, GitLineStatus>, nat, nat, nat)
    decreases lines.len(),
{
    if lines.len() == 0 {
        (Map::empty(), 0, 0, 0)
    } else {
        let (m, adds, mods, dels) = diff_summary(lines.drop_last());
        match hunk_header(lines.last()) {
            None => (m, adds, mods, dels),
            Some((start, count, count_old)) => {
                let base = sat(start - 1);
                if count_old == 0 && count > 0 {
                    (mark_lines(m, base, count, GitLineStatus::Added), sat((adds + count) as int), mods, dels)
                } else if count == 0 && count_old > 0 {
                    (m.insert(base as usize, GitLineStatus::Deleted), adds, mods, sat((dels + count_old) as int))
                } else {
                    (mark_lines(m, base, count, GitLineStatus::Modified), adds, sat((mods + count) as int), dels)
                }
            },
        }
    }
}

/// Lines that do not open with `@@ ` have no part in the summary: it is that
/// of the hunk headers alone, in their order.
pub proof fn lemma_summary_of_headers(lines: Seq<Seq<char>>)
    ensures
        diff_summary(lines) == diff_summary(lines.filter(|l: Seq<char>| starts_with_hunk_marker(l))),
    decreases lines.len(),
{
    let p = |l: Seq<char>| starts_with_hunk_marker(l);
    if lines.len() > 0 {
        let init = lines.drop_last();
        lemma_summary_of_headers(init);
        assert(init.push(lines.last()) =~= lines);
        init.lemma_filter_push(lines.last(), p);
        if p(lines.last()) {
            assert(init.filter(p).push(lines.last()).drop_last() =~= init.filter(p));
        }
    } else {
        reveal(Seq::filter);
    }
}

/// Two diffs whose `@@ ` hunk headers are the same, line for line, read the
/// same: the added and removed text between the headers changes nothing.
pub proof fn law_diff_reads_only_hunk_headers(d1: Seq<char>, d2: Seq<char>)
    requires
        lines_from(d1, 0).filter(|l: Seq<char>| starts_with_hunk_marker(l))
            == lines_from(d2, 0).filter(|l: Seq<char>| starts_with_hunk_marker(l)),
    ensures
        diff_summary(lines_from(d1, 0)) == diff_summary(lines_from(d2, 0)),
{
    lemma_summary_of_headers(lines_from(d1, 0));
    lemma_summary_of_headers(lines_from(d2, 0));
}

/// What one hunk header adds to what the lines before it gave.  A hunk
/// `@@ -a,o +s,n @@` with new lines and no old ones adds `n` and marks the
/// lines `[s-1, s-1+n)` added; one with old lines and no new ones deletes
/// `o` and marks line `s-1` deleted; any other hunk marks exactly the new
/// range `[s-1, s-1+n)` modified and counts `n` modified lines, whatever the
/// old count.  Nothing else changes (totals stop at `usize::MAX`).
pub proof fn law_hunk_marks_its_new_range(lines: Seq<Seq<char>>, h: Seq<char>)
    requires
        hunk_header(h) is Some,
    ensures
        ({
            let (m0, a0, mo0, d0) = diff_summary(lines);
            let (m, a, mo, d) = diff_summary(lines.push(h));
            let (s, n, o) = hunk_header(h)->0;
            let base = sat(s - 1);
            if o == 0 && n > 0 {
                &&& a == sat((a0 + n) as int) && mo == mo0 && d == d0
                &&& forall|k: usize| #[trigger] m.contains_key(k) <==> (m0.contains_key(k) || base <= k < base + n)
                &&& forall|k: usize| base <= k < base + n ==> #[trigger] m[k] == GitLineStatus::Added
                &&& forall|k: usize| !(base <= k < base + n) && m0.contains_key(k) ==> #[trigger] m[k] == m0[k]
            } else if n == 0 && o > 0 {
                &&& d == sat((d0 + o) as int) && a == a0 && mo == mo0
                &&& forall|k: usize| #[trigger] m.contains_key(k) <==> (m0.contains_key(k) || k == base)
                &&& m[base as usize] == GitLineStatus::Deleted
                &&& forall|k: usize| k != base && m0.contains_key(k) ==> #[trigger] m[k] == m0[k]
            } else {
                &&& mo == sat((mo0 + n) as int) && a == a0 && d == d0
                &&& forall|k: usize| #[trigger] m.contains_key(k) <==> (m0.contains_key(k) || base <= k < base + n)
                &&& forall|k: usize| base <= k < base + n ==> #[trigger] m[k] == GitLineStatus::Modified
                &&& forall|k: usize| !(base <= k < base + n) && m0.contains_key(k) ==> #[trigger] m[k] == m0[k]
            }
        }),
{
    assert(lines.push(h).drop_last() =~= lines);
    assert(lines.push(h).last() == h);
}

proof fn lemma_word_end_at(s: Seq<char>, i: int, j: int)
    requires
        0 <= i <= j <= s.len(),
        forall|k: int| i <= k < j ==> !char_whitespace(#[trigger] s[k]),
        j == s.len() || char_whitespace(s[j]),
    ensures
        word_end(s, i) == j,
    decreases j - i,
{
    if i < j {
        lemma_word_end_at(s, i + 1, j);
    }
}

/// A word `[i, j)` at `i` is the first word from `i` on.
proof fn lemma_words_word(s: Seq<char>, i: int, j: int)
    requires
        0 <= i < j <= s.len(),
        forall|k: int| i <= k < j ==> !char_whitespace(#[trigger] s[k]),
        j == s.len() || char_whitespace(s[j]),
    ensures
        words_from(s, i) == seq![s.subrange(i, j)] + words_from(s, j),
{
    lemma_word_end_at(s, i, j);
    assert(skip_ws(s, i) == i);
}

/// Whitespace at `j` starts no word.
proof fn lemma_words_space(s: Seq<char>, j: int)
    requires
        0 <= j < s.len(),
        char_whitespace(s[j]),
    ensures
        words_from(s, j) == words_from(s, j + 1),
{
    lemma_skip_ws(s, j + 1);
    assert(skip_ws(s, j) == skip_ws(s, j + 1));
}

/// The first `,` of `x` from `f` on is at `n`.
proof fn lemma_comma_at(x: Seq<char>, n: int, f: int)
    requires
        0 <= f <= n < x.len(),
        x[n] == ',',
        forall|k: int| f <= k < n ==> #[trigger] x[k] != ',',
    ensures
        find_char_from(x, ',', f) == n,
    decreases n - f,
{
    if f < n {
        lemma_comma_at(x, n, f + 1);
    }
}

/// `p` + `a` + `,` + `b`, with `a` made of digits: dropping the sign `p`
/// gives a text whose first comma follows `a`.
proof fn lemma_signed_range(p: char, a: Seq<char>, b: Seq<char>)
    requires
        all_digits(a),
    ensures
        ({
            let w = seq![p] + a + seq![','] + b;
            let r = w.drop_first();
            &&& w[0] == p
            &&& r == a + seq![','] + b
            &&& find_char_from(r, ',', 0) == a.len()
            &&& r.take(a.len() as int) == a
            &&& r.skip(a.len() as int + 1) == b
        }),
{
    let w = seq![p] + a + seq![','] + b;
    let r = w.drop_first();
    assert(r =~= a + seq![','] + b);
    assert forall|k: int| 0 <= k < a.len() implies #[trigger] r[k] != ',' by {
        assert(r[k] == a[k]);
        assert(crate::strs::is_digit(a[k]));
    }
    lemma_comma_at(r, a.len() as int, 0);
    assert(r.take(a.len() as int) =~= a);
    assert(r.skip(a.len() as int + 1) =~= b);
}

/// How a hunk header is read from its text: in `@@ -a,b +c,d @@...` (whatever
/// follows), `c` is where the new range starts, `d` how many lines it has,
/// and `b` how many old lines there were; the start of the old range plays
/// no part.  Each is read as `usize::from_str` reads it, 1 when unreadable.
pub proof fn law_hunk_header_reads_ranges(a: Seq<char>, b: Seq<char>, c: Seq<char>, d: Seq<char>, tail: Seq<char>)
    requires
        a.len() > 0 && all_digits(a),
        b.len() > 0 && all_digits(b),
        c.len() > 0 && all_digits(c),
        d.len() > 0 && all_digits(d),
    ensures
        hunk_header(seq!['@', '@', ' ', '-'] + a + seq![','] + b + seq![' ', '+'] + c + seq![','] + d + seq![' ', '@', '@'] + tail)
            == Some((or_one(parse_usize_spec(c)), or_one(parse_usize_spec(d)), or_one(parse_usize_spec(b)))),
{
    let w0 = seq!['@', '@'];
    let w1 = seq!['-'] + a + seq![','] + b;
    let w2 = seq!['+'] + c + seq![','] + d;
    let rest = seq!['@', '@'] + tail;
    let sp = seq![' '];
    let s = w0 + sp + w1 + sp + w2 + sp + rest;
    assert(s =~= seq!['@', '@', ' ', '-'] + a + seq![','] + b + seq![' ', '+'] + c + seq![','] + d + seq![' ', '@', '@'] + tail);
    let p1: int = 3 + w1.len() as int;
    let p2: int = p1 + 1 + w2.len() as int;
    assert forall|k: int| 0 <= k < w1.len() implies !char_whitespace(#[trigger] w1[k]) by {
        if 1 <= k <= a.len() {
            assert(w1[k] == a[k - 1]);
            assert(crate::strs::is_digit(a[k - 1]));
        } else if k > a.len() + 1 {
            assert(w1[k] == b[k - a.len() - 2]);
            assert(crate::strs::is_digit(b[k - a.len() - 2]));
        }
    }
    assert forall|k: int| 0 <= k < w2.len() implies !char_whitespace(#[trigger] w2[k]) by {
        if 1 <= k <= c.len() {
            assert(w2[k] == c[k - 1]);
            assert(crate::strs::is_digit(c[k - 1]));
        } else if k > c.len() + 1 {
            assert(w2[k] == d[k - c.len() - 2]);
            assert(crate::strs::is_digit(d[k - c.len() - 2]));
        }
    }
    assert forall|k: int| 3 <= k < p1 implies !char_whitespace(#[trigger] s[k]) by {
        assert(s[k] == w1[k - 3]);
    }
    assert forall|k: int| p1 + 1 <= k < p2 implies !char_whitespace(#[trigger] s[k]) by {
        assert(s[k] == w2[k - p1 - 1]);
    }
    assert(s[2] == ' ' && s[p1] == ' ' && s[p2] == ' ');
    lemma_words_word(s, 0, 2);
    lemma_words_space(s, 2);
    lemma_words_word(s, 3, p1);
    lemma_words_space(s, p1);
    lemma_words_word(s, p1 + 1, p2);
    assert(s.subrange(3, p1) =~= w1);
    assert(s.subrange(p1 + 1, p2) =~= w2);
    let ws = words_from(s, 0);
    assert(ws == seq![s.subrange(0, 2)] + (seq![w1] + (seq![w2] + words_from(s, p2))));
    assert(ws[1] == w1 && ws[2] == w2 && ws.len() >= 3);
    lemma_signed_range('-', a, b);
    lemma_signed_range('+', c, d);
}

/// `p` + `a` with `a` made of digits: dropping the sign `p` gives `a`,
/// which has no comma.
proof fn lemma_signed_start(p: char, a: Seq<char>)
    requires
        all_digits(a),
    ensures
        ({
            let w = seq![p] + a;
            &&& w[0] == p
            &&& w.drop_first() == a
            &&& find_char_from(a, ',', 0) == -1
        }),
{
    assert((seq![p] + a).drop_first() =~= a);
    lemma_find_char_from(a, ',', 0);
    if find_char_from(a, ',', 0) != -1 {
        let k = find_char_from(a, ',', 0);
        assert(crate::strs::is_digit(a[k]));
    }
}

/// A range without a count counts one line: in `@@ -a +c @@...` the new
/// range starts at `c` and has one line, and there was one old line.
pub proof fn law_hunk_header_single_lines(a: Seq<char>, c: Seq<char>, tail: Seq<char>)
    requires
        a.len() > 0 && all_digits(a),
        c.len() > 0 && all_digits(c),
    ensures
        hunk_header(seq!['@', '@', ' ', '-'] + a + seq![' ', '+'] + c + seq![' ', '@', '@'] + tail)
            == Some((or_one(parse_usize_spec(c)), 1nat, 1nat)),
{
    let w1 = seq!['-'] + a;
    let w2 = seq!['+'] + c;
    let sp = seq![' '];
    let s = seq!['@', '@'] + sp + w1 + sp + w2 + sp + (seq!['@', '@'] + tail);
    assert(s =~= seq!['@', '@', ' ', '-'] + a + seq![' ', '+'] + c + seq![' ', '@', '@'] + tail);
    let p1: int = 3 + w1.len() as int;
    let p2: int = p1 + 1 + w2.len() as int;
    assert forall|k: int| 3 <= k < p1 implies !char_whitespace(#[trigger] s[k]) by {
        assert(s[k] == w1[k - 3]);
        if k > 3 {
            assert(w1[k - 3] == a[k - 4]);
            assert(crate::strs::is_digit(a[k - 4]));
        }
    }
    assert forall|k: int| p1 + 1 <= k < p2 implies !char_whitespace(#[trigger] s[k]) by {
        assert(s[k] == w2[k - p1 - 1]);
        if k > p1 + 1 {
            assert(w2[k - p1 - 1] == c[k - p1 - 2]);
            assert(crate::strs::is_digit(c[k - p1 - 2]));
        }
    }
    assert(s[2] == ' ' && s[p1] == ' ' && s[p2] == ' ');
    lemma_words_word(s, 0, 2);
    lemma_words_space(s, 2);
    lemma_words_word(s, 3, p1);
    lemma_words_space(s, p1);
    lemma_words_word(s, p1 + 1, p2);
    assert(s.subrange(3, p1) =~= w1);
    assert(s.subrange(p1 + 1, p2) =~= w2);
    let ws = words_from(s, 0);
    assert(ws == seq![s.subrange(0, 2)] + (seq![w1] + (seq![w2] + words_from(s, p2))));
    assert(ws[1] == w1 && ws[2] == w2 && ws.len() >= 3);
    lemma_signed_start('-', a);
    lemma_signed_start('+', c);
}

fn one() -> (r: Vec<char>)
    ensures
        r@ == seq!['1'],
{
    let mut v = Vec::new();
    v.push('1');
    assert(v@ =~= seq!['1']);
    v
}

fn read_hunk_header(line: &Vec<char>) -> (r: Option<(usize, usize, usize)>)
    ensures
        match r {
            Some((a, b, c)) => hunk_header(line@) == Some((a as nat, b as nat, c as nat)),
            None => hunk_header(line@) is None,
        },
{
    let is_hunk = line.len() >= 3 && line[0] == '@' && line[1] == '@' && line[2] == ' ';
    if !is_hunk {
        return None;
    }
    let parts = split_words(line);
    assert(parts@.map_values(|w: Vec<char>| w@) == words_from(line@, 0));
    if parts.len() < 3 {
        return None;
    }
    let old = &parts[1];
    let new = &parts[2];
    assert(old@ == words_from(line@, 0)[1]);
    assert(new@ == words_from(line@, 0)[2]);
    if !(new.len() > 0 && new[0] == '+') || !(old.len() > 0 && old[0] == '-') {
        return None;
    }
    let a = slice_vec(new, 1, new.len());
    assert(a@ =~= new@.drop_first());
    proof { lemma_find_char_from(a@, ',', 0); }
    let (start, count) = match find_char(&a, ',', 0) {
        Some(ca) => {
            let s = parse_usize(&slice_vec(&a, 0, ca));
            let c = parse_usize(&slice_vec(&a, ca + 1, a.len()));
            assert(a@.subrange(0, ca as int) =~= a@.take(ca as int));
            assert(a@.subrange(ca + 1, a@.len() as int) =~= a@.skip(ca + 1));
            (match s { Some(v) => v, None => 1 }, match c { Some(v) => v, None => 1 })
        },
        None => {
            let s = parse_usize(&a);
            (match s { Some(v) => v, None => 1 }, 1)
        },
    };
    let r = slice_vec(old, 1, old.len());
    assert(r@ =~= old@.drop_first());
    proof { lemma_find_char_from(r@, ',', 0); }
    let count_old = match find_char(&r, ',', 0) {
        Some(cr) => {
            let c = parse_usize(&slice_vec(&r, cr + 1, r.len()));
            assert(r@.subrange(cr + 1, r@.len() as int) =~= r@.skip(cr + 1));
            match c { Some(v) => v, None => 1 }
        },
        None => 1,
    };
    Some((start, count, count_old))
}

fn mark_range(m: &mut HashMap<usize, GitLineStatus>, base: usize, count: usize, st: GitLineStatus)
    ensures
        final(m)@ == mark_lines(old(m)@, base as nat, count as nat, st),
{
    let ghost m0 = m@;
    let mut i: usize = 0;
    while i < count
        invariant
            i <= count,
            m@ == mark_lines(m0, base as nat, i as nat, st),
        ensures
            m@ == mark_lines(m0, base as nat, count as nat, st),
        decreases count - i,
    {
        match base.checked_add(i) {
            Some(k) => {
                m.insert(k, st);
                assert(m@ =~= mark_lines(m0, base as nat, (i + 1) as nat, st));
            },
            None => {
                assert(mark_lines(m0, base as nat, i as nat, st) =~= mark_lines(m0, base as nat, count as nat, st));
                break;
            },
        }
        i = i + 1;
    }
}

/// Reads a zero-context unified diff (`git diff -U0`) into per-line states
/// and the totals of added, modified and deleted lines.  Only the hunk
/// headers are read; the counts stop at `usize::MAX`.
pub fn parse_git_diff_u0(diff: &str) -> (r: (HashMap<usize, GitLineStatus>, (usize, usize, usize)))
    ensures
        ({
            let (m, adds, mods, dels) = diff_summary(lines_from(diff@, 0));
            &&& r.0@ == m
            &&& r.1.0 == adds
            &&& r.1.1 == mods
            &&& r.1.2 == dels
        }),
{
    let cs = str_to_chars(diff);
    let lines = split_lines(&cs);
    let ghost ls = lines_from(diff@, 0);
    let mut statuses: HashMap<usize, GitLineStatus> = HashMap::new();
    let mut adds: usize = 0;
    let mut mods: usize = 0;
    let mut dels: usize = 0;
    let mut k: usize = 0;
    assert(ls.take(0) =~= Seq::<Seq<char>>::empty());
    while k < lines.len()
        invariant
            lines@.map_values(|l: Vec<char>| l@) == ls,
            k <= lines@.len(),
            ({
                let (m, a, mo, d) = diff_summary(ls.take(k as int));
                statuses@ == m && adds == a && mods == mo && dels == d
            }),
        decreases lines.len() - k,
    {
        assert(ls.take(k + 1).drop_last() =~= ls.take(k as int));
        assert(ls.take(k + 1).last() == lines@[k as int]@);
        match read_hunk_header(&lines[k]) {
            None => {},
            Some((start, count, count_old)) => {
                let base = start.saturating_sub(1);
                if count_old == 0 && count > 0 {
                    adds = adds.saturating_add(count);
                    mark_range(&mut statuses, base, count, GitLineStatus::Added);
                } else if count == 0 && count_old > 0 {
                    dels = dels.saturating_add(count_old);
                    statuses.insert(base, GitLineStatus::Deleted);
                } else {
                    mods = mods.saturating_add(count);
                    mark_range(&mut statuses, base, count, GitLineStatus::Modified);
                }
            },
        }
        k = k + 1;
    }
    assert(ls.take(k as int) =~= ls);
    (statuses, (adds, mods, dels))
}

/// State that a `git status --porcelain` code stands for, if any:
/// `??` untracked, else by the first of M, A, D that the code holds.
pub open spec fn porcelain_status(code: Seq<char>) -> Option<FileGitStatus> {
    if code == seq!['?', '?'] {
        Some(FileGitStatus::Untracked)
    } else if code.contains('M') {
        Some(FileGitStatus::Modified)
    } else if code.contains('A') {
        Some(FileGitStatus::Added)
    } else if code.contains('D') {
        Some(FileGitStatus::Deleted)
    } else {
        None
    }
}

/// The (path, state) entries that lines of `git status --porcelain` give:
/// lines longer than three bytes, the code in their first two bytes, the
/// path after the third.
pub open spec fn porcelain_entries(lines: Seq<Seq<char>>) -> Seq<(Seq<char>, FileGitStatus)>
    decreases lines.len(),
{
    if lines.len() == 0 {
        Seq::empty()
    } else {
        let rest = porcelain_entries(lines.drop_last());
        let l = lines.last();
        if utf8_len(l) > 3 {
            match (chars_at_byte(l, 2), chars_at_byte(l, 3)) {
                (Some(k2), Some(k3)) => match porcelain_status(l.take(k2)) {
                    Some(st) => rest.push((l.skip(k3), st)),
                    None => rest,
                },
                _ => rest,
            }
        } else {
            rest
        }
    }
}

/// Every line longer than three bytes can be cut after its second and its
/// third byte: no char straddles them.
pub open spec fn porcelain_ok(lines: Seq<Seq<char>>) -> bool {
    forall|i: int| 0 <= i < lines.len() && utf8_len(#[trigger] lines[i]) > 3
        ==> chars_at_byte(lines[i], 2) is Some && chars_at_byte(lines[i], 3) is Some
}

/// Whether `status` can be read as `git status --porcelain` output
/// (`porcelain_ok` of its lines).
pub fn porcelain_fits(status: &str) -> (r: bool)
    ensures
        r == porcelain_ok(lines_from(status@, 0)),
{
    let cs = str_to_chars(status);
    let lines = split_lines(&cs);
    let ghost ls = lines_from(status@, 0);
    let mut k: usize = 0;
    while k < lines.len()
        invariant
            ls == lines_from(status@, 0),
            lines@.map_values(|l: Vec<char>| l@) == ls,
            k <= lines@.len(),
            forall|i: int| 0 <= i < k && utf8_len(#[trigger] ls[i]) > 3
                ==> chars_at_byte(ls[i], 2) is Some && chars_at_byte(ls[i], 3) is Some,
        decreases lines.len() - k,
    {
        assert(ls[k as int] == lines@[k as int]@);
        let line = &lines[k];
        if bytes_exceed(line, 3) {
            let a = chars_at_byte_of(line, 2);
            let b = chars_at_byte_of(line, 3);
            if a.is_none() || b.is_none() {
                assert(utf8_len(ls[k as int]) > 3);
                assert(!(chars_at_byte(ls[k as int], 2) is Some && chars_at_byte(ls[k as int], 3) is Some));
                return false;
            }
        }
        k = k + 1;
    }
    true
}

fn code_contains(code: &Vec<char>, c: char) -> (b: bool)
    ensures
        b == code@.contains(c),
{
    let mut i: usize = 0;
    while i < code.len()
        invariant
            i <= code@.len(),
            forall|j: int| 0 <= j < i ==> code@[j] != c,
        decreases code.len() - i,
    {
        if code[i] == c {
            assert(code@[i as int] == c);
            return true;
        }
        i = i + 1;
    }
    false
}

/// Reads `git status --porcelain` output into (relative path, state) pairs,
/// in the order the lines come.
pub fn parse_porcelain(status: &str) -> (r: Vec<(String, FileGitStatus)>)
    requires
        porcelain_ok(lines_from(status@, 0)),
    ensures
        r@.map_values(|e: (String, FileGitStatus)| (e.0@, e.1)) == porcelain_entries(lines_from(status@, 0)),
{
    let cs = str_to_chars(status);
    let lines = split_lines(&cs);
    let ghost ls = lines_from(status@, 0);
    let mut out: Vec<(String, FileGitStatus)> = Vec::new();
    let mut k: usize = 0;
    assert(ls.take(0) =~= Seq::<Seq<char>>::empty());
    while k < lines.len()
        invariant
            lines@.map_values(|l: Vec<char>| l@) == ls,
            porcelain_ok(ls),
            k <= lines@.len(),
            out@.map_values(|e: (String, FileGitStatus)| (e.0@, e.1)) == porcelain_entries(ls.take(k as int)),
        decreases lines.len() - k,
    {
        assert(ls.take(k + 1).drop_last() =~= ls.take(k as int));
        assert(ls.take(k + 1).last() == lines@[k as int]@);
        let line = &lines[k];
        assert(ls[k as int] == line@);
        if bytes_exceed(line, 3) {
            let k2 = chars_at_byte_of(line, 2).unwrap();
            let k3 = chars_at_byte_of(line, 3).unwrap();
            proof {
                assert(chars_at_byte(line@, 2) == Some(k2 as int));
                crate::strs::lemma_chars_at_byte_bound(line@, 2);
                crate::strs::lemma_chars_at_byte_bound(line@, 3);
            }
            let code = slice_vec(line, 0, k2);
            assert(code@ =~= line@.take(k2 as int));
            let is_untracked = code.len() == 2 && code[0] == '?' && code[1] == '?';
            assert(is_untracked == (code@ == seq!['?', '?'])) by {
                if code@ == seq!['?', '?'] {
                    assert(code@[0] == '?' && code@[1] == '?');
                }
                if is_untracked {
                    assert(code@ =~= seq!['?', '?']);
                }
            }
            let st = if is_untracked {
                Some(FileGitStatus::Untracked)
            } else if code_contains(&code, 'M') {
                Some(FileGitStatus::Modified)
            } else if code_contains(&code, 'A') {
                Some(FileGitStatus::Added)
            } else if code_contains(&code, 'D') {
                Some(FileGitStatus::Deleted)
            } else {
                None
            };
            match st {
                Some(s) => {
                    let path = slice_vec(line, k3, line.len());
                    assert(path@ =~= line@.skip(k3 as int));
                    let ghost before = out@.map_values(|e: (String, FileGitStatus)| (e.0@, e.1));
                    out.push((crate::strs::chars_to_string(&path), s));
                    assert(out@.map_values(|e: (String, FileGitStatus)| (e.0@, e.1)) =~= before.push((path@, s)));
                },
                None => {},
            }
        }
        k = k + 1;
    }
    assert(ls.take(k as int) =~= ls);
    out
}


/// `entries` as a map keyed by path, a path taken by its components: a
/// later entry for the same file replaces an earlier one.
pub open spec fn status_map(entries: Seq<(Seq<char>, FileGitStatus)>) -> Map<Seq<Seq<char>>, FileGitStatus>
    decreases entries.len(),
{
    if entries.len() == 0 {
        Map::empty()
    } else {
        status_map(entries.drop_last()).insert(path_components(entries.last().0), entries.last().1)
    }
}

/// The recorded states by file, a file taken by the components of its path.
pub open spec fn file_status_view(v: Seq<(String, FileGitStatus)>) -> Map<Seq<Seq<char>>, FileGitStatus>
    decreases v.len(),
{
    if v.len() == 0 {
        Map::empty()
    } else {
        file_status_view(v.drop_last()).insert(path_components(v.last().0@), v.last().1)
    }
}

/// Records `st` for `path`, replacing what an earlier entry said of the
/// same file.
fn set_file_status(v: &mut Vec<(String, FileGitStatus)>, path: String, st: FileGitStatus)
    ensures
        file_status_view(final(v)@) == file_status_view(old(v)@).insert(path_components(path@), st),
{
    let ghost p = path@;
    v.push((path, st));
    assert(v@.drop_last() =~= old(v)@);
}

impl GitContext {
    /// The context that the outputs of git give: `branch_output` is what
    /// `git branch --show-current` printed (`None` when it failed: then the
    /// workspace is no repository and nothing else counts), `status_output`
    /// what `git status --porcelain` printed, and `diff_output` what
    /// `git diff -U0 HEAD -- <file>` printed for the open file.  The status
    /// output has to be readable as such (`porcelain_fits`).
    pub fn refresh(
        workspace_root: &str,
        branch_output: Option<String>,
        status_output: Option<String>,
        diff_output: Option<String>,
    ) -> (c: Self)
        requires
            branch_output is Some ==> match status_output {
                Some(st) => porcelain_ok(lines_from(st@, 0)),
                None => true,
            },
        ensures
            c.is_repo == branch_output is Some,
            match branch_output {
                None => c.branch is None && c.line_statuses@ == Map::<usize, GitLineStatus>::empty()
                    && c.stats == (0usize, 0usize, 0usize) && file_status_view(c.file_statuses@) == Map::<Seq<Seq<char>>, FileGitStatus>::empty(),
                Some(b) => {
                    &&& (if trimmed(b@).len() == 0 { c.branch is None } else { c.branch matches Some(n) && n@ == trimmed(b@) })
                    &&& file_status_view(c.file_statuses@) == match status_output {
                        Some(st) => status_map(porcelain_entries(lines_from(st@, 0)).map_values(
                            |e: (Seq<char>, FileGitStatus)| (path_join(workspace_root@, e.0), e.1))),
                        None => Map::empty(),
                    }
                    &&& match diff_output {
                        Some(d) => {
                            let (m, adds, mods, dels) = diff_summary(lines_from(d@, 0));
                            c.line_statuses@ == m && c.stats == (adds as usize, mods as usize, dels as usize)
                        },
                        None => c.line_statuses@ == Map::<usize, GitLineStatus>::empty() && c.stats == (0usize, 0usize, 0usize),
                    }
                },
            },
    {
        let mut ctx = GitContext::empty();
        assert(file_status_view(ctx.file_statuses@) =~= Map::<Seq<Seq<char>>, FileGitStatus>::empty());
        let out = match &branch_output {
            Some(o) => o,
            None => {
                return ctx;
            },
        };
        ctx.is_repo = true;
        let branch = trim_str(out.as_str());
        if branch.as_str().unicode_len() > 0 {
            ctx.branch = Some(branch);
        }
        match &status_output {
            Some(st) => {
                let entries = parse_porcelain(st.as_str());
                let ghost es = porcelain_entries(lines_from(st@, 0)).map_values(
                    |e: (Seq<char>, FileGitStatus)| (path_join(workspace_root@, e.0), e.1));
                let mut k: usize = 0;
                let ghost b0 = ctx.branch;
                assert(es.take(0) =~= Seq::<(Seq<char>, FileGitStatus)>::empty());
                while k < entries.len()
                    invariant
                        ctx.is_repo,
                        ctx.branch == b0,
                        ctx.line_statuses@ == Map::<usize, GitLineStatus>::empty(),
                        ctx.stats == (0usize, 0usize, 0usize),
                        k <= entries@.len(),
                        entries@.map_values(|e: (String, FileGitStatus)| (e.0@, e.1)) == porcelain_entries(lines_from(st@, 0)),
                        es.len() == entries@.len(),
                        es == porcelain_entries(lines_from(st@, 0)).map_values(
                            |e: (Seq<char>, FileGitStatus)| (path_join(workspace_root@, e.0), e.1)),
                        file_status_view(ctx.file_statuses@) == status_map(es.take(k as int)),
                    decreases entries.len() - k,
                {
                    let (rel, code) = &entries[k];
                    let abs = join_path(workspace_root, rel.as_str());
                    assert(es[k as int] == (path_join(workspace_root@, rel@), *code));
                    set_file_status(&mut ctx.file_statuses, abs, *code);
                    assert(es.take(k + 1).drop_last() =~= es.take(k as int));
                    k = k + 1;
                }
                assert(es.take(k as int) =~= es);
            },
            None => {},
        }
        match &diff_output {
            Some(d) => {
                let (statuses, stats) = parse_git_diff_u0(d.as_str());
                ctx.line_statuses = statuses;
                ctx.stats = stats;
            },
            None => {},
        }
        ctx
    }
}

} // verus!
