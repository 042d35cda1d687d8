//! The text store of a buffer: a `ropey::Rope` seen as a sequence of chars,
//! and the line structure that the rope derives from its line breaks.
use vstd::prelude::*;

verus! {

#[verifier::external_type_specification]
#[verifier::external_body]
pub struct ExRope(ropey::Rope);

/// The chars a rope holds, in order.
pub uninterp spec fn rope_chars(r: ropey::Rope) -> Seq<char>;

/// A char that always ends a line on its own.
pub open spec fn is_single_break(c: char) -> bool {
    c == '\n' || c == '\u{0B}' || c == '\u{0C}' || c == '\u{85}' || c == '\u{2028}' || c == '\u{2029}'
}

/// Position `j` holds the last char of a line break.  A CR directly followed
/// by LF is not the end of a break: the pair ends at the LF.
pub open spec fn is_break_end(s: Seq<char>, j: int) -> bool {
    0 <= j < s.len() && (is_single_break(s[j]) || (s[j] == '\r' && !(j + 1 < s.len() && s[j + 1] == '\n')))
}

/// Number of line breaks that end strictly before position `i`.
pub open spec fn count_breaks(s: Seq<char>, i: int) -> nat
    decreases i,
{
    if i <= 0 {
        0
    } else {
        count_breaks(s, i - 1) + if is_break_end(s, i - 1) { 1nat } else { 0nat }
    }
}

/// Index of the line holding position `i`.
pub open spec fn line_of(s: Seq<char>, i: int) -> nat {
    count_breaks(s, i)
}

/// Number of lines: one more than the number of line breaks.
pub open spec fn num_lines(s: Seq<char>) -> nat {
    count_breaks(s, s.len() as int) + 1
}

/// First position at or after `p` whose line index reaches `l`
/// (the end of the text when there is none).
pub open spec fn first_pos_of_line_from(s: Seq<char>, l: nat, p: int) -> int
    decreases s.len() - p,
{
    if p >= s.len() {
        s.len() as int
    } else if count_breaks(s, p) >= l {
        p
    } else {
        first_pos_of_line_from(s, l, p + 1)
    }
}

/// Char index where line `l` starts; the end of the text for `l == num_lines`.
pub open spec fn line_start(s: Seq<char>, l: nat) -> int {
    first_pos_of_line_from(s, l, 0)
}

/// A position directly after a line break, or the start of the text.
pub open spec fn is_line_start(s: Seq<char>, p: int) -> bool {
    p == 0 || is_break_end(s, p - 1)
}

/// Start of the line that holds position `i`.
pub open spec fn line_start_of(s: Seq<char>, i: int) -> int
    decreases i,
{
    if i <= 0 || is_break_end(s, i - 1) {
        i
    } else {
        line_start_of(s, i - 1)
    }
}

/// `Rope::new`: an empty rope.
#[verifier::external_body]
pub(crate) fn rope_new() -> (r: ropey::Rope)
    ensures
        rope_chars(r) == Seq::<char>::empty(),
{
    ropey::Rope::new()
}

/// `Rope::from_str`: a rope holding exactly the chars of `s`.
#[verifier::external_body]
pub(crate) fn rope_from_str(s: &str) -> (r: ropey::Rope)
    ensures
        rope_chars(r) == s@,
{
    ropey::Rope::from_str(s)
}

/// `Rope::len_chars`: the number of chars held.
#[verifier::external_body]
pub(crate) fn rope_len_chars(r: &ropey::Rope) -> (n: usize)
    ensures
        n == rope_chars(*r).len(),
{
    r.len_chars()
}

/// `Rope::len_lines`: one more than the number of line breaks
/// (LF, CRLF, lone CR, VT, FF, NEL, U+2028, U+2029 with the default features).
#[verifier::external_body]
pub(crate) fn rope_len_lines(r: &ropey::Rope) -> (n: usize)
    ensures
        n == num_lines(rope_chars(*r)),
{
    r.len_lines()
}

/// `Rope::char_to_line`: the number of line breaks before `i`.
#[verifier::external_body]
pub(crate) fn rope_char_to_line(r: &ropey::Rope, i: usize) -> (l: usize)
    requires
        i <= rope_chars(*r).len(),
    ensures
        l == line_of(rope_chars(*r), i as int),
{
    r.char_to_line(i)
}

/// `Rope::line_to_char`: the char index where line `l` starts, or the
/// length of the text for `l == len_lines()`.
#[verifier::external_body]
pub(crate) fn rope_line_to_char(r: &ropey::Rope, l: usize) -> (i: usize)
    requires
        l <= num_lines(rope_chars(*r)),
    ensures
        i == line_start(rope_chars(*r), l as nat),
{
    r.line_to_char(l)
}

/// `Rope::char`: the char at index `i`.
#[verifier::external_body]
pub(crate) fn rope_char(r: &ropey::Rope, i: usize) -> (c: char)
    requires
        i < rope_chars(*r).len(),
    ensures
        c == rope_chars(*r)[i as int],
{
    r.char(i)
}

/// `Rope::slice`, read out char by char: the chars in `[start, end)`.
#[verifier::external_body]
pub(crate) fn rope_slice_chars(r: &ropey::Rope, start: usize, end: usize) -> (v: Vec<char>)
    requires
        start <= end <= rope_chars(*r).len(),
    ensures
        v@ == rope_chars(*r).subrange(start as int, end as int),
{
    r.slice(start..end).chars().collect()
}

/// `Rope::insert`: `s` inserted at char index `i`.
#[verifier::external_body]
pub(crate) fn rope_insert(r: &mut ropey::Rope, i: usize, s: &str)
    requires
        i <= rope_chars(*old(r)).len(),
    ensures
        rope_chars(*final(r)) == rope_chars(*old(r)).take(i as int) + s@ + rope_chars(*old(r)).skip(i as int),
{
    r.insert(i, s)
}

/// `Rope::insert_char`: `c` inserted at char index `i`.
#[verifier::external_body]
pub(crate) fn rope_insert_char(r: &mut ropey::Rope, i: usize, c: char)
    requires
        i <= rope_chars(*old(r)).len(),
    ensures
        rope_chars(*final(r)) == rope_chars(*old(r)).take(i as int).push(c) + rope_chars(*old(r)).skip(i as int),
{
    r.insert_char(i, c)
}

/// `Rope::remove`: the chars in `[start, end)` taken out.
#[verifier::external_body]
pub(crate) fn rope_remove(r: &mut ropey::Rope, start: usize, end: usize)
    requires
        start <= end <= rope_chars(*old(r)).len(),
    ensures
        rope_chars(*final(r)) == rope_chars(*old(r)).take(start as int) + rope_chars(*old(r)).skip(end as int),
{
    r.remove(start..end)
}

/// The rope's `Display`, collected into a `String`: all chars in order.
#[verifier::external_body]
pub(crate) fn rope_to_string(r: &ropey::Rope) -> (s: String)
    ensures
        s@ == rope_chars(*r),
{
    r.to_string()
}

/// The chars of line `l`, its line break included.
pub open spec fn line_chars(s: Seq<char>, l: nat) -> Seq<char> {
    s.subrange(line_start(s, l), line_start(s, l + 1))
}

pub proof fn lemma_count_monotone(s: Seq<char>, a: int, b: int)
    requires
        a <= b,
    ensures
        count_breaks(s, a) <= count_breaks(s, b),
    decreases b - a,
{
    if a < b {
        lemma_count_monotone(s, a, b - 1);
    }
}

pub proof fn lemma_count_bounded(s: Seq<char>, i: int)
    ensures
        count_breaks(s, i) <= if i < 0 { 0 } else { i },
    decreases i,
{
    if i > 0 {
        lemma_count_bounded(s, i - 1);
    }
}

/// Before a line start every position lies on an earlier line.
pub proof fn lemma_count_strict(s: Seq<char>, q: int, p: int)
    requires
        0 < p,
        is_break_end(s, p - 1),
        q < p,
    ensures
        count_breaks(s, q) < count_breaks(s, p),
{
    lemma_count_monotone(s, q, p - 1);
}

pub proof fn lemma_line_start_of(s: Seq<char>, i: int)
    requires
        0 <= i <= s.len(),
    ensures
        0 <= line_start_of(s, i) <= i,
        is_line_start(s, line_start_of(s, i)),
        count_breaks(s, line_start_of(s, i)) == count_breaks(s, i),
        forall|j: int| line_start_of(s, i) <= j < i ==> !is_break_end(s, j),
    decreases i,
{
    if i > 0 && !is_break_end(s, i - 1) {
        lemma_line_start_of(s, i - 1);
    }
}

proof fn lemma_first_pos_is(s: Seq<char>, l: nat, q: int, p: int)
    requires
        0 <= q <= p <= s.len(),
        forall|x: int| q <= x < p ==> count_breaks(s, x) < l,
        p == s.len() || count_breaks(s, p) >= l,
    ensures
        first_pos_of_line_from(s, l, q) == p,
    decreases p - q,
{
    if q < p {
        lemma_first_pos_is(s, l, q + 1, p);
    }
}

/// The start of the line that holds `i`, found from the line's index.
pub proof fn lemma_line_start_of_line(s: Seq<char>, i: int)
    requires
        0 <= i <= s.len(),
    ensures
        line_start(s, line_of(s, i)) == line_start_of(s, i),
{
    let p = line_start_of(s, i);
    lemma_line_start_of(s, i);
    assert forall|x: int| 0 <= x < p implies count_breaks(s, x) < line_of(s, i) by {
        lemma_count_strict(s, x, p);
    }
    lemma_first_pos_is(s, line_of(s, i), 0, p);
}

proof fn lemma_first_pos_bounds(s: Seq<char>, l: nat, q: int)
    requires
        0 <= q <= s.len(),
    ensures
        q <= first_pos_of_line_from(s, l, q) <= s.len(),
    decreases s.len() - q,
{
    if q < s.len() && count_breaks(s, q) < l {
        lemma_first_pos_bounds(s, l, q + 1);
    }
}

proof fn lemma_first_pos_count(s: Seq<char>, l: nat, q: int)
    requires
        0 <= q <= s.len(),
    ensures
        forall|x: int| q <= x < first_pos_of_line_from(s, l, q) ==> count_breaks(s, x) < l,
        first_pos_of_line_from(s, l, q) == s.len() || count_breaks(s, first_pos_of_line_from(s, l, q)) >= l,
    decreases s.len() - q,
{
    if q < s.len() && count_breaks(s, q) < l {
        lemma_first_pos_count(s, l, q + 1);
    }
}

/// Line starts lie inside the text, in order, and each position before the
/// start of line `l` lies on an earlier line.
pub proof fn lemma_line_start_facts(s: Seq<char>, l: nat)
    ensures
        0 <= line_start(s, l) <= s.len(),
        line_start(s, l) <= line_start(s, l + 1),
        forall|x: int| 0 <= x < line_start(s, l) ==> count_breaks(s, x) < l,
        line_start(s, l) == s.len() || count_breaks(s, line_start(s, l)) >= l,
{
    lemma_first_pos_bounds(s, l, 0);
    lemma_first_pos_bounds(s, l + 1, 0);
    lemma_first_pos_count(s, l, 0);
    lemma_first_pos_count(s, l + 1, 0);
    let a = line_start(s, l);
    let b = line_start(s, l + 1);
    if b < a {
        assert(count_breaks(s, b) < l);
    }
}

/// A position inside line `l` is found on line `l`; the line's own start is too.
pub proof fn lemma_line_start_on_line(s: Seq<char>, l: nat)
    requires
        l < num_lines(s),
    ensures
        line_of(s, line_start(s, l)) == l,
        line_start(s, l) < line_start(s, l + 1) || line_start(s, l + 1) == s.len(),
        forall|x: int| line_start(s, l) <= x < line_start(s, l + 1) ==> #[trigger] count_breaks(s, x) == l,
{
    lemma_line_start_facts(s, l);
    lemma_line_start_facts(s, l + 1);
    let a = line_start(s, l);
    let b = line_start(s, l + 1);
    // count_breaks(s, a) >= l when a < len; it cannot jump past l at a
    if a < s.len() {
        if a > 0 {
            assert(count_breaks(s, a - 1) < l);
        }
        lemma_count_step(s, a);
    } else {
        lemma_count_monotone(s, 0, a);
        lemma_count_total_reaches(s, l);
    }
    assert forall|x: int| a <= x < b implies #[trigger] count_breaks(s, x) == l by {
        lemma_count_monotone(s, a, x);
    }
}

proof fn lemma_count_step(s: Seq<char>, a: int)
    requires
        0 <= a,
    ensures
        a > 0 ==> count_breaks(s, a) <= count_breaks(s, a - 1) + 1,
        a == 0 ==> count_breaks(s, a) == 0,
{
}

proof fn lemma_count_total_reaches(s: Seq<char>, l: nat)
    requires
        l < num_lines(s),
        line_start(s, l) == s.len(),
    ensures
        count_breaks(s, s.len() as int) == l,
{
    lemma_line_start_facts(s, l);
    if s.len() > 0 {
        assert(count_breaks(s, s.len() - 1) < l);
    }
}

} // verus!
