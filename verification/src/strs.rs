//! Conversions between `str`/`String` and vectors of chars, and the char
//! classes the editor asks about.
use vstd::prelude::*;
use unicode_segmentation::UnicodeSegmentation;
use unicode_width::UnicodeWidthStr;

verus! {

/// The chars of `s`, in order.
pub fn str_to_chars(s: &str) -> (v: Vec<char>)
    ensures
        v@ == s@,
{
    let mut v: Vec<char> = Vec::new();
    for c in it: s.chars()
        invariant
            v@ == it.seq().take(it.index() as int),
    {
        v.push(c);
    }
    v
}

/// `String: FromIterator<char>`: the string made of the chars of `v`.
#[verifier::external_body]
pub(crate) fn chars_to_string(v: &Vec<char>) -> (s: String)
    ensures
        s@ == v@,
{
    v.iter().collect::<String>()
}

/// `char::to_string`: the one-char string.
#[verifier::external_body]
pub(crate) fn char_to_string(c: char) -> (s: String)
    ensures
        s@ == seq![c],
{
    c.to_string()
}

/// The Unicode `White_Space` property, which `char::is_whitespace` answers:
/// tab to carriage return, space, next line, no-break space, ogham space
/// mark, the spaces from en quad to hair space, line and paragraph
/// separators, narrow no-break space, medium mathematical space and
/// ideographic space.
pub open spec fn char_whitespace(c: char) -> bool {
    let u = c as u32;
    ||| 0x09 <= u <= 0x0d
    ||| u == 0x20
    ||| u == 0x85
    ||| u == 0xa0
    ||| u == 0x1680
    ||| 0x2000 <= u <= 0x200a
    ||| u == 0x2028
    ||| u == 0x2029
    ||| u == 0x202f
    ||| u == 0x205f
    ||| u == 0x3000
}

/// `char::is_whitespace`.
pub fn is_whitespace(c: char) -> (b: bool)
    ensures
        b == char_whitespace(c),
{
    let u = c as u32;
    (0x09 <= u && u <= 0x0d) || u == 0x20 || u == 0x85 || u == 0xa0 || u == 0x1680 || (0x2000 <= u && u <= 0x200a)
        || u == 0x2028 || u == 0x2029 || u == 0x202f || u == 0x205f || u == 0x3000
}

/// What `char::is_alphanumeric` answers (`Alphabetic` or `Numeric`).
pub uninterp spec fn char_alphanumeric(c: char) -> bool;

/// `char::is_alphanumeric`.
#[verifier::external_body]
pub(crate) fn is_alphanumeric(c: char) -> (b: bool)
    ensures
        b == char_alphanumeric(c),
{
    c.is_alphanumeric()
}

/// ASCII punctuation: `!`..`/`, `:`..`@`, `[`..`` ` ``, `{`..`~`.
pub open spec fn ascii_punctuation(c: char) -> bool {
    ('!' <= c <= '/') || (':' <= c <= '@') || ('[' <= c <= '`') || ('{' <= c <= '~')
}

pub fn is_ascii_punctuation(c: char) -> (b: bool)
    ensures
        b == ascii_punctuation(c),
{
    ('!' <= c && c <= '/') || (':' <= c && c <= '@') || ('[' <= c && c <= '`') || ('{' <= c && c <= '~')
}

/// Number of UTF-16 code units that encode `c`.
pub open spec fn utf16_len(c: char) -> nat {
    if (c as u32) < 0x10000 { 1 } else { 2 }
}

pub fn len_utf16(c: char) -> (n: usize)
    ensures
        n == utf16_len(c),
{
    if (c as u32) < 0x10000 { 1 } else { 2 }
}

/// Total UTF-16 length of a char sequence.
pub open spec fn utf16_total(s: Seq<char>) -> nat
    decreases s.len(),
{
    if s.len() == 0 { 0 } else { utf16_total(s.drop_last()) + utf16_len(s.last()) }
}

/// The extended grapheme clusters that `unicode-segmentation` finds in a text.
pub uninterp spec fn graphemes(s: Seq<char>) -> Seq<Seq<char>>;

/// Every char is printable ASCII, from the space to the tilde.
pub open spec fn printable_ascii(s: Seq<char>) -> bool {
    forall|i: int| 0 <= i < s.len() ==> 0x20 <= (#[trigger] s[i]) as u32 <= 0x7e
}

/// Length of `s` without a final LF or CRLF.
pub open spec fn body_len(s: Seq<char>) -> int {
    if s.len() > 0 && s.last() == '\n' {
        if s.len() > 1 && s[s.len() - 2] == '\r' { s.len() - 2 } else { s.len() - 1 }
    } else {
        s.len() as int
    }
}

/// A line of printable ASCII, ended by LF, CRLF or nothing.
pub open spec fn ascii_line(s: Seq<char>) -> bool {
    printable_ascii(s.take(body_len(s)))
}

/// The clusters of an ASCII line: one per char, then its line break whole.
pub open spec fn ascii_clusters(s: Seq<char>) -> Seq<Seq<char>> {
    let b = body_len(s);
    Seq::new(b as nat, |i: int| seq![s[i]]) + if b < s.len() { seq![s.skip(b)] } else { Seq::empty() }
}

/// `UnicodeSegmentation::graphemes(s, true)`, each cluster as a `String`.
/// The clusters are consecutive non-empty pieces that together make up `s`.
/// The crate gives each printable ASCII char the category `Any`, which
/// breaks on both sides, and keeps CR LF together, so a line of printable
/// ASCII splits into its chars and its line break.
#[verifier::external_body]
pub(crate) fn graphemes_of(s: &str) -> (v: Vec<String>)
    ensures
        v@.map_values(|g: String| g@) == graphemes(s@),
        v@.map_values(|g: String| g@).flatten() == s@,
        forall|k: int| 0 <= k < v@.len() ==> #[trigger] v@[k]@.len() > 0,
        ascii_line(s@) ==> v@.map_values(|g: String| g@) == ascii_clusters(s@),
{
    s.graphemes(true).map(|g| g.to_string()).collect()
}

/// The display width in terminal columns that `unicode-width` gives a text.
pub uninterp spec fn display_width(s: Seq<char>) -> usize;

/// `UnicodeWidthStr::width`.  Each printable ASCII char is one column
/// wide, so such a text is as wide as it is long.
#[verifier::external_body]
pub(crate) fn str_width(s: &str) -> (w: usize)
    ensures
        w == display_width(s@),
        printable_ascii(s@) ==> w == s@.len(),
{
    s.width()
}

/// Index of the first `c` at or after `from`, or -1.
pub open spec fn find_char_from(s: Seq<char>, c: char, from: int) -> int
    decreases s.len() - from,
{
    if from < 0 || from >= s.len() {
        -1
    } else if s[from] == c {
        from
    } else {
        find_char_from(s, c, from + 1)
    }
}

pub proof fn lemma_find_char_from(s: Seq<char>, c: char, from: int)
    requires
        0 <= from,
    ensures
        find_char_from(s, c, from) == -1 || (from <= find_char_from(s, c, from) < s.len() && s[find_char_from(s, c, from)] == c),
        find_char_from(s, c, from) == -1 ==> forall|j: int| from <= j < s.len() ==> s[j] != c,
        find_char_from(s, c, from) != -1 ==> forall|j: int| from <= j < find_char_from(s, c, from) ==> s[j] != c,
    decreases s.len() - from,
{
    if from < s.len() && s[from] != c {
        lemma_find_char_from(s, c, from + 1);
    }
}

pub fn find_char(s: &Vec<char>, c: char, from: usize) -> (r: Option<usize>)
    ensures
        match r {
            Some(p) => p == find_char_from(s@, c, from as int),
            None => find_char_from(s@, c, from as int) == -1,
        },
{
    let mut i = from;
    while i < s.len()
        invariant
            from <= i,
            find_char_from(s@, c, from as int) == find_char_from(s@, c, i as int),
        decreases s.len() - i,
    {
        if s[i] == c {
            return Some(i);
        }
        i = i + 1;
    }
    None
}

/// `line` without one trailing CR.
pub open spec fn strip_cr(line: Seq<char>) -> Seq<char> {
    if line.len() > 0 && line.last() == '\r' { line.drop_last() } else { line }
}

/// The lines of `s` from position `start` on, as `str::lines` gives them:
/// split after each LF, the LF and a CR before it dropped, no empty last line.
pub open spec fn lines_from(s: Seq<char>, start: int) -> Seq<Seq<char>>
    decreases s.len() - start,
{
    if start < 0 || start >= s.len() {
        Seq::empty()
    } else {
        let p = find_char_from(s, '\n', start);
        if p < 0 {
            seq![s.subrange(start, s.len() as int)]
        } else {
            proof {
                lemma_find_char_from(s, '\n', start);
            }
            seq![strip_cr(s.subrange(start, p))] + lines_from(s, p + 1)
        }
    }
}

/// `str::lines`.
pub fn split_lines(s: &Vec<char>) -> (r: Vec<Vec<char>>)
    ensures
        r@.map_values(|l: Vec<char>| l@) == lines_from(s@, 0),
{
    let mut r: Vec<Vec<char>> = Vec::new();
    let mut start: usize = 0;
    while start < s.len()
        invariant
            start <= s@.len(),
            r@.map_values(|l: Vec<char>| l@) + lines_from(s@, start as int) == lines_from(s@, 0),
        decreases s.len() - start,
    {
        let ghost before = r@.map_values(|l: Vec<char>| l@);
        proof { lemma_find_char_from(s@, '\n', start as int); }
        match find_char(s, '\n', start) {
            Some(p) => {
                let mut end = p;
                if end > start && s[end - 1] == '\r' {
                    end = end - 1;
                }
                let line = slice_vec(s, start, end);
                assert(line@ == strip_cr(s@.subrange(start as int, p as int)));
                r.push(line);
                assert(r@.map_values(|l: Vec<char>| l@) =~= before.push(line@));
                start = p + 1;
            },
            None => {
                let line = slice_vec(s, start, s.len());
                r.push(line);
                assert(r@.map_values(|l: Vec<char>| l@) =~= before.push(line@));
                start = s.len();
            },
        }
    }
    r
}

/// The chars `[a, b)` of `s`.
pub fn slice_vec(s: &Vec<char>, a: usize, b: usize) -> (r: Vec<char>)
    requires
        a <= b <= s@.len(),
    ensures
        r@ == s@.subrange(a as int, b as int),
{
    let mut r: Vec<char> = Vec::new();
    let mut i = a;
    while i < b
        invariant
            a <= i <= b <= s@.len(),
            r@ == s@.subrange(a as int, i as int),
        decreases b - i,
    {
        r.push(s[i]);
        i = i + 1;
        assert(r@ =~= s@.subrange(a as int, i as int));
    }
    r
}

/// Start of the first non-whitespace char at or after `i` (or the end).
pub open spec fn skip_ws(s: Seq<char>, i: int) -> int
    decreases s.len() - i,
{
    if i < 0 || i >= s.len() || !char_whitespace(s[i]) { i } else { skip_ws(s, i + 1) }
}

/// End of the run of non-whitespace chars that starts at `i`.
pub open spec fn word_end(s: Seq<char>, i: int) -> int
    decreases s.len() - i,
{
    if i < 0 || i >= s.len() || char_whitespace(s[i]) { i } else { word_end(s, i + 1) }
}

pub proof fn lemma_skip_ws(s: Seq<char>, i: int)
    requires
        0 <= i <= s.len(),
    ensures
        i <= skip_ws(s, i) <= s.len(),
        skip_ws(s, i) < s.len() ==> !char_whitespace(s[skip_ws(s, i)]),
    decreases s.len() - i,
{
    if i < s.len() && char_whitespace(s[i]) {
        lemma_skip_ws(s, i + 1);
    }
}

pub proof fn lemma_word_end(s: Seq<char>, i: int)
    requires
        0 <= i <= s.len(),
    ensures
        i <= word_end(s, i) <= s.len(),
        i < s.len() && !char_whitespace(s[i]) ==> i < word_end(s, i),
    decreases s.len() - i,
{
    if i < s.len() && !char_whitespace(s[i]) {
        lemma_word_end(s, i + 1);
    }
}

/// The whitespace-separated words of `s` from position `i` on
/// (`str::split_whitespace`).
pub open spec fn words_from(s: Seq<char>, i: int) -> Seq<Seq<char>>
    decreases s.len() - i,
{
    if i < 0 || i > s.len() {
        Seq::empty()
    } else {
        let a = skip_ws(s, i);
        proof {
            lemma_skip_ws(s, i);
        }
        if a >= s.len() {
            Seq::empty()
        } else {
            let b = word_end(s, a);
            proof {
                lemma_word_end(s, a);
            }
            seq![s.subrange(a, b)] + words_from(s, b)
        }
    }
}

/// `str::split_whitespace`.
pub fn split_words(s: &Vec<char>) -> (r: Vec<Vec<char>>)
    ensures
        r@.map_values(|w: Vec<char>| w@) == words_from(s@, 0),
{
    let mut r: Vec<Vec<char>> = Vec::new();
    let mut i: usize = 0;
    while i < s.len()
        invariant
            i <= s@.len(),
            r@.map_values(|w: Vec<char>| w@) + words_from(s@, i as int) == words_from(s@, 0),
        decreases s.len() - i,
    {
        let ghost before = r@.map_values(|w: Vec<char>| w@);
        proof { lemma_skip_ws(s@, i as int); }
        let mut a = i;
        while a < s.len() && is_whitespace(s[a])
            invariant
                i <= a <= s@.len(),
                skip_ws(s@, i as int) == skip_ws(s@, a as int),
            decreases s.len() - a,
        {
            a = a + 1;
        }
        if a >= s.len() {
            assert(words_from(s@, i as int) =~= Seq::<Seq<char>>::empty());
            i = s.len();
            assert(words_from(s@, i as int) =~= Seq::<Seq<char>>::empty());
        } else {
            proof { lemma_word_end(s@, a as int); }
            let mut b = a;
            while b < s.len() && !is_whitespace(s[b])
                invariant
                    a <= b <= s@.len(),
                    word_end(s@, a as int) == word_end(s@, b as int),
                decreases s.len() - b,
            {
                b = b + 1;
            }
            let w = slice_vec(s, a, b);
            r.push(w);
            assert(r@.map_values(|w: Vec<char>| w@) =~= before.push(w@));
            i = b;
        }
    }
    proof {
        if i == s.len() {
            assert(words_from(s@, i as int) =~= Seq::<Seq<char>>::empty());
        }
    }
    r
}

pub open spec fn is_digit(c: char) -> bool {
    '0' <= c <= '9'
}

/// Value of a string of decimal digits.
pub open spec fn digits_value(d: Seq<char>) -> nat
    decreases d.len(),
{
    if d.len() == 0 { 0 } else { digits_value(d.drop_last()) * 10 + (d.last() as nat - '0' as nat) as nat }
}

/// What `usize::from_str` accepts: an optional `+` and at least one digit,
/// with a value that fits.
pub open spec fn parse_usize_spec(s: Seq<char>) -> Option<usize> {
    let d = unsigned_digits(s);
    if d.len() > 0 && all_digits(d) && digits_value(d) <= usize::MAX {
        Some(digits_value(d) as usize)
    } else {
        None
    }
}

/// `s` without one leading `+`.
pub open spec fn unsigned_digits(s: Seq<char>) -> Seq<char> {
    if s.len() > 0 && s[0] == '+' { s.drop_first() } else { s }
}

pub open spec fn all_digits(d: Seq<char>) -> bool {
    forall|k: int| 0 <= k < d.len() ==> is_digit(#[trigger] d[k])
}

/// `usize::from_str`.
pub fn parse_usize(s: &Vec<char>) -> (r: Option<usize>)
    ensures
        r == parse_usize_spec(s@),
{
    let start: usize = if s.len() > 0 && s[0] == '+' { 1 } else { 0 };
    let ghost d = unsigned_digits(s@);
    assert(d =~= s@.skip(start as int));
    if start >= s.len() {
        return None;
    }
    let mut v: u128 = 0;
    let mut i = start;
    while i < s.len()
        invariant
            start <= i <= s@.len(),
            d == s@.skip(start as int),
            d == unsigned_digits(s@),
            v == digits_value(d.take(i - start)),
            v <= usize::MAX,
            forall|k: int| 0 <= k < i - start ==> is_digit(#[trigger] d[k]),
        decreases s.len() - i,
    {
        let c = s[i];
        if !('0' <= c && c <= '9') {
            assert(!is_digit(d[i - start]));
            assert(!all_digits(d));
            return None;
        }
        let dv = (c as u32 - '0' as u32) as u128;
        assert(d.take(i - start + 1).drop_last() =~= d.take(i - start));
        assert(d.take(i - start + 1).last() == c);
        v = v * 10 + dv;
        i = i + 1;
        if v > usize::MAX as u128 {
            proof {
                if all_digits(d) {
                    lemma_digits_value_grows(d, (i - start) as int);
                }
            }
            return None;
        }
    }
    assert(d.take(i - start) =~= d);
    Some(v as usize)
}

proof fn lemma_digits_value_grows(d: Seq<char>, k: int)
    requires
        0 <= k <= d.len(),
        forall|j: int| 0 <= j < d.len() ==> is_digit(#[trigger] d[j]),
    ensures
        digits_value(d) >= digits_value(d.take(k)),
    decreases d.len() - k,
{
    if k < d.len() {
        lemma_digits_value_grows(d, k + 1);
        assert(d.take(k + 1).drop_last() =~= d.take(k));
    } else {
        assert(d.take(k) =~= d);
    }
}

/// End of `s[..i]` once trailing whitespace is dropped.
pub open spec fn rskip_ws(s: Seq<char>, i: int) -> int
    decreases i,
{
    if i <= 0 || i > s.len() || !char_whitespace(s[i - 1]) { i } else { rskip_ws(s, i - 1) }
}

/// `str::trim`: `s` without leading and trailing whitespace.
pub open spec fn trimmed(s: Seq<char>) -> Seq<char> {
    let a = skip_ws(s, 0);
    let b = rskip_ws(s, s.len() as int);
    if a < b { s.subrange(a, b) } else { Seq::empty() }
}

pub proof fn lemma_rskip_ws(s: Seq<char>, i: int)
    requires
        0 <= i <= s.len(),
    ensures
        0 <= rskip_ws(s, i) <= i,
    decreases i,
{
    if i > 0 && char_whitespace(s[i - 1]) {
        lemma_rskip_ws(s, i - 1);
    }
}

/// `str::trim`.
pub fn trim_chars(s: &Vec<char>) -> (r: Vec<char>)
    ensures
        r@ == trimmed(s@),
{
    proof {
        lemma_skip_ws(s@, 0);
        lemma_rskip_ws(s@, s@.len() as int);
    }
    let mut a: usize = 0;
    while a < s.len() && is_whitespace(s[a])
        invariant
            a <= s@.len(),
            skip_ws(s@, 0) == skip_ws(s@, a as int),
        decreases s.len() - a,
    {
        a = a + 1;
    }
    let mut b: usize = s.len();
    while b > 0 && is_whitespace(s[b - 1])
        invariant
            b <= s@.len(),
            rskip_ws(s@, s@.len() as int) == rskip_ws(s@, b as int),
        decreases b,
    {
        b = b - 1;
    }
    if a < b {
        slice_vec(s, a, b)
    } else {
        Vec::new()
    }
}

/// `str::trim` on a `str`, giving a `String`.
pub fn trim_str(s: &str) -> (r: String)
    ensures
        r@ == trimmed(s@),
{
    let cs = str_to_chars(s);
    let t = trim_chars(&cs);
    chars_to_string(&t)
}

/// The decimal digit for `d < 10`.
pub open spec fn digit_char(d: nat) -> char {
    seq!['0', '1', '2', '3', '4', '5', '6', '7', '8', '9'][d as int]
}

/// `n` written in decimal, without leading zeros.
pub open spec fn decimal(n: nat) -> Seq<char>
    decreases n,
{
    if n < 10 {
        seq![digit_char(n)]
    } else {
        decimal(n / 10).push(digit_char(n % 10))
    }
}

/// `n` in decimal, as chars.
pub fn decimal_chars(n: usize) -> (r: Vec<char>)
    ensures
        r@ == decimal(n as nat),
{
    let digits: [char; 10] = ['0', '1', '2', '3', '4', '5', '6', '7', '8', '9'];
    assert(digits@ =~= seq!['0', '1', '2', '3', '4', '5', '6', '7', '8', '9']);
    // Collect the digits from the last, then put them in order.
    let mut rev: Vec<char> = Vec::new();
    let mut m: usize = n;
    loop
        invariant_except_break
            decimal(n as nat) == decimal(m as nat) + rev@.reverse(),
        invariant
            digits@ == seq!['0', '1', '2', '3', '4', '5', '6', '7', '8', '9'],
        ensures
            decimal(n as nat) == rev@.reverse(),
        decreases m,
    {
        let d = m % 10;
        rev.push(digits[d]);
        if m < 10 {
            assert(rev@.reverse() =~= seq![digit_char(m as nat)] + rev@.drop_last().reverse());
            assert(decimal(m as nat) == seq![digit_char(m as nat)]);
            assert(decimal(n as nat) =~= rev@.reverse());
            break;
        }
        assert(rev@.reverse() =~= seq![digit_char((m % 10) as nat)] + rev@.drop_last().reverse());
        assert(decimal(m as nat) == decimal((m / 10) as nat).push(digit_char((m % 10) as nat)));
        assert(decimal(m as nat) + rev@.drop_last().reverse() =~= decimal((m / 10) as nat) + rev@.reverse());
        m = m / 10;
    }
    let mut out: Vec<char> = Vec::new();
    let mut i: usize = rev.len();
    while i > 0
        invariant
            i <= rev@.len(),
            out@ == rev@.subrange(i as int, rev@.len() as int).reverse(),
        decreases i,
    {
        i = i - 1;
        out.push(rev[i]);
        assert(out@ =~= rev@.subrange(i as int, rev@.len() as int).reverse());
    }
    assert(rev@.subrange(0, rev@.len() as int) =~= rev@);
    assert(out@ =~= decimal(n as nat));
    out
}

/// `n` in decimal.
pub fn decimal_string(n: usize) -> (r: String)
    ensures
        r@ == decimal(n as nat),
{
    let cs = decimal_chars(n);
    chars_to_string(&cs)
}

/// Bytes of `c` in UTF-8.
pub open spec fn utf8_width(c: char) -> nat {
    if (c as u32) < 0x80 {
        1
    } else if (c as u32) < 0x800 {
        2
    } else if (c as u32) < 0x10000 {
        3
    } else {
        4
    }
}

/// Bytes of `s` in UTF-8: what `str::len` gives.
pub open spec fn utf8_len(s: Seq<char>) -> nat
    decreases s.len(),
{
    if s.len() == 0 {
        0
    } else {
        utf8_len(s.drop_last()) + utf8_width(s.last())
    }
}

/// The UTF-8 length of `s`.
pub fn utf8_len_of(s: &Vec<char>) -> (n: usize)
    requires
        utf8_len(s@) <= usize::MAX,
    ensures
        n == utf8_len(s@),
{
    let mut n: usize = 0;
    let mut i: usize = 0;
    while i < s.len()
        invariant
            i <= s@.len(),
            utf8_len(s@) <= usize::MAX,
            n == utf8_len(s@.take(i as int)),
        decreases s.len() - i,
    {
        proof {
            assert(s@.take(i + 1).drop_last() =~= s@.take(i as int));
            lemma_utf8_len_prefix(s@, i + 1);
        }
        let c = s[i];
        let w: usize = if (c as u32) < 0x80 {
            1
        } else if (c as u32) < 0x800 {
            2
        } else if (c as u32) < 0x10000 {
            3
        } else {
            4
        };
        n = n + w;
        i = i + 1;
    }
    assert(s@.take(i as int) =~= s@);
    n
}

pub proof fn lemma_utf8_len_prefix(s: Seq<char>, k: int)
    requires
        0 <= k <= s.len(),
    ensures
        utf8_len(s.take(k)) <= utf8_len(s),
    decreases s.len() - k,
{
    if k < s.len() {
        lemma_utf8_len_prefix(s, k + 1);
        assert(s.take(k + 1).drop_last() =~= s.take(k));
    } else {
        assert(s.take(k) =~= s);
    }
}

/// The number of leading chars of `s`, from `k` on, whose UTF-8 bytes come
/// to exactly `n`, if some prefix does.
pub open spec fn chars_at_byte_from(s: Seq<char>, n: int, k: int) -> Option<int>
    decreases s.len() + 1 - k,
{
    if k < 0 || k > s.len() {
        None
    } else if utf8_len(s.take(k)) == n {
        Some(k)
    } else if utf8_len(s.take(k)) > n {
        None
    } else {
        chars_at_byte_from(s, n, k + 1)
    }
}

/// How many leading chars make up the first `n` bytes of `s`: `None` when
/// byte `n` falls inside a char or past the end.
pub open spec fn chars_at_byte(s: Seq<char>, n: int) -> Option<int> {
    chars_at_byte_from(s, n, 0)
}

fn char_width(c: char) -> (w: usize)
    ensures
        w == utf8_width(c),
        1 <= w <= 4,
{
    if (c as u32) < 0x80 {
        1
    } else if (c as u32) < 0x800 {
        2
    } else if (c as u32) < 0x10000 {
        3
    } else {
        4
    }
}

/// See `chars_at_byte`.
pub fn chars_at_byte_of(s: &Vec<char>, n: usize) -> (r: Option<usize>)
    requires
        n <= 8,
    ensures
        match r {
            Some(k) => chars_at_byte(s@, n as int) == Some(k as int),
            None => chars_at_byte(s@, n as int) is None,
        },
{
    let mut k: usize = 0;
    let mut b: usize = 0;
    assert(s@.take(0) =~= Seq::<char>::empty());
    loop
        invariant
            k <= s@.len(),
            b == utf8_len(s@.take(k as int)),
            b <= n,
            n <= 8,
            chars_at_byte(s@, n as int) == chars_at_byte_from(s@, n as int, k as int),
        decreases s@.len() - k,
    {
        if b == n {
            return Some(k);
        }
        if k == s.len() {
            assert(chars_at_byte_from(s@, n as int, k + 1) is None);
            return None;
        }
        let w = char_width(s[k]);
        assert(s@.take(k + 1).drop_last() =~= s@.take(k as int));
        k = k + 1;
        b = b + w;
        if b > n {
            return None;
        }
    }
}

/// A count that `chars_at_byte` gives is a number of chars of `s`.
pub proof fn lemma_chars_at_byte_bound(s: Seq<char>, n: int)
    ensures
        chars_at_byte(s, n) matches Some(k) ==> 0 <= k <= s.len() && utf8_len(s.take(k)) == n,
{
    lemma_chars_at_byte_from(s, n, 0);
}

proof fn lemma_chars_at_byte_from(s: Seq<char>, n: int, k: int)
    ensures
        chars_at_byte_from(s, n, k) matches Some(j) ==> k <= j <= s.len() && 0 <= j && utf8_len(s.take(j)) == n,
    decreases s.len() + 1 - k,
{
    if 0 <= k <= s.len() && utf8_len(s.take(k)) < n {
        lemma_chars_at_byte_from(s, n, k + 1);
    }
}

/// Whether `s` takes more than `n` bytes in UTF-8.
pub fn bytes_exceed(s: &Vec<char>, n: usize) -> (r: bool)
    requires
        n <= 8,
    ensures
        r == (utf8_len(s@) > n),
{
    let mut k: usize = 0;
    let mut b: usize = 0;
    assert(s@.take(0) =~= Seq::<char>::empty());
    while k < s.len() && b <= n
        invariant
            k <= s@.len(),
            b == utf8_len(s@.take(k as int)),
            b <= n + 4,
            n <= 8,
        decreases s@.len() - k,
    {
        let w = char_width(s[k]);
        assert(s@.take(k + 1).drop_last() =~= s@.take(k as int));
        k = k + 1;
        b = b + w;
    }
    proof {
        lemma_utf8_len_prefix(s@, k as int);
        if k == s.len() {
            assert(s@.take(k as int) =~= s@);
        }
    }
    b > n
}

/// No char takes more than four bytes.
pub proof fn lemma_utf8_len_bound(s: Seq<char>)
    ensures
        utf8_len(s) <= 4 * s.len(),
    decreases s.len(),
{
    if s.len() > 0 {
        lemma_utf8_len_bound(s.drop_last());
    }
}

} // verus!

