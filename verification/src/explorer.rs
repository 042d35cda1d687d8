//! The file tree panel and the search over the files of a workspace.
use vstd::prelude::*;
use vstd::string::*;
use vstd::multiset::Multiset;
use crate::strs::{str_to_chars, trim_str, trimmed};
use crate::paths::{parent_of, path_parent, strip_prefix_of, path_strip_prefix};
use fuzzy_matcher::FuzzyMatcher;

verus! {

broadcast use vstd::seq_lib::group_to_multiset_ensures, vstd::multiset::group_multiset_axioms;

/// The selection of a list widget: the selected row, and the first row shown.
#[derive(Clone, Copy, Debug, PartialEq, Eq, Structural)]
pub struct ListSelection {
    pub offset: usize,
    pub selected: Option<usize>,
}

impl ListSelection {
    /// Nothing selected, shown from the top.
    pub fn new() -> (s: Self)
        ensures
            s.offset == 0,
            s.selected is None,
    {
        ListSelection { offset: 0, selected: None }
    }

    pub open spec fn new_spec() -> Self {
        ListSelection { offset: 0, selected: None }
    }

    pub fn selected(&self) -> (r: Option<usize>)
        ensures
            r == self.selected,
    {
        self.selected
    }

    pub fn offset(&self) -> (r: usize)
        ensures
            r == self.offset,
    {
        self.offset
    }

    /// Selects `index`; clearing the selection also scrolls back to the top.
    pub fn select(&mut self, index: Option<usize>)
        ensures
            final(self).selected == index,
            final(self).offset == if index is None { 0 } else { old(self).offset },
    {
        self.selected = index;
        if index.is_none() {
            self.offset = 0;
        }
    }
}

/// A row of the file tree: a file, a directory, or the parent (`..`).
pub struct ExplorerEntry {
    pub path: String,
    pub name: String,
    pub is_dir: bool,
}

/// A line of a workspace file that a text search found.
#[derive(Clone, Debug)]
pub struct WorkspaceTextMatch {
    pub path: String,
    pub line_idx: usize,
    pub char_offset: usize,
    pub line_preview: String,
}

/// `a` sorts before or with `b`: lexicographic order of code points, which
/// is the order of `String`'s `Ord`.
pub open spec fn lex_le(a: Seq<char>, b: Seq<char>) -> bool
    decreases a.len(),
{
    if a.len() == 0 {
        true
    } else if b.len() == 0 {
        false
    } else if a[0] != b[0] {
        a[0] < b[0]
    } else {
        lex_le(a.drop_first(), b.drop_first())
    }
}

pub proof fn lemma_lex_total(a: Seq<char>, b: Seq<char>)
    ensures
        lex_le(a, b) || lex_le(b, a),
    decreases a.len(),
{
    if a.len() > 0 && b.len() > 0 {
        if a[0] == b[0] {
            lemma_lex_total(a.drop_first(), b.drop_first());
        }
    }
}

pub proof fn lemma_lex_trans(a: Seq<char>, b: Seq<char>, c: Seq<char>)
    requires
        lex_le(a, b),
        lex_le(b, c),
    ensures
        lex_le(a, c),
    decreases a.len(),
{
    if a.len() > 0 && b.len() > 0 && c.len() > 0 && a[0] == b[0] && b[0] == c[0] {
        lemma_lex_trans(a.drop_first(), b.drop_first(), c.drop_first());
    }
}

/// `lex_le` on char vectors.
pub fn chars_le(a: &Vec<char>, b: &Vec<char>) -> (r: bool)
    ensures
        r == lex_le(a@, b@),
{
    let mut i: usize = 0;
    assert(a@.skip(0) =~= a@);
    assert(b@.skip(0) =~= b@);
    while i < a.len() && i < b.len() && a[i] == b[i]
        invariant
            i <= a@.len(),
            i <= b@.len(),
            lex_le(a@, b@) == lex_le(a@.skip(i as int), b@.skip(i as int)),
        decreases a.len() - i,
    {
        assert(a@.skip(i as int).drop_first() =~= a@.skip(i + 1));
        assert(b@.skip(i as int).drop_first() =~= b@.skip(i + 1));
        i = i + 1;
    }
    if i == a.len() {
        true
    } else if i == b.len() {
        false
    } else {
        a[i] < b[i]
    }
}

pub open spec fn sorted_by_name(s: Seq<ExplorerEntry>) -> bool {
    forall|i: int, j: int| 0 <= i < j < s.len() ==> lex_le(#[trigger] s[i].name@, #[trigger] s[j].name@)
}

/// Index of a first entry with the smallest name in `v[from..]`.
fn min_name_index(v: &Vec<ExplorerEntry>) -> (m: usize)
    requires
        v@.len() > 0,
    ensures
        m < v@.len(),
        forall|j: int| 0 <= j < v@.len() ==> lex_le(v@[m as int].name@, #[trigger] v@[j].name@),
{
    let mut m: usize = 0;
    let mut best = str_to_chars(v[0].name.as_str());
    let mut i: usize = 1;
    proof { lemma_lex_total(best@, best@); }
    while i < v.len()
        invariant
            m < i <= v@.len(),
            best@ == v@[m as int].name@,
            forall|j: int| 0 <= j < i ==> lex_le(v@[m as int].name@, #[trigger] v@[j].name@),
        decreases v.len() - i,
    {
        let cur = str_to_chars(v[i].name.as_str());
        if !chars_le(&best, &cur) {
            proof {
                lemma_lex_total(best@, cur@);
                assert forall|j: int| 0 <= j <= i implies lex_le(cur@, #[trigger] v@[j].name@) by {
                    if j < i {
                        lemma_lex_trans(cur@, best@, v@[j].name@);
                    } else {
                        lemma_lex_total(cur@, cur@);
                    }
                }
            }
            m = i;
            best = cur;
        }
        i = i + 1;
    }
    m
}

/// The entries sorted by name (a permutation of `v`).
pub fn sort_by_name(v: Vec<ExplorerEntry>) -> (r: Vec<ExplorerEntry>)
    ensures
        sorted_by_name(r@),
        r@.to_multiset() == v@.to_multiset(),
{
    let mut rest = v;
    let mut out: Vec<ExplorerEntry> = Vec::new();
    while rest.len() > 0
        invariant
            sorted_by_name(out@),
            out@.to_multiset().add(rest@.to_multiset()) == v@.to_multiset(),
            forall|i: int, j: int| 0 <= i < out@.len() && 0 <= j < rest@.len() ==> lex_le(#[trigger] out@[i].name@, #[trigger] rest@[j].name@),
        decreases rest@.len(),
    {
        let m = min_name_index(&rest);
        let ghost r0 = rest@;
        let e = rest.remove(m);
        assert(rest@ == r0.remove(m as int));
        assert(r0.remove(m as int).to_multiset() == r0.to_multiset().remove(r0[m as int]));
        let ghost o0 = out@;
        out.push(e);
        assert(out@ == o0.push(e));
        assert forall|j: int| 0 <= j < rest@.len() implies lex_le(e.name@, #[trigger] rest@[j].name@) by {
            if j < m {
                assert(rest@[j] == r0[j]);
            } else {
                assert(rest@[j] == r0[j + 1]);
            }
        }
        assert forall|i: int, j: int| 0 <= i < out@.len() && 0 <= j < rest@.len() implies lex_le(#[trigger] out@[i].name@, #[trigger] rest@[j].name@) by {
            if i < o0.len() {
                assert(out@[i] == o0[i]);
                if j < m {
                    assert(rest@[j] == r0[j]);
                } else {
                    assert(rest@[j] == r0[j + 1]);
                }
            }
        }
        assert forall|i: int, j: int| 0 <= i < j < out@.len() implies lex_le(#[trigger] out@[i].name@, #[trigger] out@[j].name@) by {
            if j == o0.len() {
                assert(out@[i] == o0[i]);
                assert(lex_le(o0[i].name@, r0[m as int].name@));
            } else {
                assert(out@[i] == o0[i]);
                assert(out@[j] == o0[j]);
            }
        }
        assert(out@.to_multiset().add(rest@.to_multiset()) =~= v@.to_multiset());
    }
    assert(rest@.to_multiset() =~= Multiset::<ExplorerEntry>::empty());
    assert(out@.to_multiset().add(Multiset::empty()) =~= out@.to_multiset());
    out
}

/// The entries of `s` that are directories (`dir`) or files (`!dir`), in order.
pub open spec fn of_kind(s: Seq<ExplorerEntry>, dir: bool) -> Seq<ExplorerEntry>
    decreases s.len(),
{
    if s.len() == 0 {
        Seq::empty()
    } else {
        let rest = of_kind(s.drop_last(), dir);
        if s.last().is_dir == dir {
            rest.push(s.last())
        } else {
            rest
        }
    }
}

/// The file tree panel: the rows of one directory and the selection among them.
pub struct FileExplorer {
    pub current_dir: String,
    pub entries: Vec<ExplorerEntry>,
    pub state: ListSelection,
}

impl FileExplorer {
    /// Rows above the listing: the `..` row, when the directory has a parent.
    pub open spec fn head_len(&self) -> nat {
        if path_parent(self.current_dir@) is Some { 1 } else { 0 }
    }

    /// The first row leads to the parent directory, when there is one.
    pub open spec fn shows_parent_row(&self) -> bool {
        match path_parent(self.current_dir@) {
            Some(p) => {
                &&& self.entries@.len() > 0
                &&& self.entries@[0].path@ == p
                &&& self.entries@[0].name@ == seq!['.', '.']
                &&& self.entries@[0].is_dir
            },
            None => true,
        }
    }

    /// After the parent row come the directories of `listing`, then its
    /// files, each group sorted by name.
    pub open spec fn shows_listing(&self, listing: Seq<ExplorerEntry>) -> bool {
        let h = self.head_len() as int;
        let d = of_kind(listing, true);
        let f = of_kind(listing, false);
        let n = self.entries@.len() as int;
        &&& n == h + d.len() + f.len()
        &&& sorted_by_name(self.entries@.subrange(h, h + d.len()))
        &&& self.entries@.subrange(h, h + d.len()).to_multiset() == d.to_multiset()
        &&& sorted_by_name(self.entries@.subrange(h + d.len(), n))
        &&& self.entries@.subrange(h + d.len(), n).to_multiset() == f.to_multiset()
    }

    /// A panel on `path`, filled from `listing` as `reload` does.
    pub fn new(path: String, listing: Option<Vec<ExplorerEntry>>) -> (e: Self)
        ensures
            e.current_dir == path,
            e.shows_parent_row(),
            match listing {
                Some(l) => {
                    &&& e.shows_listing(l@)
                    &&& e.state.selected == (if e.entries@.len() > 0 { Some(0usize) } else { None })
                    &&& e.state.offset == 0
                },
                None => e.entries@.len() == e.head_len() && e.state == ListSelection::new_spec(),
            },
    {
        let mut explorer = FileExplorer { current_dir: path, entries: Vec::new(), state: ListSelection::new() };
        let _ = explorer.reload(listing);
        explorer
    }

    /// Refills the rows from a listing of `current_dir`: `None` stands for a
    /// listing that failed part way, which leaves only the parent row and the
    /// selection as it was.  Otherwise the first row is selected.
    pub fn reload(&mut self, listing: Option<Vec<ExplorerEntry>>) -> (ok: bool)
        ensures
            ok == listing is Some,
            final(self).current_dir == old(self).current_dir,
            final(self).shows_parent_row(),
            match listing {
                Some(l) => {
                    &&& final(self).shows_listing(l@)
                    &&& final(self).state.selected == (if final(self).entries@.len() > 0 { Some(0usize) } else { None })
                    &&& final(self).state.offset == (if final(self).entries@.len() > 0 { old(self).state.offset } else { 0 })
                },
                None => final(self).entries@.len() == final(self).head_len() && final(self).state == old(self).state,
            },
    {
        self.entries = Vec::new();
        match parent_of(self.current_dir.as_str()) {
            Some(p) => {
                let name = String::from_str("..");
                proof { reveal_strlit(".."); }
                self.entries.push(ExplorerEntry { path: p, name: name, is_dir: true });
                assert(self.entries@[0].name@ == seq!['.', '.']);
                assert(self.shows_parent_row());
            },
            None => {},
        }
        let ghost h = self.head_len() as int;
        assert(self.entries@.len() == h);
        match listing {
            None => false,
            Some(l) => {
                let ghost l0 = l@;
                let mut dirs: Vec<ExplorerEntry> = Vec::new();
                let mut files: Vec<ExplorerEntry> = Vec::new();
                let mut rest = l;
                let mut taken: Vec<ExplorerEntry> = Vec::new();
                // Walk the listing front to back, sorting each entry by kind.
                let ghost mut k: int = 0;
                while rest.len() > 0
                    invariant
                        0 <= k <= l0.len(),
                        rest@ == l0.subrange(k, l0.len() as int),
                        dirs@ == of_kind(l0.take(k), true),
                        files@ == of_kind(l0.take(k), false),
                    decreases rest@.len(),
                {
                    let e = rest.remove(0);
                    assert(l0.take(k + 1).drop_last() =~= l0.take(k));
                    assert(l0.take(k + 1).last() == e);
                    if e.is_dir {
                        dirs.push(e);
                    } else {
                        files.push(e);
                    }
                    proof { k = k + 1; }
                    assert(rest@ =~= l0.subrange(k, l0.len() as int));
                }
                assert(l0.take(k) =~= l0);
                let sd = sort_by_name(dirs);
                let sf = sort_by_name(files);
                let ghost e0 = self.entries@;
                let mut sd = sd;
                let mut sf = sf;
                let ghost sdv = sd@;
                let ghost sfv = sf@;
                self.entries.append(&mut sd);
                self.entries.append(&mut sf);
                assert(self.entries@ == e0 + sdv + sfv);
                assert(self.entries@.subrange(h, h + sdv.len()) =~= sdv);
                assert(self.entries@.subrange(h + sdv.len(), self.entries@.len() as int) =~= sfv);
                assert(h == 1 ==> self.entries@[0] == e0[0]);
                assert(sorted_by_name(sdv));
                assert(sdv.to_multiset() == of_kind(l0, true).to_multiset());
                assert(sdv.to_multiset().len() == sdv.len());
                assert(of_kind(l0, true).to_multiset().len() == of_kind(l0, true).len());
                assert(sfv.to_multiset().len() == sfv.len());
                assert(of_kind(l0, false).to_multiset().len() == of_kind(l0, false).len());
                assert(h == self.head_len());
                assert(self.shows_listing(l0));
                if self.entries.len() > 0 {
                    self.state.select(Some(0));
                } else {
                    self.state.select(None);
                }
                true
            },
        }
    }

    /// Moves the selection down one row, stopping at the last.
    pub fn next(&mut self)
        ensures
            final(self).entries == old(self).entries,
            final(self).current_dir == old(self).current_dir,
            final(self).state.offset == old(self).state.offset,
            final(self).state.selected == Some(next_row(old(self).state.selected, old(self).entries@.len())),
    {
        let last = if self.entries.len() > 0 { self.entries.len() - 1 } else { 0 };
        let i = match self.state.selected() {
            Some(i) => if i >= last { last } else { i + 1 },
            None => 0,
        };
        self.state.select(Some(i));
    }

    /// Moves the selection up one row, stopping at the first.
    pub fn previous(&mut self)
        ensures
            final(self).entries == old(self).entries,
            final(self).current_dir == old(self).current_dir,
            final(self).state.offset == old(self).state.offset,
            final(self).state.selected == Some(prev_row(old(self).state.selected)),
    {
        let i = match self.state.selected() {
            Some(i) => if i > 0 { i - 1 } else { 0 },
            None => 0,
        };
        self.state.select(Some(i));
    }

    /// The selected row, while the selection is inside the list.
    pub fn get_selected(&self) -> (r: Option<&ExplorerEntry>)
        ensures
            match self.state.selected {
                Some(i) => if i < self.entries@.len() { r == Some(&self.entries@[i as int]) } else { r is None },
                None => r is None,
            },
    {
        match self.state.selected() {
            Some(i) => if i < self.entries.len() { Some(&self.entries[i]) } else { None },
            None => None,
        }
    }
}

/// `n - 1`, or 0 for 0.
pub open spec fn sat_sub1(n: nat) -> nat {
    if n > 0 { (n - 1) as nat } else { 0 }
}

/// The row selected after moving down from `sel` in a list of `len` rows:
/// the next one, stopping at the last; the first when none was selected.
pub open spec fn next_row(sel: Option<usize>, len: nat) -> usize {
    match sel {
        Some(i) => if i >= sat_sub1(len) { sat_sub1(len) as usize } else { (i + 1) as usize },
        None => 0usize,
    }
}

/// The row selected after moving up from `sel`: the previous one, stopping
/// at the first; the first when none was selected.
pub open spec fn prev_row(sel: Option<usize>) -> usize {
    match sel {
        Some(i) => if i > 0 { (i - 1) as usize } else { 0usize },
        None => 0usize,
    }
}

/// Moving down and then up comes back to a row that is not the last.
pub proof fn law_next_then_previous(i: usize, len: nat)
    requires
        i + 1 < len <= usize::MAX,
    ensures
        prev_row(Some(next_row(Some(i), len))) == i,
{
}

/// Moving up and then down comes back to a row that is not the first.
pub proof fn law_previous_then_next(i: usize, len: nat)
    requires
        0 < i < len,
    ensures
        next_row(Some(prev_row(Some(i))), len) == i,
{
}

/// A name the project searches pass over: hidden entries and build output.
pub open spec fn skipped_name(name: Seq<char>) -> bool {
    ||| (name.len() > 0 && name[0] == '.')
    ||| name == "target"@
    ||| name == "node_modules"@
    ||| name == "dist"@
    ||| name == "build"@
}

pub fn is_skipped_name(name: &str) -> (r: bool)
    ensures
        r == skipped_name(name@),
{
    let cs = str_to_chars(name);
    if cs.len() > 0 && cs[0] == '.' {
        return true;
    }
    let n = String::from_str(name);
    n == String::from_str("target") || n == String::from_str("node_modules") || n == String::from_str("dist")
        || n == String::from_str("build")
}

/// The score that skim's fuzzy matcher gives `pattern` in `choice`.
pub uninterp spec fn skim_score(choice: Seq<char>, pattern: Seq<char>) -> Option<i64>;

/// `SkimMatcherV2::default().fuzzy_match(choice, pattern)`: the score of the
/// best fuzzy occurrence of `pattern` in `choice`, `None` when there is none.
/// fuzzy-matcher returns `Some(0)` for an empty pattern.
#[verifier::external_body]
pub(crate) fn fuzzy_score(choice: &str, pattern: &str) -> (r: Option<i64>)
    ensures
        r == skim_score(choice@, pattern@),
        pattern@.len() == 0 ==> r == Some(0i64),
{
    fuzzy_matcher::skim::SkimMatcherV2::default().fuzzy_match(choice, pattern)
}

/// The score and the matched character positions that skim's fuzzy matcher
/// gives `pattern` in `choice`.
pub uninterp spec fn skim_indices(choice: Seq<char>, pattern: Seq<char>) -> Option<(i64, Seq<usize>)>;

/// `SkimMatcherV2::default().fuzzy_indices(choice, pattern)`: as
/// `fuzzy_score`, with the character positions of the match.  fuzzy-matcher
/// returns `Some((0, []))` for an empty pattern.
#[verifier::external_body]
pub(crate) fn fuzzy_positions(choice: &str, pattern: &str) -> (r: Option<(i64, Vec<usize>)>)
    ensures
        match r {
            Some((sc, v)) => {
                &&& skim_indices(choice@, pattern@) == Some((sc, v@))
                &&& pattern@.len() == 0 ==> sc == 0 && v@.len() == 0
            },
            None => skim_indices(choice@, pattern@) is None && pattern@.len() > 0,
        },
{
    fuzzy_matcher::skim::SkimMatcherV2::default().fuzzy_indices(choice, pattern)
}

/// Scores never rise along `s`.
pub open spec fn by_score_desc<T>(s: Seq<(T, i64)>) -> bool {
    forall|i: int, j: int| 0 <= i < j < s.len() ==> (#[trigger] s[i]).1 >= (#[trigger] s[j]).1
}

/// Index of a highest score in `v`.
fn max_score_index<T>(v: &Vec<(T, i64)>) -> (m: usize)
    requires
        v@.len() > 0,
    ensures
        m < v@.len(),
        forall|j: int| 0 <= j < v@.len() ==> v@[m as int].1 >= (#[trigger] v@[j]).1,
{
    let mut m: usize = 0;
    let mut i: usize = 1;
    while i < v.len()
        invariant
            m < i <= v@.len(),
            forall|j: int| 0 <= j < i ==> v@[m as int].1 >= (#[trigger] v@[j]).1,
        decreases v.len() - i,
    {
        if v[i].1 > v[m].1 {
            m = i;
        }
        i = i + 1;
    }
    m
}

/// The scored items, highest score first (a permutation of `v`).
pub fn sort_by_score_desc<T>(v: Vec<(T, i64)>) -> (r: Vec<(T, i64)>)
    ensures
        by_score_desc(r@),
        r@.to_multiset() == v@.to_multiset(),
{
    let mut rest = v;
    let mut out: Vec<(T, i64)> = Vec::new();
    while rest.len() > 0
        invariant
            by_score_desc(out@),
            out@.to_multiset().add(rest@.to_multiset()) == v@.to_multiset(),
            forall|i: int, j: int| 0 <= i < out@.len() && 0 <= j < rest@.len() ==> (#[trigger] out@[i]).1 >= (#[trigger] rest@[j]).1,
        decreases rest@.len(),
    {
        let m = max_score_index(&rest);
        let ghost r0 = rest@;
        let e = rest.remove(m);
        assert(rest@ == r0.remove(m as int));
        assert(r0.remove(m as int).to_multiset() == r0.to_multiset().remove(r0[m as int]));
        let ghost o0 = out@;
        out.push(e);
        assert(out@ == o0.push(e));
        assert forall|i: int, j: int| 0 <= i < out@.len() && 0 <= j < rest@.len() implies (#[trigger] out@[i]).1 >= (#[trigger] rest@[j]).1 by {
            if j < m {
                assert(rest@[j] == r0[j]);
            } else {
                assert(rest@[j] == r0[j + 1]);
            }
            if i < o0.len() {
                assert(out@[i] == o0[i]);
            }
        }
        assert forall|i: int, j: int| 0 <= i < j < out@.len() implies (#[trigger] out@[i]).1 >= (#[trigger] out@[j]).1 by {
            assert(out@[i] == o0[i]);
            if j == o0.len() {
                assert(o0[i].1 >= r0[m as int].1);
            } else {
                assert(out@[j] == o0[j]);
            }
        }
        assert(out@.to_multiset().add(rest@.to_multiset()) =~= v@.to_multiset());
    }
    assert(rest@.to_multiset() =~= Multiset::<(T, i64)>::empty());
    assert(out@.to_multiset().add(Multiset::empty()) =~= out@.to_multiset());
    out
}

/// The first `n` items of `s`, all of them when there are fewer.
pub open spec fn first_n<T>(s: Seq<T>, n: nat) -> Seq<T> {
    if s.len() <= n { s } else { s.take(n as int) }
}

/// `r` is what the highest-scored first `n` of `scored` give, in order of
/// score: the items of some highest-first ordering of `scored`, cut at `n`.
pub open spec fn top_by_score<T>(scored: Seq<(T, i64)>, n: nat, r: Seq<T>) -> bool {
    exists|sorted: Seq<(T, i64)>|
        #![trigger by_score_desc(sorted)]
        by_score_desc(sorted) && sorted.to_multiset() == scored.to_multiset()
            && r == first_n(sorted, n).map_values(|e: (T, i64)| e.0)
}

/// The highest-scored `n` items of `v`, highest first, without their scores.
pub fn take_top<T>(v: Vec<(T, i64)>, n: usize) -> (r: Vec<T>)
    ensures
        top_by_score(v@, n as nat, r@),
{
    let mut sorted = sort_by_score_desc(v);
    let ghost full = sorted@;
    sorted.truncate(n);
    assert(sorted@ == first_n(full, n as nat));
    let ghost cut = sorted@;
    assert(cut.len() <= usize::MAX);
    let mut out: Vec<T> = Vec::new();
    let mut k: usize = 0;
    while sorted.len() > 0
        invariant
            k + sorted@.len() == cut.len(),
            cut.len() <= usize::MAX,
            sorted@ == cut.subrange(k as int, cut.len() as int),
            out@ == cut.take(k as int).map_values(|e: (T, i64)| e.0),
        decreases sorted@.len(),
    {
        let (item, _score) = sorted.remove(0);
        assert(cut[k as int].0 == item);
        out.push(item);
        k = k + 1;
        assert(out@ =~= cut.take(k as int).map_values(|e: (T, i64)| e.0));
        assert(sorted@ =~= cut.subrange(k as int, cut.len() as int));
    }
    assert(cut.take(k as int) =~= cut);
    assert(by_score_desc(full));
    out
}

/// The rows a search keeps at most: the files found, or the matching lines.
pub const FILE_RESULTS: usize = 50;
pub const TEXT_RESULTS: usize = 100;

/// The file search over a workspace, walked depth first: the directories
/// still to list, and each file whose path (relative to the root) matches
/// the query, with its score.  The walk itself is the caller's: it asks
/// `next_dir` for a directory, lists it, and offers each entry.
pub struct FileSearch {
    pub root: String,
    pub query: String,
    pub pending: Vec<String>,
    pub scored: Vec<(String, i64)>,
}

impl FileSearch {
    pub fn new(root: String, query: String) -> (s: Self)
        ensures
            s.root == root,
            s.query == query,
            s.pending@ == seq![root],
            s.scored@.len() == 0,
    {
        let start = root.clone();
        FileSearch { root, query, pending: vec![start], scored: Vec::new() }
    }

    /// The walk is over: an empty query, no directory left, or enough
    /// candidates gathered.
    pub open spec fn done(&self) -> bool {
        self.query@.len() == 0 || self.pending@.len() == 0 || self.scored@.len() >= 5 * FILE_RESULTS
    }

    /// The next directory to list, the one found last.
    pub fn next_dir(&mut self) -> (r: Option<String>)
        ensures
            final(self).root == old(self).root,
            final(self).query == old(self).query,
            final(self).scored == old(self).scored,
            if old(self).done() {
                r is None && final(self).pending@ == old(self).pending@
            } else {
                r == Some(old(self).pending@.last()) && final(self).pending@ == old(self).pending@.drop_last()
            },
    {
        if self.query.as_str().is_empty() || self.scored.len() >= 5 * FILE_RESULTS {
            return None;
        }
        self.pending.pop()
    }

    /// Takes in one entry of a listed directory: a directory to list later,
    /// or a file that is kept when its relative path matches the query.
    pub fn offer(&mut self, path: String, name: &str, is_dir: bool)
        ensures
            final(self).root == old(self).root,
            final(self).query == old(self).query,
            if skipped_name(name@) {
                final(self).pending == old(self).pending && final(self).scored == old(self).scored
            } else if is_dir {
                final(self).pending@ == old(self).pending@.push(path) && final(self).scored == old(self).scored
            } else {
                let rel = match path_strip_prefix(path@, old(self).root@) {
                    Some(r) => r,
                    None => path@,
                };
                &&& final(self).pending == old(self).pending
                &&& match skim_score(rel, old(self).query@) {
                    Some(sc) => final(self).scored@ == old(self).scored@.push((path, sc)),
                    None => final(self).scored == old(self).scored,
                }
            },
    {
        if is_skipped_name(name) {
            return;
        }
        if is_dir {
            self.pending.push(path);
        } else {
            let rel = match strip_prefix_of(path.as_str(), self.root.as_str()) {
                Some(r) => r,
                None => path.clone(),
            };
            match fuzzy_score(rel.as_str(), self.query.as_str()) {
                Some(sc) => self.scored.push((path, sc)),
                None => {},
            }
        }
    }

    /// The best files found, best first.
    pub fn finish(self) -> (r: Vec<String>)
        ensures
            top_by_score(self.scored@, FILE_RESULTS as nat, r@),
    {
        take_top(self.scored, FILE_RESULTS)
    }
}

/// The line search over a workspace: as `FileSearch`, but the caller reads
/// each file offered and hands in its lines, which are kept when the query
/// matches them.
pub struct TextSearch {
    pub root: String,
    pub query: String,
    pub pending: Vec<String>,
    pub scored: Vec<(WorkspaceTextMatch, i64)>,
}

impl TextSearch {
    pub fn new(root: String, query: String) -> (s: Self)
        ensures
            s.root == root,
            s.query == query,
            s.pending@ == seq![root],
            s.scored@.len() == 0,
    {
        let start = root.clone();
        TextSearch { root, query, pending: vec![start], scored: Vec::new() }
    }

    /// The walk is over: an empty query, no directory left, or enough lines gathered.
    pub open spec fn done(&self) -> bool {
        self.query@.len() == 0 || self.pending@.len() == 0 || self.scored@.len() >= 5 * TEXT_RESULTS
    }

    /// The next directory to list, the one found last.
    pub fn next_dir(&mut self) -> (r: Option<String>)
        ensures
            final(self).root == old(self).root,
            final(self).query == old(self).query,
            final(self).scored == old(self).scored,
            if old(self).done() {
                r is None && final(self).pending@ == old(self).pending@
            } else {
                r == Some(old(self).pending@.last()) && final(self).pending@ == old(self).pending@.drop_last()
            },
    {
        if self.query.as_str().is_empty() || self.scored.len() >= 5 * TEXT_RESULTS {
            return None;
        }
        self.pending.pop()
    }

    /// Takes in one entry of a listed directory; true when it is a file
    /// whose lines the caller should read and offer.
    pub fn offer_entry(&mut self, path: String, name: &str, is_dir: bool) -> (read_it: bool)
        ensures
            final(self).root == old(self).root,
            final(self).query == old(self).query,
            final(self).scored == old(self).scored,
            read_it == (!skipped_name(name@) && !is_dir),
            final(self).pending@ == if !skipped_name(name@) && is_dir {
                old(self).pending@.push(path)
            } else {
                old(self).pending@
            },
    {
        if is_skipped_name(name) {
            return false;
        }
        if is_dir {
            self.pending.push(path);
            false
        } else {
            true
        }
    }

    /// Takes in line `line_idx` of the file at `path` (as read, with its line
    /// break); a match is kept with the position of its first matched
    /// character and the trimmed line.  False once enough lines are gathered.
    pub fn offer_line(&mut self, path: &str, line_idx: usize, line: &str) -> (go_on: bool)
        ensures
            final(self).root == old(self).root,
            final(self).query == old(self).query,
            final(self).pending == old(self).pending,
            match skim_indices(line@, old(self).query@) {
                Some((sc, idx)) => {
                    let m = final(self).scored@.last();
                    &&& final(self).scored@.len() == old(self).scored@.len() + 1
                    &&& final(self).scored@.drop_last() == old(self).scored@
                    &&& m.1 == sc
                    &&& m.0.path@ == path@
                    &&& m.0.line_idx == line_idx
                    &&& m.0.char_offset == (if idx.len() > 0 { idx[0] } else { 0usize })
                    &&& m.0.line_preview@ == trimmed(line@)
                    &&& go_on == (final(self).scored@.len() < 5 * TEXT_RESULTS)
                },
                None => final(self).scored == old(self).scored && go_on,
            },
    {
        match fuzzy_positions(line, self.query.as_str()) {
            Some((sc, idx)) => {
                let char_offset = if idx.len() > 0 { idx[0] } else { 0 };
                let m = WorkspaceTextMatch {
                    path: String::from_str(path),
                    line_idx,
                    char_offset,
                    line_preview: trim_str(line),
                };
                let ghost s0 = self.scored@;
                self.scored.push((m, sc));
                assert(self.scored@.drop_last() =~= s0);
                self.scored.len() < 5 * TEXT_RESULTS
            },
            None => true,
        }
    }

    /// The best lines found, best first.
    pub fn finish(self) -> (r: Vec<WorkspaceTextMatch>)
        ensures
            top_by_score(self.scored@, TEXT_RESULTS as nat, r@),
    {
        take_top(self.scored, TEXT_RESULTS)
    }
}

} // verus!

