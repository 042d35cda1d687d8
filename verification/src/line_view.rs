//! How one line of a document is laid out on screen: its grapheme clusters
//! in the highlighter's ranges, tabs drawn four columns wide, an indent
//! guide on every fourth column of the leading blanks, inlay hints before
//! the cluster at their UTF-16 column, and runs of cells that look alike
//! joined into one piece of text.
use vstd::prelude::*;
use crate::strs::{
    str_to_chars, chars_to_string, graphemes, graphemes_of, str_width, display_width, utf16_total,
    len_utf16,
};
use crate::ui::{Highlight, highlight_of, cell_highlight};

verus! {

/// A piece of a laid-out line.
#[derive(Clone, Debug)]
pub enum LineCell {
    /// Text in the style of the highlighter's range `slot`, highlighted `hl`.
    Text { slot: usize, hl: Highlight, text: String },
    /// An indent guide.
    Guide,
    /// An inlay hint, as drawn.
    Hint { text: String },
}

/// What a `LineCell` shows.
pub enum CellSpec {
    Text(usize, Highlight, Seq<char>),
    Guide,
    Hint(Seq<char>),
}

impl View for LineCell {
    type V = CellSpec;

    open spec fn view(&self) -> CellSpec {
        match self {
            LineCell::Text { slot, hl, text } => CellSpec::Text(*slot, *hl, text@),
            LineCell::Guide => CellSpec::Guide,
            LineCell::Hint { text } => CellSpec::Hint(text@),
        }
    }
}

/// What marks the cells of the text: the starts of the search results, the
/// query's length, the result the cursor is on, and the selection.
pub struct TextMarks {
    pub matches: Vec<usize>,
    pub qlen: usize,
    pub active: Option<usize>,
    pub sel: Option<(usize, usize)>,
}

pub open spec fn sadd(a: nat, b: nat) -> nat {
    if a + b > usize::MAX { usize::MAX as nat } else { a + b }
}

/// `s` without its line-break chars.
pub open spec fn clean(s: Seq<char>) -> Seq<char> {
    s.filter(|c: char| c != '\n' && c != '\r')
}

/// The clusters of a line, each with the highlighter range it lies in.
pub open spec fn line_graphemes(pieces: Seq<(usize, Seq<char>)>) -> Seq<(usize, Seq<char>)>
    decreases pieces.len(),
{
    if pieces.len() == 0 {
        Seq::empty()
    } else {
        let prev = line_graphemes(pieces.drop_last());
        let (slot, t) = pieces.last();
        if clean(t).len() == 0 {
            prev
        } else {
            prev + graphemes(clean(t)).map_values(|g: Seq<char>| (slot, g))
        }
    }
}

/// `s` without its trailing colons.
pub open spec fn trim_colons(s: Seq<char>) -> Seq<char>
    decreases s.len(),
{
    if s.len() > 0 && s.last() == ':' { trim_colons(s.drop_last()) } else { s }
}

/// How a hint with `label` is drawn: ` label: `.
pub open spec fn hint_text(label: Seq<char>) -> Seq<char> {
    seq![' '] + trim_colons(label) + seq![':', ' ']
}

/// The hints placed at UTF-16 column `col`, in their order.
pub open spec fn hints_at(hints: Seq<(usize, Seq<char>)>, col: nat) -> Seq<CellSpec>
    decreases hints.len(),
{
    if hints.len() == 0 {
        Seq::empty()
    } else {
        let prev = hints_at(hints.drop_last(), col);
        if hints.last().0 == col { prev.push(CellSpec::Hint(hint_text(hints.last().1))) } else { prev }
    }
}

/// Only spaces and tabs.
pub open spec fn blank(g: Seq<char>) -> bool {
    forall|i: int| 0 <= i < g.len() ==> #[trigger] g[i] == ' ' || g[i] == '\t'
}

/// Columns a cluster takes: four for a tab.
pub open spec fn cluster_width(g: Seq<char>) -> nat {
    if g == seq!['\t'] { 4 } else { display_width(g) as nat }
}

/// How a cluster is drawn: a tab as four spaces.
pub open spec fn cluster_text(g: Seq<char>) -> Seq<char> {
    if g == seq!['\t'] { seq![' ', ' ', ' ', ' '] } else { g }
}

/// The leading blanks from column `vcol` on, `w` columns: a guide on every
/// column divisible by four, a space elsewhere.
pub open spec fn guides(slot: usize, hl: Highlight, vcol: nat, w: nat) -> Seq<CellSpec> {
    Seq::new(w, |k: int| if sadd(vcol, k as nat) % 4 == 0 { CellSpec::Guide } else { CellSpec::Text(slot, hl, seq![' ']) })
}

/// Where the layout stands: UTF-16 column, display column of the leading
/// blanks, whether only blanks came so far, and the char index.
pub type LayoutPos = (nat, nat, bool, nat);

/// The cells of one cluster `g` of range `slot` at `pos`.
pub open spec fn step_cells(pos: LayoutPos, slot: usize, g: Seq<char>, hints: Seq<(usize, Seq<char>)>, m: TextMarks) -> Seq<CellSpec> {
    let hl = highlight_of(pos.3 as usize, m.matches@, m.qlen, m.active, m.sel);
    hints_at(hints, pos.0) + if pos.2 && blank(g) {
        guides(slot, hl, pos.1, cluster_width(g))
    } else {
        seq![CellSpec::Text(slot, hl, cluster_text(g))]
    }
}

/// Where the layout stands after cluster `g`.
pub open spec fn step_pos(pos: LayoutPos, g: Seq<char>) -> LayoutPos {
    let lead = pos.2 && blank(g);
    (sadd(pos.0, utf16_total(g)), if lead { sadd(pos.1, cluster_width(g)) } else { pos.1 }, lead, sadd(pos.3, g.len()))
}

/// The cells of clusters `gs`, one by one, and where the layout ends.
pub open spec fn layout_cells(gs: Seq<(usize, Seq<char>)>, hints: Seq<(usize, Seq<char>)>, m: TextMarks, p0: LayoutPos) -> (Seq<CellSpec>, LayoutPos)
    decreases gs.len(),
{
    if gs.len() == 0 {
        (Seq::empty(), p0)
    } else {
        let (cs, p) = layout_cells(gs.drop_last(), hints, m, p0);
        let (slot, g) = gs.last();
        (cs + step_cells(p, slot, g, hints, m), step_pos(p, g))
    }
}

/// `out` with cell `c` added: text that looks like the text before it joins it.
pub open spec fn merge_push(out: Seq<CellSpec>, c: CellSpec) -> Seq<CellSpec> {
    match c {
        CellSpec::Text(s, h, t) => if out.len() > 0 && (out.last() matches CellSpec::Text(s2, h2, t2) && s2 == s && h2 == h) {
            out.drop_last().push(CellSpec::Text(s, h, out.last()->Text_2 + t))
        } else {
            out.push(c)
        },
        _ => out.push(c),
    }
}

/// Cells with each run of alike text joined.
pub open spec fn merged(cs: Seq<CellSpec>) -> Seq<CellSpec>
    decreases cs.len(),
{
    if cs.len() == 0 { Seq::empty() } else { merge_push(merged(cs.drop_last()), cs.last()) }
}

pub open spec fn cells_view(v: Seq<LineCell>) -> Seq<CellSpec> {
    v.map_values(|c: LineCell| c@)
}

pub open spec fn pairs_view(v: Seq<(usize, String)>) -> Seq<(usize, Seq<char>)> {
    v.map_values(|p: (usize, String)| (p.0, p.1@))
}

fn push_cell(out: &mut Vec<LineCell>, c: LineCell)
    ensures
        cells_view(final(out)@) == merge_push(cells_view(old(out)@), c@),
{
    let ghost o = cells_view(out@);
    match c {
        LineCell::Text { slot, hl, text } => {
            match out.pop() {
                Some(last) => {
                    assert(o.last() == last@);
                    assert(cells_view(out@) =~= o.drop_last());
                    match last {
                        LineCell::Text { slot: s2, hl: h2, text: t2 } => {
                            if s2 == slot && h2 == hl {
                                let mut t = t2;
                                t.append(text.as_str());
                                out.push(LineCell::Text { slot, hl, text: t });
                                assert(cells_view(out@) =~= merge_push(o, CellSpec::Text(slot, hl, text@)));
                            } else {
                                out.push(LineCell::Text { slot: s2, hl: h2, text: t2 });
                                out.push(LineCell::Text { slot, hl, text });
                                assert(cells_view(out@) =~= merge_push(o, CellSpec::Text(slot, hl, text@)));
                            }
                        },
                        other => {
                            out.push(other);
                            out.push(LineCell::Text { slot, hl, text });
                            assert(cells_view(out@) =~= merge_push(o, CellSpec::Text(slot, hl, text@)));
                        },
                    }
                },
                None => {
                    out.push(LineCell::Text { slot, hl, text });
                    assert(cells_view(out@) =~= merge_push(o, CellSpec::Text(slot, hl, text@)));
                },
            }
        },
        other => {
            let ghost cv = other@;
            out.push(other);
            assert(cells_view(out@) =~= o.push(cv));
        },
    }
}

fn clean_chars(s: &str) -> (v: Vec<char>)
    ensures
        v@ == clean(s@),
{
    let cs = str_to_chars(s);
    let ghost p = |c: char| c != '\n' && c != '\r';
    let mut v: Vec<char> = Vec::new();
    let mut i: usize = 0;
    proof { reveal(Seq::filter); }
    assert(cs@.take(0).filter(p) =~= Seq::<char>::empty());
    while i < cs.len()
        invariant
            cs@ == s@,
            i <= cs@.len(),
            v@ == cs@.take(i as int).filter(p),
            p == (|c: char| c != '\n' && c != '\r'),
        decreases cs.len() - i,
    {
        let c = cs[i];
        proof {
            assert(cs@.take(i + 1) =~= cs@.take(i as int).push(c));
            cs@.take(i as int).lemma_filter_push(c, p);
        }
        if c != '\n' && c != '\r' {
            v.push(c);
        }
        i = i + 1;
    }
    assert(cs@.take(cs.len() as int) =~= cs@);
    v
}

proof fn lemma_trim_colons_take(s: Seq<char>, k: int)
    requires
        0 <= k <= s.len(),
        forall|j: int| k <= j < s.len() ==> s[j] == ':',
    ensures
        trim_colons(s) == trim_colons(s.take(k)),
    decreases s.len() - k,
{
    if k < s.len() {
        assert(s.drop_last().take(k) =~= s.take(k));
        lemma_trim_colons_take(s.drop_last(), k);
    } else {
        assert(s.take(k) =~= s);
    }
}

/// The text of a hint with `label`: ` label: `, without the label's own
/// trailing colons.
pub fn hint_label(label: &str) -> (r: String)
    ensures
        r@ == hint_text(label@),
{
    let cs = str_to_chars(label);
    let mut k = cs.len();
    while k > 0 && cs[k - 1] == ':'
        invariant
            cs@ == label@,
            k <= cs@.len(),
            forall|j: int| k <= j < cs@.len() ==> cs@[j] == ':',
        decreases k,
    {
        k = k - 1;
    }
    proof {
        lemma_trim_colons_take(cs@, k as int);
        assert(cs@.take(k as int).len() == 0 || cs@.take(k as int).last() != ':');
    }
    let mut out: Vec<char> = Vec::new();
    out.push(' ');
    let mut i: usize = 0;
    while i < k
        invariant
            cs@ == label@,
            k <= cs@.len(),
            i <= k,
            out@ == seq![' '] + cs@.take(i as int),
        decreases k - i,
    {
        out.push(cs[i]);
        i = i + 1;
        assert(out@ =~= seq![' '] + cs@.take(i as int));
    }
    out.push(':');
    out.push(' ');
    assert(out@ =~= hint_text(label@));
    chars_to_string(&out)
}

fn utf16_count(g: &Vec<char>) -> (n: u128)
    ensures
        n == utf16_total(g@),
        n <= 2 * g@.len(),
{
    let mut total: u128 = 0;
    let mut i: usize = 0;
    while i < g.len()
        invariant
            i <= g@.len(),
            total == utf16_total(g@.take(i as int)),
            total <= 2 * i,
        decreases g.len() - i,
    {
        assert(g@.take(i + 1).drop_last() =~= g@.take(i as int));
        let u = len_utf16(g[i]);
        total = total + u as u128;
        i = i + 1;
    }
    assert(g@.take(g.len() as int) =~= g@);
    total
}

fn is_blank(g: &Vec<char>) -> (b: bool)
    ensures
        b == blank(g@),
{
    let mut i: usize = 0;
    while i < g.len()
        invariant
            i <= g@.len(),
            forall|j: int| 0 <= j < i ==> #[trigger] g@[j] == ' ' || g@[j] == '\t',
        decreases g.len() - i,
    {
        if g[i] != ' ' && g[i] != '\t' {
            return false;
        }
        i = i + 1;
    }
    true
}

fn four_spaces() -> (s: String)
    ensures
        s@ == seq![' ', ' ', ' ', ' '],
{
    let mut v: Vec<char> = Vec::new();
    v.push(' ');
    v.push(' ');
    v.push(' ');
    v.push(' ');
    assert(v@ =~= seq![' ', ' ', ' ', ' ']);
    chars_to_string(&v)
}

fn one_space() -> (s: String)
    ensures
        s@ == seq![' '],
{
    let mut v: Vec<char> = Vec::new();
    v.push(' ');
    assert(v@ =~= seq![' ']);
    chars_to_string(&v)
}

proof fn lemma_merged_push(raw: Seq<CellSpec>, c: CellSpec)
    ensures
        merged(raw.push(c)) == merge_push(merged(raw), c),
{
    assert(raw.push(c).drop_last() =~= raw);
}

/// Lays out one line of text.  `pieces` are the highlighter's ranges of the
/// line, in order, with the number of the style of each (their line-break
/// chars are not drawn); `hints` are the line's inlay hints as (UTF-16
/// column, label); `start` is the char index where the line begins and
/// `marks` says how each of its cells is highlighted.
pub fn layout_line(pieces: &Vec<(usize, String)>, hints: &Vec<(usize, String)>, start: usize, marks: &TextMarks) -> (r: Vec<LineCell>)
    ensures
        cells_view(r@) == merged(
            layout_cells(line_graphemes(pairs_view(pieces@)), pairs_view(hints@), *marks, (0nat, 0nat, true, start as nat)).0,
        ),
{
    let ghost pv = pairs_view(pieces@);
    let ghost hv = pairs_view(hints@);
    let ghost p0: LayoutPos = (0nat, 0nat, true, start as nat);
    let mut out: Vec<LineCell> = Vec::new();
    let ghost mut raw: Seq<CellSpec> = Seq::empty();
    let ghost mut done: Seq<(usize, Seq<char>)> = Seq::empty();
    let mut u16: usize = 0;
    let mut vcol: usize = 0;
    let mut lead = true;
    let mut idx: usize = start;
    let mut p: usize = 0;
    assert(pv.take(0) =~= Seq::<(usize, Seq<char>)>::empty());
    assert(cells_view(out@) =~= Seq::<CellSpec>::empty());
    while p < pieces.len()
        invariant
            p <= pieces@.len(),
            pv == pairs_view(pieces@),
            hv == pairs_view(hints@),
            p0 == (0nat, 0nat, true, start as nat),
            done == line_graphemes(pv.take(p as int)),
            layout_cells(done, hv, *marks, p0) == (raw, (u16 as nat, vcol as nat, lead, idx as nat)),
            cells_view(out@) == merged(raw),
        decreases pieces.len() - p,
    {
        let slot = pieces[p].0;
        let cleaned = clean_chars(pieces[p].1.as_str());
        proof {
            assert(pv.take(p + 1).drop_last() =~= pv.take(p as int));
            assert(pv.take(p + 1).last() == pv[p as int]);
            assert(pv[p as int] == (slot, pieces@[p as int].1@));
        }
        if cleaned.len() > 0 {
            let cstr = chars_to_string(&cleaned);
            let gs = graphemes_of(cstr.as_str());
            let ghost gm = graphemes(cleaned@).map_values(|g: Seq<char>| (slot, g));
            let ghost done0 = done;
            let mut k: usize = 0;
            assert(done0 + gm.take(0) =~= done0);
            while k < gs.len()
                invariant
                    pv == pairs_view(pieces@),
                    hv == pairs_view(hints@),
                    p0 == (0nat, 0nat, true, start as nat),
                    k <= gs@.len(),
                    gs@.map_values(|g: String| g@) == graphemes(cleaned@),
                    gm == graphemes(cleaned@).map_values(|g: Seq<char>| (slot, g)),
                    done == done0 + gm.take(k as int),
                    layout_cells(done, hv, *marks, p0) == (raw, (u16 as nat, vcol as nat, lead, idx as nat)),
                    cells_view(out@) == merged(raw),
                decreases gs.len() - k,
            {
                let g = str_to_chars(gs[k].as_str());
                let ghost gg = g@;
                assert(gg == graphemes(cleaned@)[k as int]);
                let ghost pos: LayoutPos = (u16 as nat, vcol as nat, lead, idx as nat);
                let ghost raw0 = raw;
                let hl = cell_highlight(idx, &marks.matches, marks.qlen, marks.active, marks.sel);
                let mut j: usize = 0;
                assert(hv.take(0) =~= Seq::<(usize, Seq<char>)>::empty());
                assert(raw0 + hints_at(hv.take(0), pos.0) =~= raw0);
                while j < hints.len()
                    invariant
                        hv == pairs_view(hints@),
                        j <= hints@.len(),
                        u16 == pos.0,
                        raw == raw0 + hints_at(hv.take(j as int), pos.0),
                        cells_view(out@) == merged(raw),
                    decreases hints.len() - j,
                {
                    proof {
                        assert(hv.take(j + 1).drop_last() =~= hv.take(j as int));
                        assert(hv.take(j + 1).last() == (hints@[j as int].0, hints@[j as int].1@));
                    }
                    if hints[j].0 == u16 {
                        let c = LineCell::Hint { text: hint_label(hints[j].1.as_str()) };
                        proof {
                            lemma_merged_push(raw, c@);
                            raw = raw.push(c@);
                        }
                        push_cell(&mut out, c);
                        assert(raw =~= raw0 + hints_at(hv.take(j + 1), pos.0));
                    } else {
                        assert(raw =~= raw0 + hints_at(hv.take(j + 1), pos.0));
                    }
                    j = j + 1;
                }
                assert(hv.take(hints.len() as int) =~= hv);
                let ghost raw1 = raw;
                let is_tab = g.len() == 1 && g[0] == '\t';
                assert(is_tab == (gg == seq!['\t'])) by {
                    if is_tab {
                        assert(gg =~= seq!['\t']);
                    }
                }
                let w: usize = if is_tab { 4 } else { str_width(gs[k].as_str()) };
                assert(w == cluster_width(gg));
                let bl = is_blank(&g);
                if lead && bl {
                    let ghost v0 = vcol as nat;
                    let mut q: usize = 0;
                    assert(raw1 + guides(slot, hl, v0, w as nat).take(0) =~= raw1);
                    while q < w
                        invariant
                            q <= w,
                            raw == raw1 + guides(slot, hl, v0, w as nat).take(q as int),
                            vcol == sadd(v0, q as nat),
                            cells_view(out@) == merged(raw),
                        decreases w - q,
                    {
                        let c = if vcol % 4 == 0 { LineCell::Guide } else { LineCell::Text { slot, hl, text: one_space() } };
                        proof {
                            assert(c@ == guides(slot, hl, v0, w as nat)[q as int]);
                            assert(guides(slot, hl, v0, w as nat).take(q + 1) =~= guides(slot, hl, v0, w as nat).take(q as int).push(c@));
                            lemma_merged_push(raw, c@);
                            raw = raw.push(c@);
                        }
                        push_cell(&mut out, c);
                        vcol = vcol.saturating_add(1);
                        q = q + 1;
                    }
                    assert(guides(slot, hl, v0, w as nat).take(w as int) =~= guides(slot, hl, v0, w as nat));
                } else {
                    lead = false;
                    let text = if is_tab { four_spaces() } else { chars_to_string(&g) };
                    let c = LineCell::Text { slot, hl, text };
                    proof {
                        lemma_merged_push(raw, c@);
                        raw = raw.push(c@);
                    }
                    push_cell(&mut out, c);
                    assert(raw =~= raw1 + seq![CellSpec::Text(slot, hl, cluster_text(gg))]);
                }
                assert(raw =~= raw0 + step_cells(pos, slot, gg, hv, *marks));
                let g16 = utf16_count(&g);
                u16 = if (u16 as u128) + g16 > usize::MAX as u128 { usize::MAX } else { ((u16 as u128) + g16) as usize };
                idx = idx.saturating_add(g.len());
                proof {
                    let x = (slot, gg);
                    assert(gm[k as int] == x);
                    assert(gm.take(k + 1) =~= gm.take(k as int).push(x));
                    assert(done.push(x).drop_last() =~= done);
                    done = done.push(x);
                    assert(done =~= done0 + gm.take(k + 1));
                    assert((u16 as nat, vcol as nat, lead, idx as nat) == step_pos(pos, gg));
                }
                k = k + 1;
            }
            assert(gm.take(gs.len() as int) =~= gm);
        }
        p = p + 1;
    }
    assert(pv.take(pieces.len() as int) =~= pv);
    out
}

} // verus!
