//! What the screen shows, worked out from the workspace: colours, the
//! labels of the status line, tabs and prompts, the gutter, and how each
//! cell of the text is highlighted.  Drawing itself is the caller's.
use vstd::prelude::*;
use crate::app::{App, Focus, PromptIntent};
use crate::git::{GitContext, GitLineStatus};
use crate::strs::{decimal, decimal_string};

verus! {

/// A terminal colour.
#[derive(Clone, Copy, Debug, PartialEq, Eq, Structural)]
pub enum Color {
    Reset,
    Black,
    Red,
    Green,
    Yellow,
    Blue,
    Magenta,
    Cyan,
    Gray,
    DarkGray,
    LightRed,
    LightGreen,
    LightYellow,
    LightBlue,
    LightMagenta,
    LightCyan,
    White,
    Rgb(u8, u8, u8),
}

/// The sixteen ANSI colours and the RGB values they stand for.
pub open spec fn palette() -> Seq<(u8, u8, u8, Color)> {
    seq![
        (0u8, 0u8, 0u8, Color::Black),
        (170u8, 0u8, 0u8, Color::Red),
        (0u8, 170u8, 0u8, Color::Green),
        (170u8, 85u8, 0u8, Color::Yellow),
        (0u8, 0u8, 170u8, Color::Blue),
        (170u8, 0u8, 170u8, Color::Magenta),
        (0u8, 170u8, 170u8, Color::Cyan),
        (170u8, 170u8, 170u8, Color::Gray),
        (85u8, 85u8, 85u8, Color::DarkGray),
        (255u8, 85u8, 85u8, Color::LightRed),
        (85u8, 255u8, 85u8, Color::LightGreen),
        (255u8, 255u8, 85u8, Color::LightYellow),
        (85u8, 85u8, 255u8, Color::LightBlue),
        (255u8, 85u8, 255u8, Color::LightMagenta),
        (85u8, 255u8, 255u8, Color::LightCyan),
        (255u8, 255u8, 255u8, Color::White),
    ]
}

/// Squared distance between a palette entry and `(r, g, b)`.
pub open spec fn color_dist(p: (u8, u8, u8, Color), r: u8, g: u8, b: u8) -> int {
    (p.0 - r) * (p.0 - r) + (p.1 - g) * (p.1 - g) + (p.2 - b) * (p.2 - b)
}

/// The nearest of the first `n` palette colours to `(r, g, b)`, with its
/// distance; the earlier of two as near wins.
pub open spec fn nearest_color(r: u8, g: u8, b: u8, n: int) -> (Color, int)
    decreases n,
{
    if n <= 0 {
        (Color::Reset, i32::MAX as int)
    } else {
        let prev = nearest_color(r, g, b, n - 1);
        let d = color_dist(palette()[n - 1], r, g, b);
        if d < prev.1 { (palette()[n - 1].3, d) } else { prev }
    }
}

/// The ANSI colour nearest to an RGB colour.
pub fn rgb_to_ansi(r: u8, g: u8, b: u8) -> (c: Color)
    ensures
        c == nearest_color(r, g, b, 16).0,
{
    let pal: [(u8, u8, u8, Color); 16] = [
        (0, 0, 0, Color::Black),
        (170, 0, 0, Color::Red),
        (0, 170, 0, Color::Green),
        (170, 85, 0, Color::Yellow),
        (0, 0, 170, Color::Blue),
        (170, 0, 170, Color::Magenta),
        (0, 170, 170, Color::Cyan),
        (170, 170, 170, Color::Gray),
        (85, 85, 85, Color::DarkGray),
        (255, 85, 85, Color::LightRed),
        (85, 255, 85, Color::LightGreen),
        (255, 255, 85, Color::LightYellow),
        (85, 85, 255, Color::LightBlue),
        (255, 85, 255, Color::LightMagenta),
        (85, 255, 255, Color::LightCyan),
        (255, 255, 255, Color::White),
    ];
    assert(pal@ =~= palette());
    let mut best = Color::Reset;
    let mut min_dist: i32 = i32::MAX;
    let mut i: usize = 0;
    while i < 16
        invariant
            i <= 16,
            pal@ == palette(),
            (best, min_dist as int) == nearest_color(r, g, b, i as int),
        decreases 16 - i,
    {
        let (cr, cg, cb, color) = pal[i];
        let dr = cr as i32 - r as i32;
        let dg = cg as i32 - g as i32;
        let db = cb as i32 - b as i32;
        assert(dr * dr <= 65025 && dg * dg <= 65025 && db * db <= 65025) by (nonlinear_arith)
            requires
                -255 <= dr <= 255,
                -255 <= dg <= 255,
                -255 <= db <= 255,
        ;
        assert(0 <= dr * dr && 0 <= dg * dg && 0 <= db * db) by (nonlinear_arith);
        let dist = dr * dr + dg * dg + db * db;
        if dist < min_dist {
            min_dist = dist;
            best = color;
        }
        i = i + 1;
    }
    best
}

/// The icon and its colour on the tab of a file with extension `ext`.
pub open spec fn icon_of(ext: Seq<char>) -> (Seq<char>, Color) {
    if ext == "rs"@ {
        ("\u{e7a8} "@, Color::Rgb(222, 90, 44))
    } else if ext == "py"@ {
        ("\u{f0320} "@, Color::Yellow)
    } else if ext == "md"@ {
        ("\u{f48a} "@, Color::LightBlue)
    } else if ext == "c"@ || ext == "cpp"@ {
        ("\u{e61e} "@, Color::LightBlue)
    } else if ext == "html"@ || ext == "htm"@ {
        ("\u{e736} "@, Color::Rgb(227, 79, 38))
    } else {
        ("\u{f15b} "@, Color::White)
    }
}

pub fn file_icon(ext: &str) -> (r: (String, Color))
    ensures
        (r.0@, r.1) == icon_of(ext@),
{
    let e = String::from_str(ext);
    if e == String::from_str("rs") {
        (String::from_str("\u{e7a8} "), Color::Rgb(222, 90, 44))
    } else if e == String::from_str("py") {
        (String::from_str("\u{f0320} "), Color::Yellow)
    } else if e == String::from_str("md") {
        (String::from_str("\u{f48a} "), Color::LightBlue)
    } else if e == String::from_str("c") || e == String::from_str("cpp") {
        (String::from_str("\u{e61e} "), Color::LightBlue)
    } else if e == String::from_str("html") || e == String::from_str("htm") {
        (String::from_str("\u{e736} "), Color::Rgb(227, 79, 38))
    } else {
        (String::from_str("\u{f15b} "), Color::White)
    }
}

/// The gutter mark of a line in the state `st` against git's `HEAD`.
pub open spec fn git_mark_of(st: Option<GitLineStatus>) -> (Seq<char>, Color) {
    match st {
        Some(GitLineStatus::Added) => ("\u{258c}"@, Color::Green),
        Some(GitLineStatus::Modified) => ("\u{258c}"@, Color::Yellow),
        Some(GitLineStatus::Deleted) => ("_"@, Color::Red),
        None => (" "@, Color::Reset),
    }
}

pub fn git_marker(st: Option<GitLineStatus>) -> (r: (String, Color))
    ensures
        (r.0@, r.1) == git_mark_of(st),
{
    match st {
        Some(GitLineStatus::Added) => (String::from_str("\u{258c}"), Color::Green),
        Some(GitLineStatus::Modified) => (String::from_str("\u{258c}"), Color::Yellow),
        Some(GitLineStatus::Deleted) => (String::from_str("_"), Color::Red),
        None => (String::from_str(" "), Color::Reset),
    }
}

/// `n` spaces.
pub open spec fn spaces(n: int) -> Seq<char> {
    Seq::new(if n > 0 { n as nat } else { 0 }, |_i: int| ' ')
}

/// The number of line `n` (from 1) right-aligned in `width` columns, with
/// a blank on each side.
pub open spec fn line_number_of(n: nat, width: nat) -> Seq<char> {
    seq![' '] + spaces(width - decimal(n).len()) + decimal(n) + seq![' ']
}

pub fn line_number_label(n: usize, width: usize) -> (r: String)
    ensures
        r@ == line_number_of(n as nat, width as nat),
{
    let digits = crate::strs::decimal_chars(n);
    let mut v: Vec<char> = Vec::new();
    v.push(' ');
    let mut k: usize = digits.len();
    while k < width
        invariant
            digits.len() <= k <= width || (k == digits.len() && width < digits.len()),
            v@ == seq![' '] + spaces(k - digits@.len()),
        decreases width - k,
    {
        v.push(' ');
        k = k + 1;
        assert(v@ =~= seq![' '] + spaces(k - digits@.len()));
    }
    assert(v@ =~= seq![' '] + spaces(width - digits@.len()));
    let mut i: usize = 0;
    let ghost base = v@;
    while i < digits.len()
        invariant
            i <= digits@.len(),
            v@ == base + digits@.take(i as int),
        decreases digits.len() - i,
    {
        v.push(digits[i]);
        i = i + 1;
        assert(v@ =~= base + digits@.take(i as int));
    }
    assert(digits@.take(i as int) =~= digits@);
    v.push(' ');
    assert(v@ =~= line_number_of(n as nat, width as nat));
    crate::strs::chars_to_string(&v)
}

/// The mode shown at the left of the status line.
pub fn mode_label(focus: Focus) -> (r: String)
    ensures
        r@ == if focus is Tree { " TREE "@ } else { " EDIT "@ },
{
    match focus {
        Focus::Window(_) => String::from_str(" EDIT "),
        Focus::Tree => String::from_str(" TREE "),
    }
}

/// The counts of added, modified and deleted lines that are not zero, as
/// `+a ~m -d` in brackets after a blank; empty when all are zero.
pub open spec fn stats_of(adds: nat, mods: nat, dels: nat) -> Seq<char> {
    let parts = (if adds > 0 { seq![seq!['+'] + decimal(adds)] } else { Seq::empty() })
        + (if mods > 0 { seq![seq!['~'] + decimal(mods)] } else { Seq::empty() })
        + (if dels > 0 { seq![seq!['-'] + decimal(dels)] } else { Seq::empty() });
    if parts.len() == 0 {
        Seq::empty()
    } else {
        " ["@ + joined(parts) + "]"@
    }
}

/// The parts separated by single blanks.
pub open spec fn joined(parts: Seq<Seq<char>>) -> Seq<char>
    decreases parts.len(),
{
    if parts.len() == 0 {
        Seq::empty()
    } else if parts.len() == 1 {
        parts[0]
    } else {
        joined(parts.drop_last()) + seq![' '] + parts.last()
    }
}

/// The git part of the status line: the branch (`detached` without one)
/// and, with a document open, its line counts; ` local ` outside a repository.
pub open spec fn git_label_of(ctx: GitContext, with_doc: bool) -> Seq<char> {
    if ctx.is_repo {
        let branch = match ctx.branch {
            Some(b) => b@,
            None => "detached"@,
        };
        let stats = if with_doc { stats_of(ctx.stats.0 as nat, ctx.stats.1 as nat, ctx.stats.2 as nat) } else { Seq::empty() };
        " git: "@ + branch + stats + seq![' ']
    } else {
        " local "@
    }
}

fn stats_label(adds: usize, mods: usize, dels: usize) -> (r: Vec<char>)
    ensures
        r@ == stats_of(adds as nat, mods as nat, dels as nat),
{
    let ghost pa = if adds > 0 { seq![seq!['+'] + decimal(adds as nat)] } else { Seq::<Seq<char>>::empty() };
    let ghost pm = if mods > 0 { seq![seq!['~'] + decimal(mods as nat)] } else { Seq::<Seq<char>>::empty() };
    let ghost pd = if dels > 0 { seq![seq!['-'] + decimal(dels as nat)] } else { Seq::<Seq<char>>::empty() };
    let mut parts: Vec<Vec<char>> = Vec::new();
    if adds > 0 {
        let mut p: Vec<char> = Vec::new();
        p.push('+');
        let mut d = crate::strs::decimal_chars(adds);
        p.append(&mut d);
        assert(p@ =~= seq!['+'] + decimal(adds as nat));
        parts.push(p);
    }
    assert(parts@.map_values(|p: Vec<char>| p@) =~= pa);
    if mods > 0 {
        let mut p: Vec<char> = Vec::new();
        p.push('~');
        let mut d = crate::strs::decimal_chars(mods);
        p.append(&mut d);
        assert(p@ =~= seq!['~'] + decimal(mods as nat));
        parts.push(p);
    }
    assert(parts@.map_values(|p: Vec<char>| p@) =~= pa + pm);
    if dels > 0 {
        let mut p: Vec<char> = Vec::new();
        p.push('-');
        let mut d = crate::strs::decimal_chars(dels);
        p.append(&mut d);
        assert(p@ =~= seq!['-'] + decimal(dels as nat));
        parts.push(p);
    }
    assert(parts@.map_values(|p: Vec<char>| p@) =~= pa + pm + pd);
    if parts.len() == 0 {
        return Vec::new();
    }
    let mut out: Vec<char> = Vec::new();
    out.push(' ');
    out.push('[');
    assert(out@ =~= seq![' ', '[']);
    let mut i: usize = 0;
    let ghost pv = parts@.map_values(|p: Vec<char>| p@);
    assert(pv.take(0) =~= Seq::<Seq<char>>::empty());
    while i < parts.len()
        invariant
            i <= parts@.len(),
            pv == parts@.map_values(|p: Vec<char>| p@),
            out@ == seq![' ', '['] + joined(pv.take(i as int)),
        decreases parts.len() - i,
    {
        if i > 0 {
            out.push(' ');
        }
        let mut piece = parts[i].clone();
        assert(piece@ == pv[i as int]);
        out.append(&mut piece);
        i = i + 1;
        assert(pv.take(i as int).drop_last() =~= pv.take(i - 1));
        assert(out@ =~= seq![' ', '['] + joined(pv.take(i as int)));
    }
    assert(pv.take(i as int) =~= pv);
    out.push(']');
    proof {
        reveal_strlit(" [");
        reveal_strlit("]");
    }
    assert(out@ =~= stats_of(adds as nat, mods as nat, dels as nat));
    out
}

/// The git part of the status line (see `git_label_of`).
pub fn git_label(ctx: &GitContext, with_doc: bool) -> (r: String)
    ensures
        r@ == git_label_of(*ctx, with_doc),
{
    if ctx.is_repo {
        let mut s = String::from_str(" git: ");
        match &ctx.branch {
            Some(b) => s.append(b.as_str()),
            None => s.append("detached"),
        }
        if with_doc {
            let st = stats_label(ctx.stats.0, ctx.stats.1, ctx.stats.2);
            let t = crate::strs::chars_to_string(&st);
            s.append(t.as_str());
        }
        s.append(" ");
        proof {
            reveal_strlit(" ");
            assert(s@ =~= git_label_of(*ctx, with_doc));
        }
        s
    } else {
        String::from_str(" local ")
    }
}

/// Severity numbers of diagnostics that count as errors and as warnings.
pub const SEVERITY_ERROR: i32 = 1;
pub const SEVERITY_WARNING: i32 = 2;

/// How many of `sev` are errors and how many warnings.
pub open spec fn count_sev(sev: Seq<Option<i32>>, level: i32) -> nat
    decreases sev.len(),
{
    if sev.len() == 0 {
        0
    } else {
        count_sev(sev.drop_last(), level) + if sev.last() == Some(level) { 1nat } else { 0nat }
    }
}

proof fn lemma_count_sev_le(sev: Seq<Option<i32>>, level: i32)
    ensures
        count_sev(sev, level) <= sev.len(),
    decreases sev.len(),
{
    if sev.len() > 0 {
        lemma_count_sev_le(sev.drop_last(), level);
    }
}

/// The numbers of errors and of warnings among diagnostics of severities `sev`.
pub fn diag_counts(sev: &Vec<Option<i32>>) -> (r: (usize, usize))
    ensures
        r == (count_sev(sev@, SEVERITY_ERROR) as usize, count_sev(sev@, SEVERITY_WARNING) as usize),
{
    let mut e: usize = 0;
    let mut w: usize = 0;
    let mut i: usize = 0;
    while i < sev.len()
        invariant
            i <= sev@.len(),
            e == count_sev(sev@.take(i as int), SEVERITY_ERROR),
            w == count_sev(sev@.take(i as int), SEVERITY_WARNING),
        decreases sev.len() - i,
    {
        proof {
            assert(sev@.take(i + 1).drop_last() =~= sev@.take(i as int));
            lemma_count_sev_le(sev@.take(i as int), SEVERITY_ERROR);
            lemma_count_sev_le(sev@.take(i as int), SEVERITY_WARNING);
        }
        match sev[i] {
            Some(s) => {
                if s == SEVERITY_ERROR {
                    e = e + 1;
                } else if s == SEVERITY_WARNING {
                    w = w + 1;
                }
            },
            None => {},
        }
        i = i + 1;
    }
    assert(sev@.take(i as int) =~= sev@);
    (e, w)
}

/// The diagnostics part of the status line.
pub open spec fn diag_label_of(errors: nat, warnings: nat) -> Seq<char> {
    if errors > 0 || warnings > 0 {
        " E:"@ + decimal(errors) + " W:"@ + decimal(warnings) + seq![' ']
    } else {
        " OK "@
    }
}

pub fn diag_label(errors: usize, warnings: usize) -> (r: String)
    ensures
        r@ == diag_label_of(errors as nat, warnings as nat),
{
    if errors > 0 || warnings > 0 {
        let mut s = String::from_str(" E:");
        s.append(decimal_string(errors).as_str());
        s.append(" W:");
        s.append(decimal_string(warnings).as_str());
        s.append(" ");
        proof {
            reveal_strlit(" ");
            assert(s@ =~= diag_label_of(errors as nat, warnings as nat));
        }
        s
    } else {
        String::from_str(" OK ")
    }
}

/// The title of a prompt, and whether it shows a results list.
pub open spec fn prompt_title_of(intent: PromptIntent) -> (Seq<char>, bool) {
    match intent {
        PromptIntent::SaveAs(_) => (" Guardar Como: "@, false),
        PromptIntent::Rename(_) => (" Renombrar: "@, false),
        PromptIntent::Delete(_) => (" Eliminar archivo? (y/N): "@, false),
        PromptIntent::ConfirmQuit => (" Cambios sin guardar. Salir de todos modos? (y/N): "@, false),
        PromptIntent::SearchText => (" Buscar Texto: "@, true),
        PromptIntent::SearchFile => (" Buscar Archivo: "@, true),
    }
}

pub fn prompt_title(intent: &PromptIntent) -> (r: (String, bool))
    ensures
        (r.0@, r.1) == prompt_title_of(*intent),
{
    match intent {
        PromptIntent::SaveAs(_) => (String::from_str(" Guardar Como: "), false),
        PromptIntent::Rename(_) => (String::from_str(" Renombrar: "), false),
        PromptIntent::Delete(_) => (String::from_str(" Eliminar archivo? (y/N): "), false),
        PromptIntent::ConfirmQuit => (String::from_str(" Cambios sin guardar. Salir de todos modos? (y/N): "), false),
        PromptIntent::SearchText => (String::from_str(" Buscar Texto: "), true),
        PromptIntent::SearchFile => (String::from_str(" Buscar Archivo: "), true),
    }
}

/// How a cell of the text is highlighted.
#[derive(Clone, Copy, Debug, PartialEq, Eq, Structural)]
pub enum Highlight {
    Plain,
    /// Inside an occurrence of the search query.
    Match,
    /// Inside the occurrence the cursor jumped to.
    ActiveMatch,
    /// Inside the selection.
    Selected,
}

/// The search result (a start in `matches`) whose occurrence of `qlen`
/// chars covers `idx`: the first such.
pub open spec fn covering(matches: Seq<usize>, idx: usize, qlen: usize) -> Option<int> {
    crate::app::first_where(matches, covers_idx(idx, qlen))
}

pub open spec fn covers_idx(idx: usize, qlen: usize) -> spec_fn(usize) -> bool {
    |m: usize| m <= idx && idx < m + qlen
}

/// The highlight of the cell for char `idx`: the selection wins; then an
/// occurrence of the query, the active one marked apart.
pub open spec fn highlight_of(idx: usize, matches: Seq<usize>, qlen: usize, active: Option<usize>, sel: Option<(usize, usize)>) -> Highlight {
    if sel matches Some((a, b)) && a <= idx && idx < b {
        Highlight::Selected
    } else if qlen > 0 && covering(matches, idx, qlen) is Some {
        if Some(matches[covering(matches, idx, qlen)->0]) == active { Highlight::ActiveMatch } else { Highlight::Match }
    } else {
        Highlight::Plain
    }
}

pub fn cell_highlight(idx: usize, matches: &Vec<usize>, qlen: usize, active: Option<usize>, sel: Option<(usize, usize)>) -> (h: Highlight)
    ensures
        h == highlight_of(idx, matches@, qlen, active, sel),
{
    match sel {
        Some((a, b)) => {
            if a <= idx && idx < b {
                return Highlight::Selected;
            }
        },
        None => {},
    }
    if qlen == 0 {
        return Highlight::Plain;
    }
    let mut i: usize = 0;
    while i < matches.len()
        invariant
            i <= matches@.len(),
            qlen > 0,
            !(sel matches Some((a, b)) && a <= idx && idx < b),
            forall|j: int| 0 <= j < i ==> !covers_idx(idx, qlen)(#[trigger] matches@[j]),
        decreases matches.len() - i,
    {
        let m = matches[i];
        if m <= idx && (idx as u128) < (m as u128) + (qlen as u128) {
            proof { crate::app::lemma_first_where_some(matches@, covers_idx(idx, qlen), i as int); }
            let is_active = match active {
                Some(a) => a == m,
                None => false,
            };
            return if is_active { Highlight::ActiveMatch } else { Highlight::Match };
        }
        i = i + 1;
    }
    proof { crate::app::lemma_first_where_none(matches@, covers_idx(idx, qlen)); }
    Highlight::Plain
}

/// The lines a view of `height` lines shows from `scroll_y` of a text of
/// `lines` lines: from `scroll_y` up to, not including, the returned end.
pub fn visible_end(scroll_y: usize, height: usize, lines: usize) -> (end: usize)
    requires
        scroll_y + height <= usize::MAX,
    ensures
        end == crate::app::min_nat(scroll_y + height, lines as int),
{
    if scroll_y + height < lines { scroll_y + height } else { lines }
}

/// Where the completion menu opens: below the cursor when the whole menu
/// fits above the bottom of the text area, else above it; never further
/// right than leaves the menu's `width` inside the area.
pub fn popup_origin(
    screen_x: u16,
    screen_y: u16,
    area_right: u16,
    area_bottom: u16,
    width: u16,
    height: u16,
    full_height: u16,
) -> (r: (u16, u16))
    requires
        screen_y + 1 + full_height <= u16::MAX,
    ensures
        r.0 == crate::app::min_nat(screen_x as int, crate::editor::sat_sub(area_right as int, width as int)),
        r.1 == if screen_y + 1 + full_height <= area_bottom {
            screen_y + 1
        } else {
            crate::editor::sat_sub(screen_y as int, height as int)
        },
{
    let y = if screen_y + 1 + full_height <= area_bottom { screen_y + 1 } else { screen_y.saturating_sub(height) };
    let max_x = area_right.saturating_sub(width);
    let x = if screen_x < max_x { screen_x } else { max_x };
    (x, y)
}

/// The position part of the status line: line and column (from 1) of the
/// cursor of the active document and its extension in capitals.
pub open spec fn position_label_of(a: App) -> Seq<char> {
    match a.active_pos() {
        Some(i) => {
            let d = a.documents@[i].1;
            let t = d.buffer.text_view();
            let c = d.buffer.cursor_char_idx as int;
            let line = crate::text::line_of(t, c);
            let col = c - crate::text::line_start_of(t, c);
            let ext = match d.filepath {
                Some(p) => match crate::paths::path_extension(p@) {
                    Some(e) => upper_of(e),
                    None => "TXT"@,
                },
                None => "TXT"@,
            };
            " Ln "@ + decimal(line + 1) + ", Col "@ + decimal((col + 1) as nat) + " | "@ + ext + seq![' ']
        },
        None => " No Doc "@,
    }
}

/// What `str::to_uppercase` gives for `s`.
pub uninterp spec fn upper_of(s: Seq<char>) -> Seq<char>;

/// `str::to_uppercase`: `s` in capitals, by Unicode's case mapping.
#[verifier::external_body]
pub(crate) fn to_upper(s: &str) -> (r: String)
    ensures
        r@ == upper_of(s@),
{
    s.to_uppercase()
}

impl App {
    /// The position part of the status line (see `position_label_of`).
    pub fn position_label(&self) -> (r: String)
        requires
            self.wf(),
            match self.active_pos() {
                Some(i) => self.documents@[i].1.buffer.text_view().len() < usize::MAX,
                None => true,
            },
        ensures
            r@ == position_label_of(*self),
    {
        match self.active_doc_index() {
            Some(i) => {
                let d = &self.documents[i].1;
                let c = d.buffer.cursor_char_idx;
                let (line, start) = d.buffer.line_and_start(c);
                let ext = match &d.filepath {
                    Some(p) => match crate::paths::extension_of(p.as_str()) {
                        Some(e) => to_upper(e.as_str()),
                        None => String::from_str("TXT"),
                    },
                    None => String::from_str("TXT"),
                };
                proof {
                    crate::text::lemma_line_start_of(d.buffer.text_view(), c as int);
                    crate::text::lemma_count_bounded(d.buffer.text_view(), c as int);
                }
                let mut s = String::from_str(" Ln ");
                s.append(decimal_string(line + 1).as_str());
                s.append(", Col ");
                s.append(decimal_string(c - start + 1).as_str());
                s.append(" | ");
                s.append(ext.as_str());
                s.append(" ");
                proof {
                    reveal_strlit(" ");
                    assert(s@ =~= position_label_of(*self));
                }
                s
            },
            None => String::from_str(" No Doc "),
        }
    }
}

} // verus!
