//! The editing buffer: a rope, a cursor with an optional selection anchor,
//! a scroll position, and an undo/redo history that groups edits.
use vstd::prelude::*;
use vstd::string::*;
use std::ops::Range;
use crate::text::{
    is_break_end,
    rope_from_str, rope_insert_char, rope_chars, line_of, rope_new, rope_len_chars, rope_remove, rope_insert, rope_char_to_line,
    rope_line_to_char, rope_len_lines, rope_slice_chars, rope_char, rope_to_string, line_start,
    line_start_of, num_lines, line_chars, count_breaks, lemma_line_start_of, lemma_line_start_of_line,
    lemma_line_start_facts, lemma_line_start_on_line, lemma_count_monotone,
};
use crate::strs::{
    char_whitespace, ascii_punctuation, str_to_chars, is_whitespace, is_ascii_punctuation,
    chars_to_string, str_width, display_width, graphemes, graphemes_of, char_alphanumeric,
    printable_ascii, body_len, ascii_line, ascii_clusters,
    is_alphanumeric, utf16_total, utf16_len, len_utf16, char_to_string,
};
use crate::history::{
    EditSpec, TxSpec, undo_chain, redo_chain, can_apply, apply_edit, can_revert, revert_edit,
    can_revert_edits, revert_edits, lemma_revert_apply, lemma_apply_revert, can_apply_edits,
    apply_edits, lemma_apply_revert_edits, lemma_revert_apply_edits, lemma_first_idx_in_text,
    lemma_last_idx_in_result, lemma_can_apply_prefix,
};

verus! {

#[verifier::external_type_specification]
#[verifier::external_body]
pub struct ExParseState(syntect::parsing::ParseState);

/// An atomic change of the buffer's text.
#[derive(Clone, Debug)]
pub enum Mutation {
    Insert { idx: usize, text: String },
    Delete { idx: usize, text: String },
}

impl View for Mutation {
    type V = EditSpec;

    open spec fn view(&self) -> EditSpec {
        match self {
            Mutation::Insert { idx, text } => EditSpec::Ins(*idx as nat, text@),
            Mutation::Delete { idx, text } => EditSpec::Del(*idx as nat, text@),
        }
    }
}

/// A group of mutations undone and redone as one step (such as typing a word).
#[derive(Clone, Debug)]
pub struct Transaction {
    pub mutations: Vec<Mutation>,
    pub cursor_before: usize,
    pub cursor_after: usize,
}

impl View for Transaction {
    type V = TxSpec;

    open spec fn view(&self) -> TxSpec {
        TxSpec {
            edits: self.mutations@.map_values(|m: Mutation| m@),
            before: self.cursor_before as nat,
            after: self.cursor_after as nat,
        }
    }
}

/// The undo stack once the open transaction, if it holds anything, is sealed.
pub open spec fn sealed(undo: Seq<TxSpec>, cur: Option<TxSpec>) -> Seq<TxSpec> {
    match cur {
        Some(tx) => if tx.edits.len() > 0 { undo.push(tx) } else { undo },
        None => undo,
    }
}

pub open spec fn last_is_insert(tx: TxSpec) -> bool {
    tx.edits.len() > 0 && tx.edits.last() is Ins
}

/// A new edit starts a new group when the cursor jumped since the open group,
/// when it switches between inserting and deleting, or when the group is full.
pub open spec fn breaks_group(cur: Option<TxSpec>, e: EditSpec, cursor_before: nat) -> bool {
    match cur {
        Some(tx) => cursor_before != tx.after || last_is_insert(tx) != e.is_ins() || tx.edits.len() >= 100,
        None => false,
    }
}

/// Two edits that read as one: typing on at the end of an insertion,
/// backspacing just before a deletion, or deleting forward at the same place.
pub open spec fn merge_edit(last: EditSpec, e: EditSpec) -> Option<EditSpec> {
    match (last, e) {
        (EditSpec::Ins(li, ls), EditSpec::Ins(i, s)) => if li + ls.len() == i {
            Some(EditSpec::Ins(li, ls + s))
        } else {
            None
        },
        (EditSpec::Del(li, ls), EditSpec::Del(i, s)) => if i + s.len() == li {
            Some(EditSpec::Del(i, s + ls))
        } else if i == li {
            Some(EditSpec::Del(li, ls + s))
        } else {
            None
        },
        _ => None,
    }
}

/// The edits of a group once `e` has joined it.
pub open spec fn add_edit(edits: Seq<EditSpec>, e: EditSpec) -> Seq<EditSpec> {
    if edits.len() > 0 && merge_edit(edits.last(), e) is Some {
        edits.drop_last().push(merge_edit(edits.last(), e)->0)
    } else {
        edits.push(e)
    }
}

/// Inserted text with a whitespace or ASCII punctuation char closes its group.
pub open spec fn ends_group(e: EditSpec) -> bool {
    e is Ins && exists|k: int|
        0 <= k < e.chars().len() && (char_whitespace(#[trigger] e.chars()[k]) || ascii_punctuation(e.chars()[k]))
}

/// The undo stack and open group after recording edit `e`.
pub open spec fn record(undo: Seq<TxSpec>, cur: Option<TxSpec>, e: EditSpec, cursor_before: nat, cursor_after: nat) -> (Seq<TxSpec>, Option<TxSpec>) {
    let brk = breaks_group(cur, e, cursor_before);
    let u1 = if brk { sealed(undo, cur) } else { undo };
    let c1 = if brk { None } else { cur };
    let base = match c1 {
        Some(tx) => tx,
        None => TxSpec { edits: Seq::empty(), before: cursor_before, after: 0 },
    };
    let tx2 = TxSpec { edits: add_edit(base.edits, e), before: base.before, after: cursor_after };
    if ends_group(e) {
        (u1.push(tx2), None)
    } else {
        (u1, Some(tx2))
    }
}

proof fn lemma_merge(t: Seq<char>, last: EditSpec, e: EditSpec)
    requires
        can_revert(t, last),
        can_apply(t, e),
        merge_edit(last, e) is Some,
    ensures
        can_revert(apply_edit(t, e), merge_edit(last, e)->0),
        revert_edit(apply_edit(t, e), merge_edit(last, e)->0) == revert_edit(t, last),
{
    let u = apply_edit(t, e);
    let m = merge_edit(last, e)->0;
    match (last, e) {
        (EditSpec::Ins(li, ls), EditSpec::Ins(i, s)) => {
            assert(u.subrange(li as int, (li + ls.len() + s.len()) as int) =~= ls + s);
            assert(revert_edit(u, m) =~= revert_edit(t, last));
        },
        (EditSpec::Del(li, ls), EditSpec::Del(i, s)) => {
            if i + s.len() == li {
                assert(revert_edit(u, m) =~= revert_edit(t, last));
            } else {
                assert(t.subrange(li as int, (li + s.len()) as int) =~= s);
                assert(revert_edit(u, m) =~= revert_edit(t, last));
            }
        },
        _ => {},
    }
}

proof fn lemma_revert_edits_last(t: Seq<char>, es: Seq<EditSpec>, m: EditSpec)
    requires
        es.len() > 0,
    ensures
        revert_edits(t, es.drop_last().push(m)) == revert_edits(revert_edit(t, m), es.drop_last()),
        can_revert_edits(t, es.drop_last().push(m)) == (can_revert(t, m) && can_revert_edits(revert_edit(t, m), es.drop_last())),
        revert_edits(t, es.push(m)) == revert_edits(revert_edit(t, m), es),
        can_revert_edits(t, es.push(m)) == (can_revert(t, m) && can_revert_edits(revert_edit(t, m), es)),
{
    assert(es.drop_last().push(m).drop_last() =~= es.drop_last());
    assert(es.push(m).drop_last() =~= es);
}

/// Recording an edit keeps every stored group undoable from the new text.
proof fn lemma_record_chain(t: Seq<char>, undo: Seq<TxSpec>, cur: Option<TxSpec>, e: EditSpec, cb: nat, ca: nat)
    requires
        undo_chain(t, sealed(undo, cur)),
        cur matches Some(tx) ==> tx.edits.len() > 0,
        can_apply(t, e),
        cb <= t.len(),
        ca <= apply_edit(t, e).len(),
    ensures
        undo_chain(apply_edit(t, e), sealed(record(undo, cur, e, cb, ca).0, record(undo, cur, e, cb, ca).1)),
        record(undo, cur, e, cb, ca).1 matches Some(tx) ==> tx.edits.len() > 0,
{
    let u = apply_edit(t, e);
    let brk = breaks_group(cur, e, cb);
    let u1 = if brk { sealed(undo, cur) } else { undo };
    let c1 = if brk { None } else { cur };
    assert(sealed(u1, c1) == sealed(undo, cur));
    let base = match c1 {
        Some(tx) => tx,
        None => TxSpec { edits: Seq::empty(), before: cb, after: 0 },
    };
    let tx2 = TxSpec { edits: add_edit(base.edits, e), before: base.before, after: ca };
    lemma_revert_apply(t, e);
    match c1 {
        None => {
            assert(tx2.edits =~= seq![e]);
            assert(seq![e].drop_last() =~= Seq::<EditSpec>::empty());
            assert(revert_edits(t, Seq::<EditSpec>::empty()) == t);
            assert(can_revert_edits(t, Seq::<EditSpec>::empty()));
            assert(revert_edits(u, tx2.edits) == revert_edits(revert_edit(u, e), Seq::<EditSpec>::empty()));
            assert(revert_edits(u, tx2.edits) == t);
            assert(can_revert_edits(u, tx2.edits));
            assert(sealed(u1, c1) == u1);
            assert(u1.push(tx2).drop_last() =~= u1);
        },
        Some(tx) => {
            assert(sealed(u1, c1) == u1.push(tx));
            assert(u1.push(tx).drop_last() =~= u1);
            assert(u1.push(tx).last() == tx);
            if tx.edits.len() > 0 && merge_edit(tx.edits.last(), e) is Some {
                let m = merge_edit(tx.edits.last(), e)->0;
                lemma_revert_edits_last(t, tx.edits, tx.edits.last());
                assert(tx.edits.drop_last().push(tx.edits.last()) =~= tx.edits);
                lemma_merge(t, tx.edits.last(), e);
                lemma_revert_edits_last(u, tx.edits, m);
            } else {
                lemma_revert_edits_last(u, tx.edits, e);
            }
            assert(revert_edits(u, tx2.edits) == revert_edits(t, tx.edits));
            assert(u1.push(tx2).drop_last() =~= u1);
        },
    }
}

/// Effect of undoing one edit, in the form the language server is told:
/// the replaced char range and the text put in its place.
pub open spec fn undo_delta(e: EditSpec) -> (nat, nat, Seq<char>) {
    match e {
        EditSpec::Ins(i, s) => (i, i + s.len(), Seq::empty()),
        EditSpec::Del(i, s) => (i, i, s),
    }
}

/// Effect of redoing one edit, as a replaced range and its replacement.
pub open spec fn redo_delta(e: EditSpec) -> (nat, nat, Seq<char>) {
    match e {
        EditSpec::Ins(i, s) => (i, i, s),
        EditSpec::Del(i, s) => (i, i + s.len(), Seq::empty()),
    }
}

pub open spec fn delta_view(d: (usize, usize, String)) -> (nat, nat, Seq<char>) {
    (d.0 as nat, d.1 as nat, d.2@)
}

/// `t` with the chars `[d.0, d.1)` replaced by `d.2`.
pub open spec fn replace_range(t: Seq<char>, d: (nat, nat, Seq<char>)) -> Seq<char> {
    t.take(d.0 as int) + d.2 + t.skip(d.1 as int)
}

/// `t` with each replacement of `ds` made in turn, the first one first.
pub open spec fn replay(t: Seq<char>, ds: Seq<(nat, nat, Seq<char>)>) -> Seq<char>
    decreases ds.len(),
{
    if ds.len() == 0 {
        t
    } else {
        replay(replace_range(t, ds[0]), ds.drop_first())
    }
}

/// The changes that undoing the group `es` reports: its edits taken back,
/// the last one first.
pub open spec fn undo_deltas(es: Seq<EditSpec>) -> Seq<(nat, nat, Seq<char>)> {
    Seq::new(es.len(), |j: int| undo_delta(es[es.len() - 1 - j]))
}

/// The changes that redoing the group `es` reports: its edits in order.
pub open spec fn redo_deltas(es: Seq<EditSpec>) -> Seq<(nat, nat, Seq<char>)> {
    Seq::new(es.len(), |j: int| redo_delta(es[j]))
}

/// A reported change either removes a range or puts text at one index,
/// never both.
pub open spec fn delta_shape(d: (nat, nat, Seq<char>)) -> bool {
    d.0 <= d.1 && (d.0 == d.1 || d.2.len() == 0)
}

/// Making, in order, the replacements that undo reports, starting from the
/// text before the undo, gives the text after it; each is a pure removal or
/// a pure insertion.
pub proof fn law_undo_deltas_replay(t: Seq<char>, es: Seq<EditSpec>)
    ensures
        replay(t, undo_deltas(es)) == revert_edits(t, es),
        forall|j: int| 0 <= j < es.len() ==> delta_shape(#[trigger] undo_deltas(es)[j]),
    decreases es.len(),
{
    if es.len() > 0 {
        let e = es.last();
        assert(replace_range(t, undo_delta(e)) =~= revert_edit(t, e));
        assert(undo_deltas(es).drop_first() =~= undo_deltas(es.drop_last()));
        assert(undo_deltas(es)[0] == undo_delta(e));
        law_undo_deltas_replay(revert_edit(t, e), es.drop_last());
    }
}

proof fn lemma_replay_push(t: Seq<char>, ds: Seq<(nat, nat, Seq<char>)>, d: (nat, nat, Seq<char>))
    ensures
        replay(t, ds.push(d)) == replace_range(replay(t, ds), d),
    decreases ds.len(),
{
    assert(ds.push(d)[0] == if ds.len() == 0 { d } else { ds[0] });
    if ds.len() == 0 {
        assert(ds.push(d).drop_first() =~= Seq::<(nat, nat, Seq<char>)>::empty());
        assert(replay(replace_range(t, d), Seq::<(nat, nat, Seq<char>)>::empty()) == replace_range(t, d));
    } else {
        assert(ds.push(d).drop_first() =~= ds.drop_first().push(d));
        lemma_replay_push(replace_range(t, ds[0]), ds.drop_first(), d);
    }
}

/// Making, in order, the replacements that redo reports, starting from the
/// text before the redo, gives the text after it; each is a pure removal or
/// a pure insertion.
pub proof fn law_redo_deltas_replay(t: Seq<char>, es: Seq<EditSpec>)
    ensures
        replay(t, redo_deltas(es)) == apply_edits(t, es),
        forall|j: int| 0 <= j < es.len() ==> delta_shape(#[trigger] redo_deltas(es)[j]),
    decreases es.len(),
{
    if es.len() > 0 {
        let e = es.last();
        law_redo_deltas_replay(t, es.drop_last());
        assert(redo_deltas(es) =~= redo_deltas(es.drop_last()).push(redo_delta(e)));
        lemma_replay_push(t, redo_deltas(es.drop_last()), redo_delta(e));
        assert(replace_range(apply_edits(t, es.drop_last()), redo_delta(e)) =~= apply_edit(apply_edits(t, es.drop_last()), e));
    }
}

/// Smallest char index an edit of the group touches (`usize::MAX` for none).
pub open spec fn min_edit_idx(es: Seq<EditSpec>) -> int
    decreases es.len(),
{
    if es.len() == 0 {
        usize::MAX as int
    } else {
        let rest = min_edit_idx(es.drop_first());
        if (es[0].idx() as int) < rest { es[0].idx() as int } else { rest }
    }
}

/// The line index from which syntax highlighting is stale after edits that
/// touch index `m` (nothing changes when no index was touched).
pub open spec fn dirty_after(old_dirty: nat, t: Seq<char>, m: int) -> nat {
    if m != usize::MAX as int {
        let l = line_of(t, m);
        if l < old_dirty { l } else { old_dirty }
    } else {
        old_dirty
    }
}

pub open spec fn lowered(old_dirty: nat, l: nat) -> nat {
    if l < old_dirty { l } else { old_dirty }
}

pub open spec fn truncated<T>(v: Seq<T>, n: nat) -> Seq<T> {
    if n <= v.len() { v.take(n as int) } else { v }
}

/// The syntax cache once it is cut at the stale mark, which happens only
/// when some index `m` was touched.
pub open spec fn cache_after<T>(v: Seq<T>, dirty: nat, m: int) -> Seq<T> {
    if m != usize::MAX as int { truncated(v, dirty) } else { v }
}

/// The text buffer of the editor.  The rope makes inserting and deleting
/// cheap anywhere in large documents.
pub struct EditorBuffer {
    pub text: ropey::Rope,
    pub cursor_char_idx: usize,
    pub selection_anchor: Option<usize>,
    pub scroll_x: usize,
    pub scroll_y: usize,
    pub syntax_cache: Vec<syntect::parsing::ParseState>,
    pub min_dirty_line: usize,
    pub undo_stack: Vec<Transaction>,
    pub redo_stack: Vec<Transaction>,
    pub current_tx: Option<Transaction>,
    pub target_visual_col: usize,
}

impl EditorBuffer {
    pub open spec fn text_view(&self) -> Seq<char> {
        rope_chars(self.text)
    }

    pub open spec fn undo_view(&self) -> Seq<TxSpec> {
        self.undo_stack@.map_values(|t: Transaction| t@)
    }

    pub open spec fn redo_view(&self) -> Seq<TxSpec> {
        self.redo_stack@.map_values(|t: Transaction| t@)
    }

    pub open spec fn cur_view(&self) -> Option<TxSpec> {
        match self.current_tx {
            Some(tx) => Some(tx@),
            None => None,
        }
    }

    /// What undo would walk back through: the undo stack with the open group sealed.
    pub open spec fn history(&self) -> Seq<TxSpec> {
        sealed(self.undo_view(), self.cur_view())
    }

    /// The selection anchor, if any, lies inside the text.
    pub open spec fn anchor_ok(&self) -> bool {
        self.selection_anchor matches Some(a) ==> a <= self.text_view().len()
    }

    /// The buffer is consistent: the cursor inside the text, an open
    /// group is never empty, and every stored group can be undone (or redone)
    /// in turn from the current text.
    pub open spec fn wf(&self) -> bool {
        &&& self.cursor_char_idx <= self.text_view().len()
        &&& (self.cur_view() matches Some(tx) ==> tx.edits.len() > 0)
        &&& undo_chain(self.text_view(), self.history())
        &&& redo_chain(self.text_view(), self.redo_view())
    }

    /// Everything but the history and the text is as in `other`.
    pub open spec fn same_view_state(&self, other: &Self) -> bool {
        &&& self.cursor_char_idx == other.cursor_char_idx
        &&& self.selection_anchor == other.selection_anchor
        &&& self.scroll_x == other.scroll_x
        &&& self.scroll_y == other.scroll_y
        &&& self.syntax_cache@ == other.syntax_cache@
        &&& self.min_dirty_line == other.min_dirty_line
        &&& self.target_visual_col == other.target_visual_col
    }

    pub fn new() -> (b: Self)
        ensures
            b.wf(),
            b.text_view() == Seq::<char>::empty(),
            b.cursor_char_idx == 0,
            b.selection_anchor is None,
            b.scroll_x == 0,
            b.scroll_y == 0,
            b.syntax_cache@.len() == 0,
            b.min_dirty_line == 0,
            b.undo_view().len() == 0,
            b.redo_view().len() == 0,
            b.current_tx is None,
            b.target_visual_col == 0,
    {
        let b = EditorBuffer {
            text: rope_new(),
            cursor_char_idx: 0,
            selection_anchor: None,
            scroll_x: 0,
            scroll_y: 0,
            syntax_cache: Vec::with_capacity(1024),
            min_dirty_line: 0,
            undo_stack: Vec::new(),
            redo_stack: Vec::new(),
            current_tx: None,
            target_visual_col: 0,
        };
        assert(b.undo_view() =~= Seq::<TxSpec>::empty());
        assert(b.redo_view() =~= Seq::<TxSpec>::empty());
        b
    }

    /// Seals the open group, so that later edits are not merged into it.
    pub fn commit_tx(&mut self)
        ensures
            final(self).undo_view() == sealed(old(self).undo_view(), old(self).cur_view()),
            final(self).current_tx is None,
            final(self).redo_view() == old(self).redo_view(),
            final(self).text_view() == old(self).text_view(),
            final(self).same_view_state(old(self)),
            final(self).history() == old(self).history(),
            old(self).wf() ==> final(self).wf(),
    {
        if let Some(tx) = self.current_tx.take() {
            if tx.mutations.len() > 0 {
                self.undo_stack.push(tx);
                assert(self.undo_view() =~= old(self).undo_view().push(tx@));
            }
        }
    }
}


/// Whether `text` holds a whitespace or ASCII punctuation char.
fn has_group_separator(text: &String) -> (b: bool)
    ensures
        b == exists|k: int| 0 <= k < text@.len() && (char_whitespace(#[trigger] text@[k]) || ascii_punctuation(text@[k])),
{
    let cs = str_to_chars(text.as_str());
    let mut i: usize = 0;
    while i < cs.len()
        invariant
            cs@ == text@,
            i <= cs.len(),
            forall|k: int| 0 <= k < i ==> !(char_whitespace(#[trigger] text@[k]) || ascii_punctuation(text@[k])),
        decreases cs.len() - i,
    {
        if is_whitespace(cs[i]) || is_ascii_punctuation(cs[i]) {
            return true;
        }
        i = i + 1;
    }
    false
}

/// Folds `m` into `last` when the two read as one edit.
fn merge_mutations(last: Mutation, m: &Mutation) -> (r: Result<Mutation, Mutation>)
    ensures
        match r {
            Ok(x) => merge_edit(last@, m@) == Some(x@),
            Err(x) => merge_edit(last@, m@) is None && x@ == last@,
        },
{
    match last {
        Mutation::Insert { idx: l_idx, text: l_text } => {
            match m {
                Mutation::Insert { idx, text } => {
                    let l_len = l_text.as_str().unicode_len();
                    if *idx >= l_idx && *idx - l_idx == l_len {
                        let mut merged = l_text;
                        merged.append(text.as_str());
                        Ok(Mutation::Insert { idx: l_idx, text: merged })
                    } else {
                        Err(Mutation::Insert { idx: l_idx, text: l_text })
                    }
                },
                Mutation::Delete { .. } => Err(Mutation::Insert { idx: l_idx, text: l_text }),
            }
        },
        Mutation::Delete { idx: l_idx, text: l_text } => {
            match m {
                Mutation::Delete { idx, text } => {
                    let len = text.as_str().unicode_len();
                    if l_idx >= *idx && l_idx - *idx == len {
                        let merged = text.clone().concat(l_text.as_str());
                        Ok(Mutation::Delete { idx: *idx, text: merged })
                    } else if *idx == l_idx {
                        let mut merged = l_text;
                        merged.append(text.as_str());
                        Ok(Mutation::Delete { idx: l_idx, text: merged })
                    } else {
                        Err(Mutation::Delete { idx: l_idx, text: l_text })
                    }
                },
                Mutation::Insert { .. } => Err(Mutation::Delete { idx: l_idx, text: l_text }),
            }
        },
    }
}

impl EditorBuffer {
    /// Records an edit that has just been made to the text, merging it into
    /// the open group when it continues it, or opening a new group.
    fn record_edit(&mut self, muta: Mutation, cursor_before: usize, cursor_after: usize)
        requires
            can_revert(old(self).text_view(), muta@),
            undo_chain(revert_edit(old(self).text_view(), muta@), old(self).history()),
            old(self).cur_view() matches Some(tx) ==> tx.edits.len() > 0,
            cursor_before <= revert_edit(old(self).text_view(), muta@).len(),
            cursor_after <= old(self).text_view().len(),
        ensures
            (final(self).undo_view(), final(self).cur_view()) == record(
                old(self).undo_view(),
                old(self).cur_view(),
                muta@,
                cursor_before as nat,
                cursor_after as nat,
            ),
            final(self).redo_view() == Seq::<TxSpec>::empty(),
            final(self).text_view() == old(self).text_view(),
            final(self).same_view_state(old(self)),
            undo_chain(final(self).text_view(), final(self).history()),
            final(self).cur_view() matches Some(tx) ==> tx.edits.len() > 0,
    {
        let ghost t0 = revert_edit(old(self).text_view(), muta@);
        proof {
            lemma_apply_revert(old(self).text_view(), muta@);
            lemma_record_chain(t0, old(self).undo_view(), old(self).cur_view(), muta@, cursor_before as nat, cursor_after as nat);
        }
        self.redo_stack.clear();
        assert(self.redo_view() =~= Seq::<TxSpec>::empty());

        let mut should_commit = false;
        match &self.current_tx {
            Some(tx) => {
                if cursor_before != tx.cursor_after {
                    should_commit = true;
                } else {
                    let n = tx.mutations.len();
                    let last_is_ins = n > 0 && matches!(tx.mutations[n - 1], Mutation::Insert { .. });
                    let is_ins = matches!(muta, Mutation::Insert { .. });
                    assert(n > 0 ==> tx@.edits.last() == tx.mutations@[n - 1]@);
                    if last_is_ins != is_ins {
                        should_commit = true;
                    } else if n >= 100 {
                        should_commit = true;
                    }
                }
            },
            None => {},
        }
        assert(should_commit == breaks_group(old(self).cur_view(), muta@, cursor_before as nat));
        if should_commit {
            self.commit_tx();
        }
        let ghost u1 = self.undo_view();
        let ghost c1 = self.cur_view();
        assert(u1 == (if should_commit { sealed(old(self).undo_view(), old(self).cur_view()) } else { old(self).undo_view() }));
        assert(c1 == (if should_commit { None } else { old(self).cur_view() }));
        let mut tx = match self.current_tx.take() {
            Some(tx) => tx,
            None => {
                let t = Transaction { mutations: Vec::new(), cursor_before, cursor_after: 0 };
                assert(t@.edits =~= Seq::<EditSpec>::empty());
                t
            },
        };
        let ghost base = tx@;
        assert(base == match c1 {
            Some(t) => t,
            None => TxSpec { edits: Seq::empty(), before: cursor_before as nat, after: 0 },
        });
        let ends = match &muta {
            Mutation::Insert { text, .. } => {
                let b = has_group_separator(text);
                assert(muta@.chars() == text@);
                proof {
                    if b {
                        let k = choose|k: int| 0 <= k < text@.len() && (char_whitespace(#[trigger] text@[k]) || ascii_punctuation(text@[k]));
                        assert(muta@.chars()[k] == text@[k]);
                    }
                }
                b
            },
            Mutation::Delete { .. } => false,
        };
        assert(ends == ends_group(muta@));
        match tx.mutations.pop() {
            Some(last) => {
                assert(last@ == base.edits.last());
                match merge_mutations(last, &muta) {
                    Ok(merged) => {
                        tx.mutations.push(merged);
                    },
                    Err(last) => {
                        tx.mutations.push(last);
                        tx.mutations.push(muta);
                    },
                }
            },
            None => {
                tx.mutations.push(muta);
            },
        }
        tx.cursor_after = cursor_after;
        assert(tx@.edits =~= add_edit(base.edits, muta@));
        let ghost tx2 = TxSpec { edits: add_edit(base.edits, muta@), before: base.before, after: cursor_after as nat };
        assert(tx@ == tx2);
        self.current_tx = Some(tx);
        assert(self.undo_view() == u1);
        if ends {
            self.commit_tx();
            assert(tx2.edits.len() > 0);
            assert(self.undo_view() == u1.push(tx2));
        }
    }
}

proof fn lemma_min_edit_idx_le(es: Seq<EditSpec>, k: int)
    requires
        0 <= k < es.len(),
    ensures
        min_edit_idx(es) <= es[k].idx(),
    decreases es.len(),
{
    if k > 0 {
        lemma_min_edit_idx_le(es.drop_first(), k - 1);
    }
}

proof fn lemma_min_edit_idx_push(es: Seq<EditSpec>, e: EditSpec)
    ensures
        min_edit_idx(es.push(e)) == if (e.idx() as int) < min_edit_idx(es) { e.idx() as int } else { min_edit_idx(es) },
    decreases es.len(),
{
    if es.len() > 0 {
        assert(es.push(e).drop_first() =~= es.drop_first().push(e));
        assert(es.push(e)[0] == es[0]);
        lemma_min_edit_idx_push(es.drop_first(), e);
    } else {
        assert(es.push(e).drop_first() =~= Seq::<EditSpec>::empty());
        assert(min_edit_idx(Seq::<EditSpec>::empty()) == usize::MAX as int);
        assert(es.push(e)[0] == e);
    }
}

impl EditorBuffer {
    /// Lowers the stale-highlighting mark to the line of `min_affected`
    /// (when it is a real index) and drops cached parse states from there on.
    fn mark_dirty_from(&mut self, min_affected: usize)
        requires
            min_affected != usize::MAX ==> min_affected <= old(self).text_view().len(),
        ensures
            final(self).min_dirty_line == dirty_after(old(self).min_dirty_line as nat, old(self).text_view(), min_affected as int),
            final(self).syntax_cache@ == cache_after(old(self).syntax_cache@, final(self).min_dirty_line as nat, min_affected as int),
            final(self).text == old(self).text,
            final(self).cursor_char_idx == old(self).cursor_char_idx,
            final(self).selection_anchor == old(self).selection_anchor,
            final(self).scroll_x == old(self).scroll_x,
            final(self).scroll_y == old(self).scroll_y,
            final(self).undo_stack@ == old(self).undo_stack@,
            final(self).redo_stack@ == old(self).redo_stack@,
            final(self).current_tx == old(self).current_tx,
            final(self).target_visual_col == old(self).target_visual_col,
    {
        if min_affected != usize::MAX {
            let current_line = rope_char_to_line(&self.text, min_affected);
            if current_line < self.min_dirty_line {
                self.min_dirty_line = current_line;
            }
            self.syntax_cache.truncate(self.min_dirty_line);
        }
    }
}

impl EditorBuffer {
    /// `self` is `b0` after `undo`: the last group of the history (the open
    /// one sealed first) taken back and moved to the redo stack, the cursor
    /// where the group began; nothing else changes when there is none.
    pub open spec fn undone(&self, b0: &Self) -> bool {
        &&& self.wf()
        &&& self.current_tx is None
        &&& self.scroll_x == b0.scroll_x
        &&& self.scroll_y == b0.scroll_y
        &&& self.target_visual_col == b0.target_visual_col
        &&& if b0.history().len() == 0 {
            &&& self.text_view() == b0.text_view()
            &&& self.undo_view() == b0.history()
            &&& self.redo_view() == b0.redo_view()
            &&& self.same_view_state(b0)
        } else {
            let tx = b0.history().last();
            &&& self.text_view() == revert_edits(b0.text_view(), tx.edits)
            &&& self.cursor_char_idx == tx.before
            &&& self.selection_anchor is None
            &&& self.undo_view() == b0.history().drop_last()
            &&& self.redo_view() == b0.redo_view().push(tx)
            &&& self.min_dirty_line == dirty_after(b0.min_dirty_line as nat, self.text_view(), min_edit_idx(tx.edits))
            &&& self.syntax_cache@ == cache_after(b0.syntax_cache@, self.min_dirty_line as nat, min_edit_idx(tx.edits))
        }
    }

    /// `self` is `b0` after `redo`: the last undone group performed again and
    /// moved back to the undo stack, the cursor where the group ended;
    /// nothing else changes (but the open group is sealed) when there is none.
    pub open spec fn redone(&self, b0: &Self) -> bool {
        &&& self.wf()
        &&& self.current_tx is None
        &&& self.scroll_x == b0.scroll_x
        &&& self.scroll_y == b0.scroll_y
        &&& self.target_visual_col == b0.target_visual_col
        &&& if b0.redo_view().len() == 0 {
            &&& self.text_view() == b0.text_view()
            &&& self.undo_view() == b0.history()
            &&& self.redo_view() == b0.redo_view()
            &&& self.same_view_state(b0)
        } else {
            let tx = b0.redo_view().last();
            &&& self.text_view() == apply_edits(b0.text_view(), tx.edits)
            &&& self.cursor_char_idx == tx.after
            &&& self.selection_anchor is None
            &&& self.undo_view() == b0.history().push(tx)
            &&& self.redo_view() == b0.redo_view().drop_last()
            &&& self.min_dirty_line == dirty_after(b0.min_dirty_line as nat, self.text_view(), min_edit_idx(tx.edits))
            &&& self.syntax_cache@ == cache_after(b0.syntax_cache@, self.min_dirty_line as nat, min_edit_idx(tx.edits))
        }
    }
}

impl EditorBuffer {
    /// Steps back over the most recent group of edits.  Returns the changes
    /// made, as (start, end, replacement) char ranges ready to be sent to a
    /// language server, or `None` when there is nothing to undo.
    pub fn undo(&mut self) -> (r: Option<Vec<(usize, usize, String)>>)
        requires
            old(self).wf(),
        ensures
            final(self).undone(old(self)),
            old(self).history().len() == 0 ==> r is None,
            old(self).history().len() > 0 ==> {
                let tx = old(self).history().last();
                r matches Some(d) && d@.len() == tx.edits.len() && (forall|j: int|
                    0 <= j < d@.len() ==> delta_view(#[trigger] d@[j]) == undo_delta(tx.edits[tx.edits.len() - 1 - j]))
            },
            r matches Some(d) ==> {
                &&& d@.map_values(|x: (usize, usize, String)| delta_view(x)) == undo_deltas(old(self).history().last().edits)
                &&& replay(old(self).text_view(), d@.map_values(|x: (usize, usize, String)| delta_view(x))) == final(self).text_view()
            },
    {
        self.commit_tx();
        let ghost h = self.undo_view();
        let tx = match self.undo_stack.pop() {
            Some(tx) => tx,
            None => {
                return None;
            },
        };
        assert(h.last() == tx@);
        assert(self.undo_view() =~= h.drop_last());
        let ghost t0 = self.text_view();
        let ghost es = tx@.edits;
        let n = tx.mutations.len();
        let mut deltas: Vec<(usize, usize, String)> = Vec::new();
        let mut min_affected: usize = usize::MAX;
        let mut k = n;
        assert(es.take(n as int) =~= es);
        assert(es.skip(n as int) =~= Seq::<EditSpec>::empty());
        while k > 0
            invariant
                k <= n,
                n == tx.mutations@.len(),
                es == tx@.edits,
                can_revert_edits(self.text_view(), es.take(k as int)),
                revert_edits(self.text_view(), es.take(k as int)) == revert_edits(t0, es),
                deltas@.len() == n - k,
                forall|j: int| 0 <= j < deltas@.len() ==> delta_view(#[trigger] deltas@[j]) == undo_delta(es[n - 1 - j]),
                min_affected == min_edit_idx(es.skip(k as int)),
                self.undo_view() == h.drop_last(),
                self.redo_view() == old(self).redo_view(),
                self.current_tx is None,
                self.same_view_state(old(self)),
            decreases k,
        {
            let len_now = rope_len_chars(&self.text);
            let ghost before = self.text_view();
            k = k - 1;
            assert(es.take(k + 1).last() == es[k as int]);
            assert(es.take(k + 1).drop_last() =~= es.take(k as int));
            assert(es[k as int] == tx.mutations@[k as int]@);
            let idx = match &tx.mutations[k] {
                Mutation::Insert { idx, text } => {
                    let len = text.as_str().unicode_len();
                    rope_remove(&mut self.text, *idx, *idx + len);
                    deltas.push((*idx, *idx + len, String::new()));
                    *idx
                },
                Mutation::Delete { idx, text } => {
                    rope_insert(&mut self.text, *idx, text.as_str());
                    deltas.push((*idx, *idx, text.clone()));
                    *idx
                },
            };
            assert(self.text_view() =~= revert_edit(before, es[k as int]));
            assert(es.skip(k as int).drop_first() =~= es.skip(k + 1));
            assert(es.skip(k as int)[0] == es[k as int]);
            if idx < min_affected {
                min_affected = idx;
            }
        }
        assert(es.take(0) =~= Seq::<EditSpec>::empty());
        assert(es.skip(0) =~= es);
        proof {
            lemma_apply_revert_edits(t0, es);
            lemma_first_idx_in_text(self.text_view(), es);
            lemma_min_edit_idx_le(es, 0);
        }
        self.cursor_char_idx = tx.cursor_before;
        self.selection_anchor = None;
        self.mark_dirty_from(min_affected);
        self.redo_stack.push(tx);
        assert(self.redo_view() =~= old(self).redo_view().push(tx@));
        assert(self.redo_view().drop_last() =~= old(self).redo_view());
        proof {
            assert(deltas@.map_values(|x: (usize, usize, String)| delta_view(x)) =~= undo_deltas(es));
            law_undo_deltas_replay(t0, es);
        }
        Some(deltas)
    }
}

impl EditorBuffer {
    /// Performs again the most recently undone group of edits.  Returns the
    /// changes made as (start, end, replacement) char ranges, or `None` when
    /// there is nothing to redo.
    pub fn redo(&mut self) -> (r: Option<Vec<(usize, usize, String)>>)
        requires
            old(self).wf(),
        ensures
            final(self).redone(old(self)),
            old(self).redo_view().len() == 0 ==> r is None,
            old(self).redo_view().len() > 0 ==> {
                let tx = old(self).redo_view().last();
                r matches Some(d) && d@.len() == tx.edits.len() && (forall|j: int|
                    0 <= j < d@.len() ==> delta_view(#[trigger] d@[j]) == redo_delta(tx.edits[j]))
            },
            r matches Some(d) ==> {
                &&& d@.map_values(|x: (usize, usize, String)| delta_view(x)) == redo_deltas(old(self).redo_view().last().edits)
                &&& replay(old(self).text_view(), d@.map_values(|x: (usize, usize, String)| delta_view(x))) == final(self).text_view()
            },
    {
        self.commit_tx();
        let ghost r0 = self.redo_view();
        let tx = match self.redo_stack.pop() {
            Some(tx) => tx,
            None => {
                return None;
            },
        };
        assert(r0.last() == tx@);
        assert(self.redo_view() =~= r0.drop_last());
        let ghost t0 = self.text_view();
        let ghost es = tx@.edits;
        let n = tx.mutations.len();
        let mut deltas: Vec<(usize, usize, String)> = Vec::new();
        let mut min_affected: usize = usize::MAX;
        let mut k: usize = 0;
        assert(es.take(0) =~= Seq::<EditSpec>::empty());
        assert(es.take(n as int) =~= es);
        while k < n
            invariant
                k <= n,
                n == tx.mutations@.len(),
                es == tx@.edits,
                can_apply_edits(t0, es),
                self.text_view() == apply_edits(t0, es.take(k as int)),
                deltas@.len() == k,
                forall|j: int| 0 <= j < deltas@.len() ==> delta_view(#[trigger] deltas@[j]) == redo_delta(es[j]),
                min_affected == min_edit_idx(es.take(k as int)),
                self.undo_view() == old(self).history(),
                self.redo_view() == r0.drop_last(),
                self.current_tx is None,
                self.same_view_state(old(self)),
            decreases n - k,
        {
            let len_now = rope_len_chars(&self.text);
            let ghost before = self.text_view();
            proof {
                lemma_can_apply_prefix(t0, es, k + 1);
                assert(es.take(k + 1).last() == es[k as int]);
                assert(es.take(k + 1).drop_last() =~= es.take(k as int));
            }
            assert(es[k as int] == tx.mutations@[k as int]@);
            let idx = match &tx.mutations[k] {
                Mutation::Insert { idx, text } => {
                    rope_insert(&mut self.text, *idx, text.as_str());
                    deltas.push((*idx, *idx, text.clone()));
                    *idx
                },
                Mutation::Delete { idx, text } => {
                    let len = text.as_str().unicode_len();
                    rope_remove(&mut self.text, *idx, *idx + len);
                    deltas.push((*idx, *idx + len, String::new()));
                    *idx
                },
            };
            assert(self.text_view() =~= apply_edit(before, es[k as int]));
            proof {
                lemma_min_edit_idx_push(es.take(k as int), es[k as int]);
                assert(es.take(k as int).push(es[k as int]) =~= es.take(k + 1));
            }
            if idx < min_affected {
                min_affected = idx;
            }
            k = k + 1;
        }
        proof {
            lemma_revert_apply_edits(t0, es);
            lemma_last_idx_in_result(t0, es);
            lemma_min_edit_idx_le(es, es.len() - 1);
        }
        self.cursor_char_idx = tx.cursor_after;
        self.selection_anchor = None;
        self.mark_dirty_from(min_affected);
        self.undo_stack.push(tx);
        assert(self.undo_view() =~= old(self).history().push(tx@));
        assert(self.undo_view().drop_last() =~= old(self).history());
        proof {
            assert(deltas@.map_values(|x: (usize, usize, String)| delta_view(x)) =~= redo_deltas(es));
            law_redo_deltas_replay(t0, es);
        }
        Some(deltas)
    }
}

/// Display column of position `i` within its line: the width of the text
/// between the line start and `i`.
pub open spec fn visual_col(s: Seq<char>, i: int) -> int {
    display_width(s.subrange(line_start_of(s, i), i)) as int
}

/// How many chars of a line's graphemes fit before display column `target`,
/// starting at column `col`: at least one grapheme is always taken, and the
/// line break never is.
pub open spec fn vc_offset(gs: Seq<Seq<char>>, target: int, col: int) -> nat
    decreases gs.len(),
{
    if gs.len() == 0 {
        0
    } else {
        let g = gs[0];
        if g == seq!['\n'] || g == seq!['\r', '\n'] {
            0
        } else if col + display_width(g) > target && col > 0 {
            0
        } else {
            g.len() + vc_offset(gs.drop_first(), target, col + display_width(g))
        }
    }
}

/// Chars of an ASCII line with `len` chars before its break that column
/// `target` takes: one per column, at least one, never the break.
pub open spec fn ascii_col_offset(target: int, len: int) -> int {
    let t = if target < 1 { 1 } else { target };
    if t < len { t } else { len }
}

/// The char index on line `l` that display column `target` falls on.
pub open spec fn col_to_char(s: Seq<char>, l: nat, target: int) -> int {
    line_start(s, l) + vc_offset(graphemes(line_chars(s, l)), target, 0)
}

/// Length of line `l` without its trailing LF or CRLF.
pub open spec fn line_len_no_nl(s: Seq<char>, l: nat) -> int {
    let c = line_chars(s, l);
    if c.len() > 0 && c.last() == '\n' {
        if c.len() > 1 && c[c.len() - 2] == '\r' { c.len() - 2 } else { c.len() - 1 }
    } else {
        c.len() as int
    }
}

pub open spec fn is_word_char(c: char) -> bool {
    char_alphanumeric(c) || c == '_'
}

/// Start of the run of word chars that ends at `i`.
pub open spec fn word_start(s: Seq<char>, i: int) -> int
    decreases i,
{
    if i <= 0 || !is_word_char(s[i - 1]) { i } else { word_start(s, i - 1) }
}

/// Number of leading spaces and tabs of `c` from position `k` on.
pub open spec fn indent_len(c: Seq<char>, k: int) -> int
    decreases c.len() - k,
{
    if k < 0 || k >= c.len() || (c[k] != ' ' && c[k] != '\t') { 0 } else { 1 + indent_len(c, k + 1) }
}

/// Language-server position (line, UTF-16 column) of char index `i`,
/// both truncated to 32 bits as the protocol type holds them.
pub open spec fn lsp_position(s: Seq<char>, i: int) -> (u32, u32) {
    (line_of(s, i) as u32, utf16_total(s.subrange(line_start_of(s, i), i)) as u32)
}

proof fn lemma_vc_offset_le(gs: Seq<Seq<char>>, target: int, col: int)
    ensures
        vc_offset(gs, target, col) <= gs.flatten().len(),
    decreases gs.len(),
{
    if gs.len() > 0 {
        lemma_vc_offset_le(gs.drop_first(), target, col + display_width(gs[0]));
    }
}

proof fn lemma_utf16_total_le(s: Seq<char>)
    ensures
        utf16_total(s) <= 2 * s.len(),
    decreases s.len(),
{
    if s.len() > 0 {
        lemma_utf16_total_le(s.drop_last());
    }
}

pub proof fn lemma_word_start(s: Seq<char>, i: int)
    requires
        0 <= i <= s.len(),
    ensures
        0 <= word_start(s, i) <= i,
        forall|j: int| word_start(s, i) <= j < i ==> is_word_char(#[trigger] s[j]),
        word_start(s, i) == 0 || !is_word_char(s[word_start(s, i) - 1]),
    decreases i,
{
    if i > 0 && is_word_char(s[i - 1]) {
        lemma_word_start(s, i - 1);
    }
}

impl EditorBuffer {
    /// Text, history, scroll position and highlighting state are as in `old`.
    pub open spec fn same_content(&self, old: &Self) -> bool {
        &&& self.text == old.text
        &&& self.undo_stack@ == old.undo_stack@
        &&& self.redo_stack@ == old.redo_stack@
        &&& self.current_tx == old.current_tx
        &&& self.scroll_x == old.scroll_x
        &&& self.scroll_y == old.scroll_y
        &&& self.syntax_cache@ == old.syntax_cache@
        &&& self.min_dirty_line == old.min_dirty_line
    }

    /// Start and end (one past the line break) of line `l`.
    fn line_range(&self, l: usize) -> (r: (usize, usize))
        requires
            l < num_lines(self.text_view()),
        ensures
            r.0 == line_start(self.text_view(), l as nat),
            r.1 == line_start(self.text_view(), l as nat + 1),
            r.0 <= r.1 <= self.text_view().len(),
    {
        let n = rope_len_lines(&self.text);
        let a = rope_line_to_char(&self.text, l);
        let b = rope_line_to_char(&self.text, l + 1);
        proof {
            lemma_line_start_facts(self.text_view(), l as nat);
            lemma_line_start_facts(self.text_view(), l as nat + 1);
        }
        (a, b)
    }

    /// Line of position `i` and the char index where that line starts.
    pub fn line_and_start(&self, i: usize) -> (r: (usize, usize))
        requires
            i <= self.text_view().len(),
        ensures
            r.0 == line_of(self.text_view(), i as int),
            r.0 < num_lines(self.text_view()),
            r.1 == line_start_of(self.text_view(), i as int),
            r.1 == line_start(self.text_view(), r.0 as nat),
            r.1 <= i,
    {
        let n = rope_len_lines(&self.text);
        let l = rope_char_to_line(&self.text, i);
        proof {
            lemma_count_monotone(self.text_view(), i as int, self.text_view().len() as int);
            lemma_line_start_of(self.text_view(), i as int);
            lemma_line_start_of_line(self.text_view(), i as int);
        }
        let start = rope_line_to_char(&self.text, l);
        (l, start)
    }

    /// Display column of char index `char_idx` within its line.
    pub fn char_idx_to_visual_col(&self, char_idx: usize) -> (c: usize)
        requires
            char_idx <= self.text_view().len(),
        ensures
            c == visual_col(self.text_view(), char_idx as int),
            printable_ascii(self.text_view().subrange(line_start_of(self.text_view(), char_idx as int), char_idx as int))
                ==> c == char_idx - line_start_of(self.text_view(), char_idx as int),
    {
        let (_l, line_start) = self.line_and_start(char_idx);
        let prefix = rope_slice_chars(&self.text, line_start, char_idx);
        let s = chars_to_string(&prefix);
        str_width(s.as_str())
    }

    /// Char index on line `line_idx` nearest to display column `target_col`
    /// without passing it (but always past at least one grapheme, and never
    /// onto the line break).
    pub fn visual_col_to_char_idx(&self, line_idx: usize, target_col: usize) -> (r: usize)
        requires
            line_idx < num_lines(self.text_view()),
        ensures
            r == col_to_char(self.text_view(), line_idx as nat, target_col as int),
            r <= self.text_view().len(),
            ascii_line(line_chars(self.text_view(), line_idx as nat)) ==> r == line_start(self.text_view(), line_idx as nat)
                + ascii_col_offset(target_col as int, body_len(line_chars(self.text_view(), line_idx as nat))),
    {
        let (a, b) = self.line_range(line_idx);
        let line = rope_slice_chars(&self.text, a, b);
        let line_str = chars_to_string(&line);
        let gs = graphemes_of(line_str.as_str());
        let ghost lc = line_chars(self.text_view(), line_idx as nat);
        let ghost g = graphemes(lc);
        let ghost asc = ascii_line(lc);
        let ghost ll = body_len(lc);
        assert(line_str@ == lc);
        let mut current_col: usize = 0;
        let mut char_offset: usize = 0;
        let mut k: usize = 0;
        proof {
            assert(g.skip(0) =~= g);
            lemma_vc_offset_le(g, target_col as int, 0);
        }
        while k < gs.len()
            invariant
                gs@.map_values(|x: String| x@) == g,
                g.flatten().len() == b - a,
                k <= gs.len(),
                char_offset + vc_offset(g.skip(k as int), target_col as int, current_col as int) == vc_offset(g, target_col as int, 0),
                vc_offset(g, target_col as int, 0) <= b - a,
                k == 0 ==> current_col == 0,
                asc == ascii_line(lc),
                ll == body_len(lc),
                asc ==> g == ascii_clusters(lc),
                asc ==> k <= ll && char_offset == k && (k > 0 ==> current_col == k) && (k <= 1 || k <= target_col),
            ensures
                char_offset == vc_offset(g, target_col as int, 0),
                asc ==> char_offset == ascii_col_offset(target_col as int, ll),
            decreases gs.len() - k,
        {
            let ghost rest = g.skip(k as int);
            assert(rest[0] == g[k as int]);
            assert(rest.drop_first() =~= g.skip(k + 1));
            let piece = &gs[k];
            assert(piece@ == g[k as int]);
            proof {
                if asc && k < ll {
                    assert(g[k as int] == seq![lc[k as int]]);
                    assert(lc.take(ll)[k as int] == lc[k as int]);
                    assert(printable_ascii(piece@));
                }
                if asc && k == ll {
                    assert(g[k as int] == lc.skip(ll));
                    if lc.len() > 1 && lc.last() == '\n' && lc[lc.len() - 2] == '\r' {
                        assert(lc.skip(ll) =~= seq!['\r', '\n']);
                    } else {
                        assert(lc.skip(ll) =~= seq!['\n']);
                    }
                }
            }
            let pc = str_to_chars(piece.as_str());
            let is_nl = (pc.len() == 1 && pc[0] == '\n') || (pc.len() == 2 && pc[0] == '\r' && pc[1] == '\n');
            assert(is_nl == (g[k as int] == seq!['\n'] || g[k as int] == seq!['\r', '\n'])) by {
                if g[k as int] == seq!['\n'] { assert(pc@ == seq!['\n']); }
                if g[k as int] == seq!['\r', '\n'] { assert(pc@ == seq!['\r', '\n']); }
                if pc.len() == 1 && pc[0] == '\n' { assert(pc@ =~= seq!['\n']); }
                if pc.len() == 2 && pc[0] == '\r' && pc[1] == '\n' { assert(pc@ =~= seq!['\r', '\n']); }
            }
            proof {
                if asc && k < ll {
                    assert(pc@[0] == lc[k as int]);
                    assert(0x20 <= (lc.take(ll)[k as int]) as u32 <= 0x7e);
                }
            }
            if is_nl {
                assert(vc_offset(rest, target_col as int, current_col as int) == 0);
                break;
            }
            let w = str_width(piece.as_str());
            let fits = match current_col.checked_add(w) {
                Some(sum) => sum <= target_col,
                None => false,
            };
            if !fits && current_col > 0 {
                assert(vc_offset(rest, target_col as int, current_col as int) == 0);
                break;
            }
            let n = pc.len();
            assert(char_offset + n <= vc_offset(g, target_col as int, 0));
            current_col = if fits { current_col + w } else { w };
            char_offset = char_offset + n;
            k = k + 1;
            proof {
                if k == gs.len() {
                    assert(g.skip(k as int) =~= Seq::<Seq<char>>::empty());
                }
            }
        }
        a + char_offset
    }
}

/// The selected char range: between anchor and cursor, when they differ.
pub open spec fn selection(cursor: usize, anchor: Option<usize>) -> Option<(usize, usize)> {
    match anchor {
        Some(a) => if a < cursor {
            Some((a, cursor))
        } else if cursor < a {
            Some((cursor, a))
        } else {
            None
        },
        None => None,
    }
}

/// The anchor after a cursor move: kept (or dropped at the cursor) while
/// selecting, cleared otherwise.
pub open spec fn anchor_after(selecting: bool, cursor: usize, anchor: Option<usize>) -> Option<usize> {
    if selecting {
        if anchor is None { Some(cursor) } else { anchor }
    } else {
        None
    }
}

impl EditorBuffer {
    /// Drops the selection anchor at the cursor when selecting starts, and
    /// clears it when moving without selecting.
    fn update_selection(&mut self, selecting: bool)
        ensures
            final(self).selection_anchor == anchor_after(selecting, old(self).cursor_char_idx, old(self).selection_anchor),
            final(self).same_content(old(self)),
            final(self).cursor_char_idx == old(self).cursor_char_idx,
            final(self).target_visual_col == old(self).target_visual_col,
    {
        if selecting {
            if self.selection_anchor.is_none() {
                self.selection_anchor = Some(self.cursor_char_idx);
            }
        } else {
            self.selection_anchor = None;
        }
    }

    /// Lowers the stale-highlighting mark to the cursor's line and drops the
    /// cached parse states from there on.
    pub fn mark_dirty(&mut self)
        requires
            old(self).cursor_char_idx <= old(self).text_view().len(),
        ensures
            final(self).min_dirty_line == lowered(old(self).min_dirty_line as nat, line_of(old(self).text_view(), old(self).cursor_char_idx as int)),
            final(self).syntax_cache@ == truncated(old(self).syntax_cache@, final(self).min_dirty_line as nat),
            final(self).text == old(self).text,
            final(self).cursor_char_idx == old(self).cursor_char_idx,
            final(self).selection_anchor == old(self).selection_anchor,
            final(self).scroll_x == old(self).scroll_x,
            final(self).scroll_y == old(self).scroll_y,
            final(self).undo_stack@ == old(self).undo_stack@,
            final(self).redo_stack@ == old(self).redo_stack@,
            final(self).current_tx == old(self).current_tx,
            final(self).target_visual_col == old(self).target_visual_col,
    {
        let current_line = rope_char_to_line(&self.text, self.cursor_char_idx);
        if current_line < self.min_dirty_line {
            self.min_dirty_line = current_line;
        }
        self.syntax_cache.truncate(self.min_dirty_line);
    }

    /// The selected range, when there is one.
    pub fn get_selection_range(&self) -> (r: Option<Range<usize>>)
        ensures
            match selection(self.cursor_char_idx, self.selection_anchor) {
                Some((a, b)) => r matches Some(rg) && rg.start == a && rg.end == b,
                None => r is None,
            },
    {
        match self.selection_anchor {
            Some(anchor) => {
                if anchor < self.cursor_char_idx {
                    Some(Range { start: anchor, end: self.cursor_char_idx })
                } else if self.cursor_char_idx < anchor {
                    Some(Range { start: self.cursor_char_idx, end: anchor })
                } else {
                    None
                }
            },
            None => None,
        }
    }

    /// The selected text, when there is a selection.
    pub fn get_selected_text(&self) -> (r: Option<String>)
        requires
            self.wf(),
            self.anchor_ok(),
        ensures
            match selection(self.cursor_char_idx, self.selection_anchor) {
                Some((a, b)) => r matches Some(t) && t@ == self.text_view().subrange(a as int, b as int),
                None => r is None,
            },
    {
        match self.get_selection_range() {
            Some(r) => {
                let cs = rope_slice_chars(&self.text, r.start, r.end);
                Some(chars_to_string(&cs))
            },
            None => None,
        }
    }

    /// The whole text.
    pub fn get_full_text(&self) -> (r: String)
        ensures
            r@ == self.text_view(),
    {
        rope_to_string(&self.text)
    }

    /// The char under the cursor, unless the cursor is at the end of the text.
    pub fn char_at_cursor(&self) -> (r: Option<char>)
        ensures
            self.cursor_char_idx < self.text_view().len() ==> r == Some(self.text_view()[self.cursor_char_idx as int]),
            self.cursor_char_idx >= self.text_view().len() ==> r is None,
    {
        let n = rope_len_chars(&self.text);
        if self.cursor_char_idx < n {
            Some(rope_char(&self.text, self.cursor_char_idx))
        } else {
            None
        }
    }

    /// The word (letters, digits, `_`) that ends at the cursor.
    pub fn get_current_word_prefix(&self) -> (r: String)
        requires
            self.wf(),
        ensures
            r@ == self.text_view().subrange(word_start(self.text_view(), self.cursor_char_idx as int), self.cursor_char_idx as int),
    {
        let mut idx = self.cursor_char_idx;
        proof { lemma_word_start(self.text_view(), self.cursor_char_idx as int); }
        while idx > 0
            invariant
                idx <= self.cursor_char_idx <= self.text_view().len(),
                word_start(self.text_view(), idx as int) == word_start(self.text_view(), self.cursor_char_idx as int),
            ensures
                idx == word_start(self.text_view(), self.cursor_char_idx as int),
            decreases idx,
        {
            let ch = rope_char(&self.text, idx - 1);
            let is_word = is_alphanumeric(ch) || ch == '_';
            if !is_word {
                break;
            }
            idx = idx - 1;
        }
        let cs = rope_slice_chars(&self.text, idx, self.cursor_char_idx);
        chars_to_string(&cs)
    }

    /// The spaces and tabs that start the cursor's line.
    pub fn get_current_line_indentation(&self) -> (r: String)
        requires
            self.wf(),
        ensures
            r@ == line_chars(self.text_view(), line_of(self.text_view(), self.cursor_char_idx as int)).take(
                indent_len(line_chars(self.text_view(), line_of(self.text_view(), self.cursor_char_idx as int)), 0),
            ),
    {
        let (l, _start) = self.line_and_start(self.cursor_char_idx);
        let (a, b) = self.line_range(l);
        let line = rope_slice_chars(&self.text, a, b);
        let ghost c = line@;
        let mut k: usize = 0;
        while k < line.len()
            invariant
                line@ == c,
                k <= c.len(),
                indent_len(c, 0) == k + indent_len(c, k as int),
            ensures
                indent_len(c, 0) == k,
            decreases line.len() - k,
        {
            if line[k] != ' ' && line[k] != '\t' {
                break;
            }
            k = k + 1;
        }
        let mut indent: Vec<char> = Vec::new();
        let mut j: usize = 0;
        while j < k
            invariant
                line@ == c,
                k <= c.len(),
                j <= k,
                indent@ == c.take(j as int),
            decreases k - j,
        {
            indent.push(line[j]);
            j = j + 1;
            assert(indent@ =~= c.take(j as int));
        }
        chars_to_string(&indent)
    }

    /// Language-server position of char index `char_idx` (clamped to the text):
    /// its line and its column in UTF-16 code units.
    pub fn get_lsp_position_utf16_at(&self, char_idx: usize) -> (r: (u32, u32))
        ensures
            r == lsp_position(self.text_view(), if char_idx as int <= self.text_view().len() { char_idx as int } else { self.text_view().len() as int }),
    {
        let n = rope_len_chars(&self.text);
        let safe_idx = if char_idx < n { char_idx } else { n };
        let (line, line_start) = self.line_and_start(safe_idx);
        let prefix = rope_slice_chars(&self.text, line_start, safe_idx);
        let ghost p = prefix@;
        let mut total: u128 = 0;
        let mut k: usize = 0;
        while k < prefix.len()
            invariant
                prefix@ == p,
                k <= p.len(),
                p.len() <= usize::MAX,
                total == utf16_total(p.take(k as int)),
            decreases prefix.len() - k,
        {
            proof {
                lemma_utf16_total_le(p.take(k as int));
                assert(p.take(k + 1).drop_last() =~= p.take(k as int));
            }
            total = total + len_utf16(prefix[k]) as u128;
            k = k + 1;
        }
        assert(p.take(p.len() as int) =~= p);
        (#[verifier::truncate] (line as u32), #[verifier::truncate] (total as u32))
    }

    /// Language-server position of the cursor.
    pub fn get_lsp_position(&self) -> (r: (u32, u32))
        requires
            self.wf(),
        ensures
            r == lsp_position(self.text_view(), self.cursor_char_idx as int),
    {
        self.get_lsp_position_utf16_at(self.cursor_char_idx)
    }
}

/// Columns a backspace at column `col` takes back when it only meets spaces:
/// back to the previous multiple of four.
pub open spec fn tab_step(col: int) -> int {
    if col % 4 == 0 { 4 } else { col % 4 }
}

pub open spec fn all_spaces(s: Seq<char>, a: int, b: int) -> bool {
    forall|j: int| a <= j < b ==> #[trigger] s[j] == ' '
}

/// How many chars a backspace at `c` (with no selection) removes: a run of
/// spaces back to the previous tab stop, a whole line break at a line start,
/// or else the last grapheme cluster before the cursor.
pub open spec fn backspace_count(s: Seq<char>, c: int) -> int {
    let ls = line_start_of(s, c);
    let col = c - ls;
    if col > 0 && col >= tab_step(col) && all_spaces(s, c - tab_step(col), c) {
        tab_step(col)
    } else if c == ls {
        if c > 1 && s[c - 2] == '\r' { 2 } else { 1 }
    } else {
        let gs = graphemes(s.subrange(ls, c));
        if gs.len() > 0 { gs.last().len() as int } else { 1 }
    }
}

pub proof fn lemma_flatten_last_len(gs: Seq<Seq<char>>)
    requires
        gs.len() > 0,
    ensures
        gs.last().len() <= gs.flatten().len(),
        gs[0].len() <= gs.flatten().len(),
    decreases gs.len(),
{
    if gs.len() > 1 {
        lemma_flatten_last_len(gs.drop_first());
        assert(gs.drop_first().last() == gs.last());
    }
}

impl EditorBuffer {
    /// `self` is `b0` with `ins` (non-empty) inserted at the cursor as one
    /// edit recorded in the history, the cursor past it.
    pub open spec fn inserted(&self, b0: &Self, ins: Seq<char>) -> bool {
        let c = b0.cursor_char_idx as int;
        &&& self.wf()
        &&& self.text_view() == b0.text_view().take(c) + ins + b0.text_view().skip(c)
        &&& self.cursor_char_idx == c + ins.len()
        &&& self.selection_anchor == b0.selection_anchor
        &&& (self.undo_view(), self.cur_view()) == record(
            b0.undo_view(),
            b0.cur_view(),
            EditSpec::Ins(c as nat, ins),
            c as nat,
            (c + ins.len()) as nat,
        )
        &&& self.redo_view().len() == 0
        &&& self.min_dirty_line == lowered(b0.min_dirty_line as nat, line_of(self.text_view(), self.cursor_char_idx as int))
        &&& self.syntax_cache@ == truncated(b0.syntax_cache@, self.min_dirty_line as nat)
        &&& self.target_visual_col == visual_col(self.text_view(), self.cursor_char_idx as int)
        &&& self.scroll_x == b0.scroll_x
        &&& self.scroll_y == b0.scroll_y
    }

    /// `self` is `b0` after `insert_char(ch)`.
    pub open spec fn char_inserted(&self, b0: &Self, ch: char) -> bool {
        self.inserted(b0, seq![ch])
    }

    /// `self` is `b0` after `insert_str` of `s`: unchanged when `s` is empty.
    pub open spec fn str_inserted(&self, b0: &Self, s: Seq<char>) -> bool {
        if s.len() == 0 { *self == *b0 } else { self.inserted(b0, s) }
    }

    /// Inserts `ch` at the cursor and moves the cursor past it.
    pub fn insert_char(&mut self, ch: char)
        requires
            old(self).wf(),
        ensures
            final(self).char_inserted(old(self), ch),
    {
        let cursor_before = self.cursor_char_idx;
        let ghost t0 = self.text_view();
        rope_insert_char(&mut self.text, self.cursor_char_idx, ch);
        let n = rope_len_chars(&self.text);
        self.cursor_char_idx = self.cursor_char_idx + 1;
        let m = Mutation::Insert { idx: cursor_before, text: char_to_string(ch) };
        proof {
            lemma_revert_apply(t0, m@);
            assert(apply_edit(t0, m@) =~= self.text_view());
        }
        self.record_edit(m, cursor_before, self.cursor_char_idx);
        self.mark_dirty();
        self.target_visual_col = self.char_idx_to_visual_col(self.cursor_char_idx);
    }

    /// Inserts `s` at the cursor and moves the cursor past it; an empty `s`
    /// changes nothing.
    pub fn insert_str(&mut self, s: &str)
        requires
            old(self).wf(),
        ensures
            final(self).str_inserted(old(self), s@),
    {
        let count = s.unicode_len();
        if count == 0 {
            return;
        }
        let cursor_before = self.cursor_char_idx;
        let ghost t0 = self.text_view();
        rope_insert(&mut self.text, self.cursor_char_idx, s);
        let n = rope_len_chars(&self.text);
        self.cursor_char_idx = self.cursor_char_idx + count;
        let m = Mutation::Insert { idx: cursor_before, text: String::from_str(s) };
        proof {
            lemma_revert_apply(t0, m@);
            assert(apply_edit(t0, m@) =~= self.text_view());
        }
        self.record_edit(m, cursor_before, self.cursor_char_idx);
        self.mark_dirty();
        self.target_visual_col = self.char_idx_to_visual_col(self.cursor_char_idx);
    }

    /// Removes `[start, end)`, puts the cursor at `start` and records the deletion.
    fn delete_recorded(&mut self, start: usize, end: usize, cursor_before: usize)
        requires
            old(self).wf(),
            start <= end <= old(self).text_view().len(),
            cursor_before <= old(self).text_view().len(),
        ensures
            final(self).wf(),
            final(self).text_view() == old(self).text_view().take(start as int) + old(self).text_view().skip(end as int),
            final(self).cursor_char_idx == start,
            (final(self).undo_view(), final(self).cur_view()) == record(
                old(self).undo_view(),
                old(self).cur_view(),
                EditSpec::Del(start as nat, old(self).text_view().subrange(start as int, end as int)),
                cursor_before as nat,
                start as nat,
            ),
            final(self).redo_view().len() == 0,
            final(self).selection_anchor == old(self).selection_anchor,
            final(self).scroll_x == old(self).scroll_x,
            final(self).scroll_y == old(self).scroll_y,
            final(self).syntax_cache@ == old(self).syntax_cache@,
            final(self).min_dirty_line == old(self).min_dirty_line,
            final(self).target_visual_col == old(self).target_visual_col,
    {
        let ghost t0 = self.text_view();
        let cs = rope_slice_chars(&self.text, start, end);
        let removed = chars_to_string(&cs);
        rope_remove(&mut self.text, start, end);
        self.cursor_char_idx = start;
        let m = Mutation::Delete { idx: start, text: removed };
        proof {
            assert(t0.subrange(start as int, end as int).len() == end - start);
            lemma_revert_apply(t0, m@);
            assert(apply_edit(t0, m@) =~= self.text_view());
        }
        self.record_edit(m, cursor_before, start);
    }
}

impl EditorBuffer {
    /// `self` is `old` with the selected range `[a, b)` deleted as a group of
    /// its own, the cursor at `a` and the selection cleared.
    pub open spec fn is_selection_deleted(&self, old: &Self, a: usize, b: usize) -> bool {
        &&& self.text_view() == old.text_view().take(a as int) + old.text_view().skip(b as int)
        &&& self.cursor_char_idx == a
        &&& self.selection_anchor is None
        &&& self.undo_view() == old.history().push(TxSpec {
            edits: seq![EditSpec::Del(a as nat, old.text_view().subrange(a as int, b as int))],
            before: old.cursor_char_idx as nat,
            after: a as nat,
        })
        &&& self.current_tx is None
        &&& self.redo_view().len() == 0
        &&& self.min_dirty_line == lowered(old.min_dirty_line as nat, line_of(self.text_view(), a as int))
        &&& self.syntax_cache@ == truncated(old.syntax_cache@, self.min_dirty_line as nat)
        &&& self.scroll_x == old.scroll_x
        &&& self.scroll_y == old.scroll_y
        &&& self.target_visual_col == old.target_visual_col
    }

    /// `self` is `b0` after `delete_selection`: the selected range, if any,
    /// deleted as an undo step of its own.
    pub open spec fn selection_cleared(&self, b0: &Self) -> bool {
        &&& self.wf()
        &&& self.anchor_ok()
        &&& match selection(b0.cursor_char_idx, b0.selection_anchor) {
            None => *self == *b0,
            Some((a, b)) => self.is_selection_deleted(b0, a, b),
        }
    }

    /// Deletes the selected text as an undo step of its own and returns it;
    /// without a selection nothing changes.
    pub fn delete_selection(&mut self) -> (r: Option<String>)
        requires
            old(self).wf(),
            old(self).anchor_ok(),
        ensures
            final(self).selection_cleared(old(self)),
            match selection(old(self).cursor_char_idx, old(self).selection_anchor) {
                None => r is None,
                Some((a, b)) => r matches Some(t) && t@ == old(self).text_view().subrange(a as int, b as int),
            },
    {
        match self.get_selection_range() {
            Some(range) => {
                let cursor_before = self.cursor_char_idx;
                let cs = rope_slice_chars(&self.text, range.start, range.end);
                let text = chars_to_string(&cs);
                self.commit_tx();
                let ghost h = self.undo_view();
                let ghost e = EditSpec::Del(range.start as nat, old(self).text_view().subrange(range.start as int, range.end as int));
                self.delete_recorded(range.start, range.end, cursor_before);
                self.selection_anchor = None;
                assert(add_edit(Seq::<EditSpec>::empty(), e) =~= seq![e]);
                self.commit_tx();
                self.mark_dirty();
                Some(text)
            },
            None => None,
        }
    }

    /// `self` is `b0` after `delete_backwards`.
    pub open spec fn backspaced(&self, b0: &Self) -> bool {
        &&& self.wf()
        &&& match selection(b0.cursor_char_idx, b0.selection_anchor) {
            Some((a, b)) => self.is_selection_deleted(b0, a, b),
            None => if b0.cursor_char_idx == 0 {
                *self == *b0
            } else {
                let t = b0.text_view();
                let c = b0.cursor_char_idx as int;
                let k = backspace_count(t, c);
                &&& 0 < k <= c
                &&& self.text_view() == t.take(c - k) + t.skip(c)
                &&& self.cursor_char_idx == c - k
                &&& self.selection_anchor == b0.selection_anchor
                &&& (self.undo_view(), self.cur_view()) == record(
                    b0.undo_view(),
                    b0.cur_view(),
                    EditSpec::Del((c - k) as nat, t.subrange(c - k, c)),
                    c as nat,
                    (c - k) as nat,
                )
                &&& self.redo_view().len() == 0
                &&& self.min_dirty_line == lowered(b0.min_dirty_line as nat, line_of(self.text_view(), c - k))
                &&& self.syntax_cache@ == truncated(b0.syntax_cache@, self.min_dirty_line as nat)
                &&& self.target_visual_col == visual_col(self.text_view(), c - k)
                &&& self.scroll_x == b0.scroll_x
                &&& self.scroll_y == b0.scroll_y
            },
        }
    }

    /// Backspace: deletes the selection if there is one; otherwise removes,
    /// before the cursor, a run of spaces back to the previous tab stop, a
    /// whole line break, or the last grapheme cluster.
    pub fn delete_backwards(&mut self)
        requires
            old(self).wf(),
            old(self).anchor_ok(),
        ensures
            final(self).backspaced(old(self)),
    {
        if self.delete_selection().is_some() {
            return;
        }
        if self.cursor_char_idx == 0 {
            return;
        }
        let ghost t = self.text_view();
        let c = self.cursor_char_idx;
        let (_line, line_start) = self.line_and_start(c);
        let col = c - line_start;
        if col > 0 {
            let rem = col % 4;
            let step = if rem == 0 { 4 } else { rem };
            if col >= step {
                let start_idx = c - step;
                let mut j = start_idx;
                let mut spaces = true;
                while j < c
                    invariant
                        start_idx <= j <= c <= t.len(),
                        t == self.text_view(),
                        spaces == all_spaces(t, start_idx as int, j as int),
                    decreases c - j,
                {
                    if rope_char(&self.text, j) != ' ' {
                        spaces = false;
                    }
                    j = j + 1;
                }
                if spaces {
                    assert(backspace_count(t, c as int) == step);
                    self.delete_recorded(start_idx, c, c);
                    self.mark_dirty();
                    self.target_visual_col = self.char_idx_to_visual_col(self.cursor_char_idx);
                    return;
                }
            }
        }
        let chars_to_delete: usize = if c == line_start {
            if c > 1 && rope_char(&self.text, c - 2) == '\r' { 2 } else { 1 }
        } else {
            let prefix = rope_slice_chars(&self.text, line_start, c);
            let ps = chars_to_string(&prefix);
            let gs = graphemes_of(ps.as_str());
            let ghost g = graphemes(ps@);
            if gs.len() > 0 {
                let last = &gs[gs.len() - 1];
                assert(last@ == g.last());
                proof { lemma_flatten_last_len(g); }
                last.as_str().unicode_len()
            } else {
                1
            }
        };
        assert(chars_to_delete == backspace_count(t, c as int));
        let start = c - chars_to_delete;
        self.delete_recorded(start, c, c);
        self.mark_dirty();
        self.target_visual_col = self.char_idx_to_visual_col(self.cursor_char_idx);
    }
}

/// Where the cursor lands moving left from `c`: over a whole line break at a
/// line start (CRLF included), else back over the last grapheme cluster.
pub open spec fn left_pos(s: Seq<char>, c: int) -> int {
    if c <= 0 {
        c
    } else if c == line_start_of(s, c) {
        if c - 1 > 0 && s[c - 2] == '\r' { c - 2 } else { c - 1 }
    } else {
        let gs = graphemes(s.subrange(line_start_of(s, c), c));
        if gs.len() > 0 { c - gs.last().len() } else { c }
    }
}

/// Where the cursor lands moving right from `c`: over a whole line break
/// (CRLF included), else over the next grapheme cluster of the line.
pub open spec fn right_pos(s: Seq<char>, c: int) -> int {
    if c >= s.len() {
        c
    } else {
        let suf = s.subrange(c, line_start(s, line_of(s, c) + 1));
        if suf.len() >= 2 && suf[0] == '\r' && suf[1] == '\n' {
            c + 2
        } else if suf.len() >= 1 && suf[0] == '\n' {
            c + 1
        } else {
            let gs = graphemes(suf);
            if gs.len() > 0 { c + gs[0].len() } else { c }
        }
    }
}

pub open spec fn sat_sub(a: int, b: int) -> int {
    if a > b { a - b } else { 0 }
}

pub open spec fn min_int(a: int, b: int) -> int {
    if a < b { a } else { b }
}

/// The scroll offset along one axis that keeps position `p` at least
/// `margin` cells inside a view of `size` cells (held at `usize::MAX` should
/// it not fit).
pub open spec fn scroll_to_show(scroll: int, p: int, margin: int, size: int) -> int {
    if p < scroll + margin {
        sat_sub(p, margin)
    } else if p + margin >= scroll + size {
        min_int(sat_sub(p + margin + 1, size), usize::MAX as int)
    } else {
        scroll
    }
}

/// The line the cursor is pulled to after a scroll so that it stays a
/// third of the view away from the edges (`None`: it may stay).
pub open spec fn viewport_target(line: int, scroll_y: int, view_height: int) -> Option<int> {
    let margin = sat_sub(view_height, 1) / 3;
    if line < scroll_y + margin {
        Some(scroll_y + margin)
    } else if view_height > 0 && line >= scroll_y + sat_sub(view_height, margin) {
        Some(sat_sub(scroll_y + view_height, margin + 1))
    } else {
        None
    }
}

impl EditorBuffer {
    /// Only the cursor, the anchor and the remembered column may differ from `old`.
    pub open spec fn moved_from(&self, old: &Self) -> bool {
        &&& self.same_content(old)
        &&& self.wf()
    }

    /// The cursor went left one step (see `left_pos`).
    pub open spec fn moved_left(&self, old: &Self, selecting: bool) -> bool {
        &&& self.moved_from(old)
        &&& self.selection_anchor == anchor_after(selecting, old.cursor_char_idx, old.selection_anchor)
        &&& self.cursor_char_idx == left_pos(old.text_view(), old.cursor_char_idx as int)
        &&& self.target_visual_col == visual_col(old.text_view(), self.cursor_char_idx as int)
    }

    /// The cursor went right one step (see `right_pos`).
    pub open spec fn moved_right(&self, old: &Self, selecting: bool) -> bool {
        &&& self.moved_from(old)
        &&& self.selection_anchor == anchor_after(selecting, old.cursor_char_idx, old.selection_anchor)
        &&& self.cursor_char_idx == right_pos(old.text_view(), old.cursor_char_idx as int)
        &&& self.target_visual_col == visual_col(old.text_view(), self.cursor_char_idx as int)
    }

    /// The cursor went to the remembered column of the line above.
    pub open spec fn moved_up(&self, old: &Self, selecting: bool) -> bool {
        &&& self.moved_from(old)
        &&& self.selection_anchor == anchor_after(selecting, old.cursor_char_idx, old.selection_anchor)
        &&& self.target_visual_col == old.target_visual_col
        &&& ({
            let t = old.text_view();
            let l = line_of(t, old.cursor_char_idx as int);
            self.cursor_char_idx == if l > 0 {
                col_to_char(t, (l - 1) as nat, old.target_visual_col as int)
            } else {
                old.cursor_char_idx as int
            }
        })
    }

    /// The cursor went to the remembered column of the line below.
    pub open spec fn moved_down(&self, old: &Self, selecting: bool) -> bool {
        &&& self.moved_from(old)
        &&& self.selection_anchor == anchor_after(selecting, old.cursor_char_idx, old.selection_anchor)
        &&& self.target_visual_col == old.target_visual_col
        &&& ({
            let t = old.text_view();
            let l = line_of(t, old.cursor_char_idx as int);
            self.cursor_char_idx == if l + 1 < num_lines(t) {
                col_to_char(t, l + 1, old.target_visual_col as int)
            } else {
                old.cursor_char_idx as int
            }
        })
    }

    /// The cursor went to the start of its line.
    pub open spec fn moved_to_line_start(&self, old: &Self, selecting: bool) -> bool {
        &&& self.moved_from(old)
        &&& self.selection_anchor == anchor_after(selecting, old.cursor_char_idx, old.selection_anchor)
        &&& self.target_visual_col == old.target_visual_col
        &&& self.cursor_char_idx == line_start_of(old.text_view(), old.cursor_char_idx as int)
    }

    /// The cursor went to the end of its line, before the line break.
    pub open spec fn moved_to_line_end(&self, old: &Self, selecting: bool) -> bool {
        &&& self.moved_from(old)
        &&& self.selection_anchor == anchor_after(selecting, old.cursor_char_idx, old.selection_anchor)
        &&& self.target_visual_col == old.target_visual_col
        &&& ({
            let t = old.text_view();
            let l = line_of(t, old.cursor_char_idx as int);
            self.cursor_char_idx == line_start(t, l) + line_len_no_nl(t, l)
        })
    }

    /// The cursor went `lines` lines up, to the remembered column.
    pub open spec fn paged_up(&self, old: &Self, selecting: bool, lines: usize) -> bool {
        &&& self.moved_from(old)
        &&& self.selection_anchor == anchor_after(selecting, old.cursor_char_idx, old.selection_anchor)
        &&& self.target_visual_col == old.target_visual_col
        &&& ({
            let t = old.text_view();
            let l = line_of(t, old.cursor_char_idx as int);
            self.cursor_char_idx == col_to_char(t, sat_sub(l as int, lines as int) as nat, old.target_visual_col as int)
        })
    }

    /// The cursor went `lines` lines down, to the remembered column.
    pub open spec fn paged_down(&self, old: &Self, selecting: bool, lines: usize) -> bool {
        &&& self.moved_from(old)
        &&& self.selection_anchor == anchor_after(selecting, old.cursor_char_idx, old.selection_anchor)
        &&& self.target_visual_col == old.target_visual_col
        &&& ({
            let t = old.text_view();
            let l = line_of(t, old.cursor_char_idx as int);
            self.cursor_char_idx == col_to_char(t, min_int(l + lines, num_lines(t) - 1) as nat, old.target_visual_col as int)
        })
    }

    pub fn move_cursor_left(&mut self, selecting: bool)
        requires
            old(self).wf(),
        ensures
            final(self).moved_left(old(self), selecting),

    {
        self.update_selection(selecting);
        let c = self.cursor_char_idx;
        if c > 0 {
            let (_line, line_start) = self.line_and_start(c);
            if c == line_start {
                let mut nc = c - 1;
                if nc > 0 && rope_char(&self.text, nc - 1) == '\r' {
                    nc = nc - 1;
                }
                self.cursor_char_idx = nc;
            } else {
                let prefix = rope_slice_chars(&self.text, line_start, c);
                let ps = chars_to_string(&prefix);
                let gs = graphemes_of(ps.as_str());
                let ghost g = graphemes(ps@);
                if gs.len() > 0 {
                    let last = &gs[gs.len() - 1];
                    assert(last@ == g.last());
                    proof { lemma_flatten_last_len(g); }
                    self.cursor_char_idx = c - last.as_str().unicode_len();
                }
            }
        }
        self.target_visual_col = self.char_idx_to_visual_col(self.cursor_char_idx);
    }

    pub fn move_cursor_right(&mut self, selecting: bool)
        requires
            old(self).wf(),
        ensures
            final(self).moved_right(old(self), selecting),

    {
        self.update_selection(selecting);
        let c = self.cursor_char_idx;
        let n = rope_len_chars(&self.text);
        if c < n {
            let (line, _start) = self.line_and_start(c);
            let (_a, b) = self.line_range(line);
            proof {
                lemma_line_start_facts(self.text_view(), line as nat + 1);
                if b <= c {
                    lemma_count_monotone(self.text_view(), b as int, c as int);
                }
            }
            let suffix = rope_slice_chars(&self.text, c, b);
            if suffix.len() >= 2 && suffix[0] == '\r' && suffix[1] == '\n' {
                self.cursor_char_idx = c + 2;
            } else if suffix.len() >= 1 && suffix[0] == '\n' {
                self.cursor_char_idx = c + 1;
            } else {
                let ss = chars_to_string(&suffix);
                let gs = graphemes_of(ss.as_str());
                let ghost g = graphemes(ss@);
                if gs.len() > 0 {
                    let first = &gs[0];
                    assert(first@ == g[0]);
                    proof { lemma_flatten_last_len(g); }
                    self.cursor_char_idx = c + first.as_str().unicode_len();
                }
            }
        }
        self.target_visual_col = self.char_idx_to_visual_col(self.cursor_char_idx);
    }

    /// Moves to the remembered column of the line above, if there is one.
    pub fn move_cursor_up(&mut self, selecting: bool)
        requires
            old(self).wf(),
        ensures
            final(self).moved_up(old(self), selecting),

    {
        self.update_selection(selecting);
        let (line, _start) = self.line_and_start(self.cursor_char_idx);
        if line > 0 {
            self.cursor_char_idx = self.visual_col_to_char_idx(line - 1, self.target_visual_col);
        }
    }

    /// Moves to the remembered column of the line below, if there is one.
    pub fn move_cursor_down(&mut self, selecting: bool)
        requires
            old(self).wf(),
        ensures
            final(self).moved_down(old(self), selecting),

    {
        self.update_selection(selecting);
        let (line, _start) = self.line_and_start(self.cursor_char_idx);
        let n = rope_len_lines(&self.text);
        if line + 1 < n {
            self.cursor_char_idx = self.visual_col_to_char_idx(line + 1, self.target_visual_col);
        }
    }

    pub fn move_to_start_of_line(&mut self, selecting: bool)
        requires
            old(self).wf(),
        ensures
            final(self).moved_to_line_start(old(self), selecting),

    {
        self.update_selection(selecting);
        let (_line, start) = self.line_and_start(self.cursor_char_idx);
        self.cursor_char_idx = start;
    }

    /// Moves to the end of the line, before its LF or CRLF.
    pub fn move_to_end_of_line(&mut self, selecting: bool)
        requires
            old(self).wf(),
        ensures
            final(self).moved_to_line_end(old(self), selecting),

    {
        self.update_selection(selecting);
        let (line, start) = self.line_and_start(self.cursor_char_idx);
        let len = self.line_len_without_nl(line);
        let _n = rope_len_chars(&self.text);
        assert(start == line_start(self.text_view(), line as nat));
        self.cursor_char_idx = start + len;
    }

    fn line_len_without_nl(&self, line_idx: usize) -> (n: usize)
        requires
            line_idx < num_lines(self.text_view()),
        ensures
            n == line_len_no_nl(self.text_view(), line_idx as nat),
            line_start(self.text_view(), line_idx as nat) + n <= self.text_view().len(),
    {
        let (a, b) = self.line_range(line_idx);
        let mut len = b - a;
        if len > 0 && rope_char(&self.text, a + len - 1) == '\n' {
            len = len - 1;
            if len > 0 && rope_char(&self.text, a + len - 1) == '\r' {
                len = len - 1;
            }
        }
        len
    }

    /// Moves `lines` lines up (at most to the first), to the remembered column.
    pub fn move_page_up(&mut self, selecting: bool, lines: usize)
        requires
            old(self).wf(),
        ensures
            final(self).paged_up(old(self), selecting, lines),

    {
        self.update_selection(selecting);
        let (line, _start) = self.line_and_start(self.cursor_char_idx);
        let target_line = line.saturating_sub(lines);
        self.cursor_char_idx = self.visual_col_to_char_idx(target_line, self.target_visual_col);
    }

    /// Moves `lines` lines down (at most to the last), to the remembered column.
    pub fn move_page_down(&mut self, selecting: bool, lines: usize)
        requires
            old(self).wf(),
        ensures
            final(self).paged_down(old(self), selecting, lines),

    {
        self.update_selection(selecting);
        let (line, _start) = self.line_and_start(self.cursor_char_idx);
        let n = rope_len_lines(&self.text);
        let sum = line.saturating_add(lines);
        let target_line = if sum < n - 1 { sum } else { n - 1 };
        self.cursor_char_idx = self.visual_col_to_char_idx(target_line, self.target_visual_col);
    }
}

pub open spec fn sat_add(a: int, b: int) -> int {
    if a + b > usize::MAX { usize::MAX as int } else { a + b }
}

impl EditorBuffer {
    /// Scrolls just enough that the cursor sits at least a third of the view
    /// height from the top and bottom edges, and four columns from the sides.
    pub fn ensure_cursor_visible(&mut self, view_width: usize, view_height: usize)
        requires
            old(self).wf(),
        ensures
            final(self).wf(),
            final(self).text == old(self).text,
            final(self).cursor_char_idx == old(self).cursor_char_idx,
            final(self).selection_anchor == old(self).selection_anchor,
            final(self).undo_stack@ == old(self).undo_stack@,
            final(self).redo_stack@ == old(self).redo_stack@,
            final(self).current_tx == old(self).current_tx,
            final(self).syntax_cache@ == old(self).syntax_cache@,
            final(self).min_dirty_line == old(self).min_dirty_line,
            final(self).target_visual_col == old(self).target_visual_col,
            final(self).scroll_y == scroll_to_show(
                old(self).scroll_y as int,
                line_of(old(self).text_view(), old(self).cursor_char_idx as int) as int,
                sat_sub(view_height as int, 1) / 3,
                view_height as int,
            ),
            final(self).scroll_x == scroll_to_show(
                old(self).scroll_x as int,
                visual_col(old(self).text_view(), old(self).cursor_char_idx as int),
                4,
                view_width as int,
            ),
    {
        let (cursor_y, _start) = self.line_and_start(self.cursor_char_idx);
        let cursor_x = self.char_idx_to_visual_col(self.cursor_char_idx);
        let margin_y = view_height.saturating_sub(1) / 3;
        let margin_x: usize = 4;
        self.scroll_y = scroll_axis(self.scroll_y, cursor_y, margin_y, view_height);
        self.scroll_x = scroll_axis(self.scroll_x, cursor_x, margin_x, view_width);
    }

    /// Places the cursor at a clicked screen cell of the editor area (whose
    /// text starts `gutter_width` columns right of `editor_start_x`); clicks
    /// left of the text or above the area are ignored.
    /// The cursor went where the screen cell `(screen_x, screen_y)` is, in
    /// a text area whose first line starts at `(editor_start_x, editor_start_y)`
    /// after a gutter `gutter_width` cells wide; a click outside the text
    /// changes nothing.
    pub open spec fn clicked(&self, old: &Self, screen_x: u16, screen_y: u16, editor_start_x: u16, editor_start_y: u16, gutter_width: u16, selecting: bool) -> bool {
        &&& self.wf()
        &&& self.same_content(old)
        &&& (screen_x < editor_start_x + gutter_width || screen_y < editor_start_y) ==> *self == *old
        &&& !(screen_x < editor_start_x + gutter_width || screen_y < editor_start_y) ==> {
            let t = old.text_view();
            let line = min_int(old.scroll_y + (screen_y - editor_start_y), num_lines(t) - 1);
            let col = sat_add(old.scroll_x as int, screen_x - (editor_start_x + gutter_width));
            &&& self.selection_anchor == anchor_after(selecting, old.cursor_char_idx, old.selection_anchor)
            &&& self.cursor_char_idx == col_to_char(t, line as nat, col)
            &&& self.target_visual_col == visual_col(t, self.cursor_char_idx as int)
        }
    }

    pub fn set_cursor_from_screen(
        &mut self,
        screen_x: u16,
        screen_y: u16,
        editor_start_x: u16,
        editor_start_y: u16,
        gutter_width: u16,
        selecting: bool,
    )
        requires
            old(self).wf(),
        ensures
            final(self).clicked(old(self), screen_x, screen_y, editor_start_x, editor_start_y, gutter_width, selecting),
    {
        let left = editor_start_x as u32 + gutter_width as u32;
        if (screen_x as u32) < left || screen_y < editor_start_y {
            return;
        }
        self.update_selection(selecting);
        let rel_x = (screen_x as u32 - left) as usize;
        let rel_y = (screen_y - editor_start_y) as usize;
        let n = rope_len_lines(&self.text);
        let down = self.scroll_y.saturating_add(rel_y);
        let target_line = if down < n - 1 { down } else { n - 1 };
        let target_col = self.scroll_x.saturating_add(rel_x);
        self.cursor_char_idx = self.visual_col_to_char_idx(target_line, target_col);
        self.target_visual_col = self.char_idx_to_visual_col(self.cursor_char_idx);
    }

    /// Scrolls the view up by `lines` and pulls the cursor back into view.
    pub fn scroll_viewport_up(&mut self, lines: usize, view_height: usize, selecting: bool)
        requires
            old(self).wf(),
        ensures
            final(self).wf(),
            final(self).scroll_y == sat_sub(old(self).scroll_y as int, lines as int),
            final(self).kept_in_view(old(self), final(self).scroll_y as int, view_height as int, selecting),
    {
        self.scroll_y = self.scroll_y.saturating_sub(lines);
        self.enforce_cursor_in_viewport(view_height, selecting);
    }

    /// Scrolls the view down by `lines` (at most to the last line) and pulls
    /// the cursor back into view.
    pub fn scroll_viewport_down(&mut self, lines: usize, view_height: usize, selecting: bool)
        requires
            old(self).wf(),
        ensures
            final(self).wf(),
            final(self).scroll_y == min_int(old(self).scroll_y + lines, num_lines(old(self).text_view()) - 1),
            final(self).kept_in_view(old(self), final(self).scroll_y as int, view_height as int, selecting),
    {
        let n = rope_len_lines(&self.text);
        let sum = self.scroll_y.saturating_add(lines);
        self.scroll_y = if sum < n - 1 { sum } else { n - 1 };
        self.enforce_cursor_in_viewport(view_height, selecting);
    }

    /// `self` is `old` scrolled to `scroll_y`, with the cursor moved (at its
    /// display column) onto the line `viewport_target` asks for, if any.
    pub open spec fn kept_in_view(&self, old: &Self, scroll_y: int, view_height: int, selecting: bool) -> bool {
        let t = old.text_view();
        let line = line_of(t, old.cursor_char_idx as int) as int;
        &&& self.text == old.text
        &&& self.undo_stack@ == old.undo_stack@
        &&& self.redo_stack@ == old.redo_stack@
        &&& self.current_tx == old.current_tx
        &&& self.scroll_x == old.scroll_x
        &&& self.syntax_cache@ == old.syntax_cache@
        &&& self.min_dirty_line == old.min_dirty_line
        &&& match viewport_target(line, scroll_y, view_height) {
            None => {
                &&& self.cursor_char_idx == old.cursor_char_idx
                &&& self.selection_anchor == old.selection_anchor
                &&& self.target_visual_col == old.target_visual_col
            },
            Some(target) => {
                &&& self.selection_anchor == anchor_after(selecting, old.cursor_char_idx, old.selection_anchor)
                &&& self.cursor_char_idx == col_to_char(t, min_int(target, num_lines(t) - 1) as nat, visual_col(t, old.cursor_char_idx as int))
                &&& self.target_visual_col == visual_col(t, self.cursor_char_idx as int)
            },
        }
    }

    fn enforce_cursor_in_viewport(&mut self, view_height: usize, selecting: bool)
        requires
            old(self).wf(),
        ensures
            final(self).wf(),
            final(self).scroll_y == old(self).scroll_y,
            final(self).kept_in_view(old(self), old(self).scroll_y as int, view_height as int, selecting),
    {
        let (current_line, _start) = self.line_and_start(self.cursor_char_idx);
        let current_col_vis = self.char_idx_to_visual_col(self.cursor_char_idx);
        let margin_y = view_height.saturating_sub(1) / 3;
        let sy = self.scroll_y as u128;
        let target_line: u128 = if (current_line as u128) < sy + margin_y as u128 {
            sy + margin_y as u128
        } else if view_height > 0 && current_line as u128 >= sy + view_height.saturating_sub(margin_y) as u128 {
            let top = sy + view_height as u128;
            let m1 = margin_y as u128 + 1;
            if top > m1 { top - m1 } else { 0 }
        } else {
            return;
        };
        let n = rope_len_lines(&self.text);
        let max_line = (n - 1) as u128;
        let safe_target = (if target_line < max_line { target_line } else { max_line }) as usize;
        self.update_selection(selecting);
        self.cursor_char_idx = self.visual_col_to_char_idx(safe_target, current_col_vis);
        self.target_visual_col = self.char_idx_to_visual_col(self.cursor_char_idx);
    }
}

/// One axis of `ensure_cursor_visible`.
fn scroll_axis(scroll: usize, p: usize, margin: usize, size: usize) -> (r: usize)
    ensures
        r == scroll_to_show(scroll as int, p as int, margin as int, size as int),
{
    let sc = scroll as u128;
    let pp = p as u128;
    let m = margin as u128;
    if pp < sc + m {
        p.saturating_sub(margin)
    } else if pp + m >= sc + size as u128 {
        let hi = pp + m + 1;
        if hi > size as u128 {
            let d = hi - size as u128;
            if d < usize::MAX as u128 { d as usize } else { usize::MAX }
        } else {
            0
        }
    } else {
        scroll
    }
}

/// Leftmost position `p >= c0` where `q` occurs in `line`, or -1.
pub open spec fn first_match_from(line: Seq<char>, q: Seq<char>, c0: int) -> int
    decreases line.len() + 1 - c0,
{
    if c0 < 0 || c0 + q.len() > line.len() {
        -1
    } else if line.subrange(c0, c0 + q.len()) == q {
        c0
    } else {
        first_match_from(line, q, c0 + 1)
    }
}

pub proof fn lemma_first_match(line: Seq<char>, q: Seq<char>, c0: int)
    ensures
        first_match_from(line, q, c0) == -1 || (c0 <= first_match_from(line, q, c0) && first_match_from(line, q, c0) + q.len() <= line.len()
            && line.subrange(first_match_from(line, q, c0), first_match_from(line, q, c0) + q.len()) == q),
    decreases line.len() + 1 - c0,
{
    if c0 >= 0 && c0 + q.len() <= line.len() && line.subrange(c0, c0 + q.len()) != q {
        lemma_first_match(line, q, c0 + 1);
    }
}

/// One entry per non-overlapping occurrence of `q` in `line`, searching
/// from `c0` on; each entry is the number of chars from where that search
/// started to the end of the line.
pub open spec fn match_entries(line: Seq<char>, q: Seq<char>, c0: int) -> Seq<int>
    decreases line.len() - c0,
{
    if q.len() == 0 || c0 < 0 {
        Seq::empty()
    } else {
        let p = first_match_from(line, q, c0);
        if p < 0 {
            Seq::empty()
        } else {
            proof {
                lemma_first_match(line, q, c0);
            }
            seq![line.len() - c0] + match_entries(line, q, p + q.len())
        }
    }
}

/// `find_text`'s results for lines `l` on: each line's entries offset by
/// the char index where the line starts.
pub open spec fn find_in_lines(s: Seq<char>, q: Seq<char>, l: int) -> Seq<int>
    decreases num_lines(s) - l,
{
    if l < 0 || l >= num_lines(s) {
        Seq::empty()
    } else {
        match_entries(line_chars(s, l as nat), q, 0).map_values(|x: int| x + line_start(s, l as nat)) + find_in_lines(s, q, l + 1)
    }
}

/// Whether `q` occurs in `line` at `p`.
fn occurs_at(line: &Vec<char>, q: &Vec<char>, p: usize) -> (b: bool)
    requires
        p + q@.len() <= line@.len(),
    ensures
        b == (line@.subrange(p as int, p + q@.len()) == q@),
{
    let _len = line.len();
    let mut j: usize = 0;
    while j < q.len()
        invariant
            _len == line@.len(),
            j <= q@.len(),
            p + q@.len() <= line@.len(),
            forall|k: int| 0 <= k < j ==> line@[p + k] == q@[k],
        decreases q.len() - j,
    {
        if line[p + j] != q[j] {
            assert(line@.subrange(p as int, p + q@.len())[j as int] != q@[j as int]);
            return false;
        }
        j = j + 1;
    }
    assert(line@.subrange(p as int, p + q@.len()) =~= q@);
    true
}

/// Leftmost occurrence of `q` in `line` at or after `c0`.
fn find_from(line: &Vec<char>, q: &Vec<char>, c0: usize) -> (r: Option<usize>)
    ensures
        match r {
            Some(p) => p == first_match_from(line@, q@, c0 as int),
            None => first_match_from(line@, q@, c0 as int) == -1,
        },
{
    let mut p = c0;
    while p <= line.len() && q.len() <= line.len() - p
        invariant
            c0 <= p,
            first_match_from(line@, q@, c0 as int) == first_match_from(line@, q@, p as int),
        decreases line.len() + 1 - p,
    {
        if occurs_at(line, q, p) {
            return Some(p);
        }
        if q.len() == 0 {
            assert(line@.subrange(p as int, p as int) =~= q@);
        }
        p = p + 1;
    }
    None
}

impl EditorBuffer {
    /// Searches every line for `query`.  For each non-overlapping occurrence
    /// (left to right) the result holds the start of its line plus the number
    /// of chars from where that occurrence was searched for to the end of the
    /// line.  An empty query finds nothing.
    pub fn find_text(&self, query: &str) -> (r: Vec<usize>)
        ensures
            r@.map_values(|x: usize| x as int) == if query@.len() == 0 {
                Seq::<int>::empty()
            } else {
                find_in_lines(self.text_view(), query@, 0)
            },
    {
        let mut results: Vec<usize> = Vec::new();
        let q = str_to_chars(query);
        if q.len() == 0 {
            assert(results@.map_values(|x: usize| x as int) =~= Seq::<int>::empty());
            return results;
        }
        let n = rope_len_lines(&self.text);
        let ghost t = self.text_view();
        let mut l: usize = 0;
        while l < n
            invariant
                n == num_lines(t),
                t == self.text_view(),
                q@ == query@,
                q@.len() > 0,
                l <= n,
                results@.map_values(|x: usize| x as int) + find_in_lines(t, q@, l as int) == find_in_lines(t, q@, 0),
            decreases n - l,
        {
            let (a, b) = self.line_range(l);
            let line = rope_slice_chars(&self.text, a, b);
            let ghost entries = match_entries(line@, q@, 0);
            let ghost before = results@.map_values(|x: usize| x as int);
            let mut c0: usize = 0;
            let mut done = false;
            while !done
                invariant
                    line@ == line_chars(t, l as nat),
                    a == line_start(t, l as nat),
                    a + line@.len() <= usize::MAX,
                    q@.len() > 0,
                    c0 <= line@.len(),
                    !done ==> results@.map_values(|x: usize| x as int) + match_entries(line@, q@, c0 as int).map_values(|x: int| x + a)
                        == before + entries.map_values(|x: int| x + a),
                    done ==> results@.map_values(|x: usize| x as int) == before + entries.map_values(|x: int| x + a),
                decreases line@.len() + 1 - c0, if done { 0int } else { 1int },
            {
                match find_from(&line, &q, c0) {
                    Some(p) => {
                        proof { lemma_first_match(line@, q@, c0 as int); }
                        let ghost old_results = results@.map_values(|x: usize| x as int);
                        results.push(a + (line.len() - c0));
                        let ghost rest = match_entries(line@, q@, p + q@.len());
                        assert(match_entries(line@, q@, c0 as int) == seq![line@.len() - c0] + rest);
                        assert(results@.map_values(|x: usize| x as int) =~= old_results.push(a + (line@.len() - c0)));
                        assert((seq![line@.len() - c0] + rest).map_values(|x: int| x + a) =~= seq![line@.len() - c0 + a] + rest.map_values(|x: int| x + a));
                        c0 = p + q.len();
                    },
                    None => {
                        assert(match_entries(line@, q@, c0 as int) =~= Seq::<int>::empty());
                        assert(Seq::<int>::empty().map_values(|x: int| x + a) =~= Seq::<int>::empty());
                        done = true;
                    },
                }
            }
            proof {
                assert(find_in_lines(t, q@, l as int) == entries.map_values(|x: int| x + a) + find_in_lines(t, q@, l + 1));
            }
            l = l + 1;
        }
        assert(find_in_lines(t, q@, n as int) =~= Seq::<int>::empty());
        results
    }
}

impl EditorBuffer {
    /// A buffer holding `text`, with the cursor at its start and no history.
    pub fn from_text(text: &str) -> (b: Self)
        ensures
            b.wf(),
            b.text_view() == text@,
            b.cursor_char_idx == 0,
            b.selection_anchor is None,
            b.scroll_x == 0,
            b.scroll_y == 0,
            b.syntax_cache@.len() == 0,
            b.min_dirty_line == 0,
            b.undo_view().len() == 0,
            b.redo_view().len() == 0,
            b.current_tx is None,
            b.target_visual_col == 0,
    {
        let rope = rope_from_str(text);
        let lines_count = rope_len_lines(&rope);
        let b = EditorBuffer {
            text: rope,
            cursor_char_idx: 0,
            selection_anchor: None,
            scroll_x: 0,
            scroll_y: 0,
            syntax_cache: Vec::with_capacity(lines_count),
            min_dirty_line: 0,
            undo_stack: Vec::new(),
            redo_stack: Vec::new(),
            current_tx: None,
            target_visual_col: 0,
        };
        assert(b.undo_view() =~= Seq::<TxSpec>::empty());
        assert(b.redo_view() =~= Seq::<TxSpec>::empty());
        b
    }
}

/// Redo takes back what undo did: the group that undo walks back over from
/// text `t` (and then holds on the redo stack) brings the text back to `t`.
pub proof fn law_redo_restores_undone(t: Seq<char>, history: Seq<TxSpec>)
    requires
        undo_chain(t, history),
        history.len() > 0,
    ensures
        apply_edits(revert_edits(t, history.last().edits), history.last().edits) == t,
        redo_chain(revert_edits(t, history.last().edits), seq![history.last()]),
{
    let tx = history.last();
    lemma_apply_revert_edits(t, tx.edits);
    let t1 = revert_edits(t, tx.edits);
    assert(seq![tx].drop_last() =~= Seq::<TxSpec>::empty());
    assert(seq![tx].last() == tx);
    assert(redo_chain(t, Seq::<TxSpec>::empty()));
}

/// Undo takes back what redo did: the group that redo performs on text `t`
/// (and then holds on the undo stack) is undone back to `t`.
pub proof fn law_undo_restores_redone(t: Seq<char>, redo: Seq<TxSpec>)
    requires
        redo_chain(t, redo),
        redo.len() > 0,
    ensures
        revert_edits(apply_edits(t, redo.last().edits), redo.last().edits) == t,
        undo_chain(apply_edits(t, redo.last().edits), seq![redo.last()]),
{
    let tx = redo.last();
    lemma_revert_apply_edits(t, tx.edits);
    assert(seq![tx].drop_last() =~= Seq::<TxSpec>::empty());
    assert(seq![tx].last() == tx);
    assert(undo_chain(t, Seq::<TxSpec>::empty()));
}

/// Inserting text with no open group (as after `commit_tx`) makes it one undo
/// step of its own: the sealed history gains exactly that step, and undoing
/// it gives back the text from before the insertion.
pub proof fn law_insert_is_one_undo_step(t: Seq<char>, undo: Seq<TxSpec>, c: nat, s: Seq<char>)
    requires
        c <= t.len(),
    ensures
        ({
            let e = EditSpec::Ins(c, s);
            let r = record(undo, None, e, c, c + s.len());
            let h = sealed(r.0, r.1);
            &&& h.drop_last() == undo
            &&& h.last().edits == seq![e]
            &&& h.last().before == c
            &&& revert_edits(t.take(c as int) + s + t.skip(c as int), h.last().edits) == t
        }),
{
    let e = EditSpec::Ins(c, s);
    let r = record(undo, None, e, c, c + s.len());
    assert(add_edit(Seq::<EditSpec>::empty(), e) =~= seq![e]);
    let h = sealed(r.0, r.1);
    assert(h =~= undo.push(TxSpec { edits: seq![e], before: c, after: c + s.len() }));
    assert(h.drop_last() =~= undo);
    lemma_revert_apply(t, e);
    assert(apply_edit(t, e) == t.take(c as int) + s + t.skip(c as int));
    assert(seq![e].drop_last() =~= Seq::<EditSpec>::empty());
    assert(revert_edits(t, Seq::<EditSpec>::empty()) == t);
}

/// Deleting a selection and then undoing gives back the text from before.
pub proof fn law_undo_restores_deleted_selection(t: Seq<char>, a: nat, b: nat)
    requires
        a <= b <= t.len(),
    ensures
        revert_edits(t.take(a as int) + t.skip(b as int), seq![EditSpec::Del(a, t.subrange(a as int, b as int))]) == t,
{
    let e = EditSpec::Del(a, t.subrange(a as int, b as int));
    lemma_revert_apply(t, e);
    assert(apply_edit(t, e) =~= t.take(a as int) + t.skip(b as int));
    assert(seq![e].drop_last() =~= Seq::<EditSpec>::empty());
    assert(revert_edits(t, Seq::<EditSpec>::empty()) == t);
}

/// Typing on without moving the cursor joins the open group: a char that is
/// neither whitespace nor punctuation, inserted where the group's last
/// insertion ended, extends that insertion instead of starting a new step.
pub proof fn law_typing_joins_group(undo: Seq<TxSpec>, tx: TxSpec, ch: char)
    requires
        tx.edits.len() > 0,
        tx.edits.len() < 100,
        tx.edits.last() is Ins,
        tx.edits.last().idx() + tx.edits.last().chars().len() == tx.after,
        !char_whitespace(ch),
        !ascii_punctuation(ch),
    ensures
        ({
            let r = record(undo, Some(tx), EditSpec::Ins(tx.after, seq![ch]), tx.after, tx.after + 1);
            &&& r.0 == undo
            &&& r.1 == Some(TxSpec {
                edits: tx.edits.drop_last().push(EditSpec::Ins(tx.edits.last().idx(), tx.edits.last().chars().push(ch))),
                before: tx.before,
                after: tx.after + 1,
            })
        }),
{
    let e = EditSpec::Ins(tx.after, seq![ch]);
    assert(!ends_group(e)) by {
        if ends_group(e) {
            let k = choose|k: int| 0 <= k < e.chars().len() && (char_whitespace(#[trigger] e.chars()[k]) || ascii_punctuation(e.chars()[k]));
            assert(e.chars()[k] == ch);
        }
    }
    assert(tx.edits.last().chars() + seq![ch] =~= tx.edits.last().chars().push(ch));
}

/// With no open group, recording one edit makes the history end in a
/// group of that edit alone, with the cursors given.
proof fn lemma_record_fresh(undo: Seq<TxSpec>, e: EditSpec, cb: nat, ca: nat)
    ensures
        ({
            let r = record(undo, None, e, cb, ca);
            sealed(r.0, r.1) == undo.push(TxSpec { edits: seq![e], before: cb, after: ca })
        }),
{
    assert(add_edit(Seq::<EditSpec>::empty(), e) =~= seq![e]);
}

/// Undoing a group of one edit made on `t` gives `t` back.
proof fn lemma_undo_one(t: Seq<char>, e: EditSpec)
    requires
        can_apply(t, e),
    ensures
        revert_edits(apply_edit(t, e), seq![e]) == t,
{
    lemma_revert_apply(t, e);
    assert(seq![e].drop_last() =~= Seq::<EditSpec>::empty());
    assert(seq![e].last() == e);
    assert(revert_edits(t, Seq::<EditSpec>::empty()) == t);
}

/// One edit and then undo give back the text and the cursor: from a buffer
/// with no open group (as right after `commit_tx`), a call of `insert_char`,
/// of `insert_str` with a non-empty string, of `delete_selection` with a
/// selection, or of `delete_backwards` that deletes something (`b1`),
/// followed by `undo` (`b2`), leaves the text and the cursor as they were,
/// no selection, and that one group on the redo stack.
pub proof fn law_one_edit_then_undo(b0: EditorBuffer, b1: EditorBuffer, b2: EditorBuffer, ch: char, s: Seq<char>)
    requires
        b0.wf(),
        b0.anchor_ok(),
        b0.current_tx is None,
        b1.char_inserted(&b0, ch)
            || (s.len() > 0 && b1.str_inserted(&b0, s))
            || (selection(b0.cursor_char_idx, b0.selection_anchor) is Some && b1.selection_cleared(&b0))
            || ((selection(b0.cursor_char_idx, b0.selection_anchor) is Some || b0.cursor_char_idx > 0) && b1.backspaced(&b0)),
        b2.undone(&b1),
    ensures
        b1.history().len() > 0,
        b2.text_view() == b0.text_view(),
        b2.cursor_char_idx == b0.cursor_char_idx,
        b2.selection_anchor is None,
        b2.redo_view().len() == 1,
{
    let t = b0.text_view();
    let c = b0.cursor_char_idx as int;
    assert(b0.cur_view() is None);
    assert(b0.history() == b0.undo_view());
    let sel = selection(b0.cursor_char_idx, b0.selection_anchor);
    if b1.char_inserted(&b0, ch) || (s.len() > 0 && b1.str_inserted(&b0, s)) {
        let ins = if b1.char_inserted(&b0, ch) { seq![ch] } else { s };
        assert(b1.inserted(&b0, ins));
        let e = EditSpec::Ins(c as nat, ins);
        lemma_record_fresh(b0.undo_view(), e, c as nat, (c + ins.len()) as nat);
        assert(b1.history() == b0.undo_view().push(TxSpec { edits: seq![e], before: c as nat, after: (c + ins.len()) as nat }));
        assert(b1.text_view() == apply_edit(t, e));
        lemma_undo_one(t, e);
    } else if sel is Some {
        let (a, b) = sel->0;
        assert(b1.is_selection_deleted(&b0, a, b));
        let e = EditSpec::Del(a as nat, t.subrange(a as int, b as int));
        assert(b1.cur_view() is None);
        assert(b1.history() == b1.undo_view());
        assert(b1.text_view() =~= apply_edit(t, e));
        lemma_undo_one(t, e);
    } else {
        assert(b1.backspaced(&b0));
        let k = backspace_count(t, c);
        let e = EditSpec::Del((c - k) as nat, t.subrange(c - k, c));
        lemma_record_fresh(b0.undo_view(), e, c as nat, (c - k) as nat);
        assert(b1.history() == b0.undo_view().push(TxSpec { edits: seq![e], before: c as nat, after: (c - k) as nat }));
        assert(b1.text_view() =~= apply_edit(t, e));
        lemma_undo_one(t, e);
    }
}

impl EditorBuffer {
    /// `self` is `o` scrolled as `ensure_cursor_visible(view_width,
    /// view_height)` scrolls it.
    pub open spec fn scrolled_to_cursor(&self, o: &Self, view_width: usize, view_height: usize) -> bool {
        &&& self.wf()
        &&& self.text == o.text
        &&& self.cursor_char_idx == o.cursor_char_idx
        &&& self.selection_anchor == o.selection_anchor
        &&& self.undo_stack@ == o.undo_stack@
        &&& self.redo_stack@ == o.redo_stack@
        &&& self.current_tx == o.current_tx
        &&& self.syntax_cache@ == o.syntax_cache@
        &&& self.min_dirty_line == o.min_dirty_line
        &&& self.target_visual_col == o.target_visual_col
        &&& self.scroll_y == scroll_to_show(
            o.scroll_y as int,
            line_of(o.text_view(), o.cursor_char_idx as int) as int,
            sat_sub(view_height as int, 1) / 3,
            view_height as int,
        )
        &&& self.scroll_x == scroll_to_show(
            o.scroll_x as int,
            visual_col(o.text_view(), o.cursor_char_idx as int),
            4,
            view_width as int,
        )
    }

    /// Before the buffer is drawn in a view `view_width` by `view_height`:
    /// when the cursor or the size of the view changed since `last` (what
    /// the view was last scrolled for, if anything), scrolls so that the
    /// cursor shows.  Returns what the view is now scrolled for.
    pub fn sync_view(&mut self, last: Option<(usize, usize, usize)>, view_width: usize, view_height: usize) -> (now: (usize, usize, usize))
        requires
            old(self).wf(),
        ensures
            now == (old(self).cursor_char_idx, view_width, view_height),
            last == Some(now) ==> *final(self) == *old(self),
            last != Some(now) ==> final(self).scrolled_to_cursor(old(self), view_width, view_height),
    {
        let now = (self.cursor_char_idx, view_width, view_height);
        let same = match last {
            Some(l) => l.0 == now.0 && l.1 == now.1 && l.2 == now.2,
            None => false,
        };
        if !same {
            self.ensure_cursor_visible(view_width, view_height);
        }
        now
    }

    /// After lines up to `end_line` were drawn (and highlighted): the stale
    /// mark of the highlighting moves up to `end_line` when it was below.
    pub fn mark_drawn(&mut self, end_line: usize)
        ensures
            final(self).min_dirty_line == if old(self).min_dirty_line < end_line { end_line } else { old(self).min_dirty_line },
            *final(self) == (EditorBuffer { min_dirty_line: final(self).min_dirty_line, ..*old(self) }),
    {
        if self.min_dirty_line < end_line {
            self.min_dirty_line = end_line;
        }
    }
}

/// Moving the cursor away from where the open group ended closes that
/// group: text inserted at the new place (`b1`, after `insert_char` or
/// `insert_str` on `b0`) forms a group of its own, the old group sealed under
/// it, so that one undo (`b2`) takes back only what was inserted since the
/// jump, puts the cursor back where it was, and leaves the old group to undo.
pub proof fn law_cursor_jump_starts_a_group(b0: EditorBuffer, b1: EditorBuffer, b2: EditorBuffer, ins: Seq<char>)
    requires
        b0.wf(),
        b0.cur_view() matches Some(tx) && tx.after != b0.cursor_char_idx,
        ins.len() > 0,
        b1.inserted(&b0, ins),
        b2.undone(&b1),
    ensures
        b1.history() == b0.history().push(TxSpec {
            edits: seq![EditSpec::Ins(b0.cursor_char_idx as nat, ins)],
            before: b0.cursor_char_idx as nat,
            after: (b0.cursor_char_idx + ins.len()) as nat,
        }),
        b2.text_view() == b0.text_view(),
        b2.cursor_char_idx == b0.cursor_char_idx,
        b2.undo_view() == b0.history(),
{
    let t = b0.text_view();
    let c = b0.cursor_char_idx as int;
    let e = EditSpec::Ins(c as nat, ins);
    let tx = b0.cur_view()->0;
    assert(breaks_group(b0.cur_view(), e, c as nat));
    assert(sealed(b0.undo_view(), b0.cur_view()) == b0.undo_view().push(tx));
    assert(add_edit(Seq::<EditSpec>::empty(), e) =~= seq![e]);
    assert(b1.text_view() == apply_edit(t, e));
    lemma_undo_one(t, e);
}

/// What one backspace without a selection removes before the cursor `c`
/// (`b` is `b0` after `delete_backwards`).  When the `step` columns back to
/// the previous multiple of four all hold spaces, that whole run of spaces
/// goes.  Otherwise: at the start of a line, the line break before it (its
/// CR too); else the last grapheme cluster of the line before the cursor,
/// so a run that holds anything but spaces never goes whole.
pub proof fn law_backspace_removes(b0: EditorBuffer, b: EditorBuffer)
    requires
        b0.wf(),
        selection(b0.cursor_char_idx, b0.selection_anchor) is None,
        b0.cursor_char_idx > 0,
        b.backspaced(&b0),
    ensures
        ({
            let t = b0.text_view();
            let c = b0.cursor_char_idx as int;
            let k = c - b.cursor_char_idx;
            let ls = line_start_of(t, c);
            let col = c - ls;
            let step = if col % 4 == 0 { 4 } else { col % 4 };
            let soft_tab = col >= step && forall|j: int| c - step <= j < c ==> #[trigger] t[j] == ' ';
            &&& 0 < k <= c
            &&& b.text_view() == t.take(c - k) + t.skip(c)
            &&& soft_tab ==> k == step && forall|j: int| c - k <= j < c ==> #[trigger] t[j] == ' '
            &&& !soft_tab && c == ls ==> is_break_end(t, c - 1) && k == if c > 1 && t[c - 2] == '\r' { 2int } else { 1int }
            &&& !soft_tab && c != ls ==> {
                let gs = graphemes(t.subrange(ls, c));
                k == if gs.len() > 0 { gs.last().len() as int } else { 1int }
            }
        }),
{
    let t = b0.text_view();
    let c = b0.cursor_char_idx as int;
    let ls = line_start_of(t, c);
    let col = c - ls;
    let step = if col % 4 == 0 { 4int } else { col % 4 };
    lemma_line_start_of(t, c);
    lemma_line_start_of(t, c - 1);
    assert(tab_step(col) == step);
    if col >= step && (forall|j: int| c - step <= j < c ==> #[trigger] t[j] == ' ') {
        assert(all_spaces(t, c - step, c));
    } else {
        if col >= step {
            let j = choose|j: int| c - step <= j < c && #[trigger] t[j] != ' ';
            assert(!all_spaces(t, c - step, c));
        }
    }
}

/// A backspace with a selection deletes exactly the selected text, leaves
/// the cursor where the selection began and clears the selection; with no
/// selection at the very start of the text it changes nothing.
pub proof fn law_backspace_with_selection_or_at_start(b0: EditorBuffer, b: EditorBuffer)
    requires
        b0.wf(),
        b.backspaced(&b0),
    ensures
        selection(b0.cursor_char_idx, b0.selection_anchor) matches Some((x, y)) ==> {
            &&& b.text_view() == b0.text_view().take(x as int) + b0.text_view().skip(y as int)
            &&& b.cursor_char_idx == x
            &&& b.selection_anchor is None
        },
        selection(b0.cursor_char_idx, b0.selection_anchor) is None && b0.cursor_char_idx == 0 ==> b == b0,
{
}

/// When an edit does not continue the open group, the group is sealed
/// first and the edit starts one of its own: after inserting text (`b1`,
/// after `insert_char` or `insert_str` on `b0`) where the open group's last
/// edit was a deletion, or where the group already holds a hundred edits,
/// the history ends in the old group and then a group of that insertion
/// alone.  Inserted text with a whitespace or ASCII punctuation char seals
/// its group at once; other text leaves it open.
pub proof fn law_insert_after_other_group(b0: EditorBuffer, b1: EditorBuffer, ins: Seq<char>)
    requires
        b0.wf(),
        ins.len() > 0,
        b1.inserted(&b0, ins),
    ensures
        (b0.cur_view() matches Some(tx) && (tx.edits.last() is Del || tx.edits.len() >= 100 || tx.after != b0.cursor_char_idx))
            ==> b1.history() == b0.history().push(TxSpec {
                edits: seq![EditSpec::Ins(b0.cursor_char_idx as nat, ins)],
                before: b0.cursor_char_idx as nat,
                after: (b0.cursor_char_idx + ins.len()) as nat,
            }),
        (exists|k: int| 0 <= k < ins.len() && (char_whitespace(#[trigger] ins[k]) || ascii_punctuation(ins[k])))
            ==> b1.current_tx is None,
        !(exists|k: int| 0 <= k < ins.len() && (char_whitespace(#[trigger] ins[k]) || ascii_punctuation(ins[k])))
            ==> b1.current_tx is Some,
{
    let c = b0.cursor_char_idx as int;
    let e = EditSpec::Ins(c as nat, ins);
    assert(e.chars() == ins);
    assert(add_edit(Seq::<EditSpec>::empty(), e) =~= seq![e]);
    if b0.cur_view() is Some {
        let tx = b0.cur_view()->0;
        if tx.edits.last() is Del || tx.edits.len() >= 100 || tx.after != c {
            assert(breaks_group(b0.cur_view(), e, c as nat));
            assert(sealed(b0.undo_view(), b0.cur_view()) == b0.undo_view().push(tx));
        }
    }
    if exists|k: int| 0 <= k < ins.len() && (char_whitespace(#[trigger] ins[k]) || ascii_punctuation(ins[k])) {
        assert(ends_group(e));
        assert(b1.cur_view() is None);
    } else {
        assert(!ends_group(e));
        assert(b1.cur_view() is Some);
    }
}

} // verus!
