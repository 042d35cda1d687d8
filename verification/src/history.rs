//! The mathematical model of the edit history: edits on a char sequence,
//! transactions that group them, and the two stacks of undo and redo.
use vstd::prelude::*;

verus! {

/// One edit on a text: chars inserted at, or deleted from, a char index.
pub enum EditSpec {
    Ins(nat, Seq<char>),
    Del(nat, Seq<char>),
}

impl EditSpec {
    pub open spec fn idx(self) -> nat {
        match self {
            EditSpec::Ins(i, _) => i,
            EditSpec::Del(i, _) => i,
        }
    }

    pub open spec fn chars(self) -> Seq<char> {
        match self {
            EditSpec::Ins(_, s) => s,
            EditSpec::Del(_, s) => s,
        }
    }

    pub open spec fn is_ins(self) -> bool {
        self is Ins
    }
}

/// A group of edits undone and redone as one, with the cursor before and after.
pub struct TxSpec {
    pub edits: Seq<EditSpec>,
    pub before: nat,
    pub after: nat,
}

/// The edit can be performed on `t`.
pub open spec fn can_apply(t: Seq<char>, e: EditSpec) -> bool {
    match e {
        EditSpec::Ins(i, _) => i <= t.len(),
        EditSpec::Del(i, s) => i + s.len() <= t.len() && t.subrange(i as int, (i + s.len()) as int) == s,
    }
}

/// `t` with the edit performed.
pub open spec fn apply_edit(t: Seq<char>, e: EditSpec) -> Seq<char> {
    match e {
        EditSpec::Ins(i, s) => t.take(i as int) + s + t.skip(i as int),
        EditSpec::Del(i, s) => t.take(i as int) + t.skip((i + s.len()) as int),
    }
}

/// The edit can be taken back from `t`.
pub open spec fn can_revert(t: Seq<char>, e: EditSpec) -> bool {
    match e {
        EditSpec::Ins(i, s) => i + s.len() <= t.len() && t.subrange(i as int, (i + s.len()) as int) == s,
        EditSpec::Del(i, _) => i <= t.len(),
    }
}

/// `t` with the edit taken back.
pub open spec fn revert_edit(t: Seq<char>, e: EditSpec) -> Seq<char> {
    match e {
        EditSpec::Ins(i, s) => t.take(i as int) + t.skip((i + s.len()) as int),
        EditSpec::Del(i, s) => t.take(i as int) + s + t.skip(i as int),
    }
}

/// All edits performed in order.
pub open spec fn apply_edits(t: Seq<char>, es: Seq<EditSpec>) -> Seq<char>
    decreases es.len(),
{
    if es.len() == 0 {
        t
    } else {
        apply_edit(apply_edits(t, es.drop_last()), es.last())
    }
}

pub open spec fn can_apply_edits(t: Seq<char>, es: Seq<EditSpec>) -> bool
    decreases es.len(),
{
    if es.len() == 0 {
        true
    } else {
        can_apply_edits(t, es.drop_last()) && can_apply(apply_edits(t, es.drop_last()), es.last())
    }
}

/// All edits taken back, the last one first.
pub open spec fn revert_edits(t: Seq<char>, es: Seq<EditSpec>) -> Seq<char>
    decreases es.len(),
{
    if es.len() == 0 {
        t
    } else {
        revert_edits(revert_edit(t, es.last()), es.drop_last())
    }
}

pub open spec fn can_revert_edits(t: Seq<char>, es: Seq<EditSpec>) -> bool
    decreases es.len(),
{
    if es.len() == 0 {
        true
    } else {
        can_revert(t, es.last()) && can_revert_edits(revert_edit(t, es.last()), es.drop_last())
    }
}

/// Every transaction of an undo stack can be undone in turn, from the top,
/// starting at text `t`, with cursors that stay inside the texts.
pub open spec fn undo_chain(t: Seq<char>, stack: Seq<TxSpec>) -> bool
    decreases stack.len(),
{
    if stack.len() == 0 {
        true
    } else {
        let tx = stack.last();
        &&& tx.edits.len() > 0
        &&& can_revert_edits(t, tx.edits)
        &&& tx.after <= t.len()
        &&& tx.before <= revert_edits(t, tx.edits).len()
        &&& undo_chain(revert_edits(t, tx.edits), stack.drop_last())
    }
}

/// Every transaction of a redo stack can be redone in turn, from the top,
/// starting at text `t`, with cursors that stay inside the texts.
pub open spec fn redo_chain(t: Seq<char>, stack: Seq<TxSpec>) -> bool
    decreases stack.len(),
{
    if stack.len() == 0 {
        true
    } else {
        let tx = stack.last();
        &&& tx.edits.len() > 0
        &&& can_apply_edits(t, tx.edits)
        &&& tx.before <= t.len()
        &&& tx.after <= apply_edits(t, tx.edits).len()
        &&& redo_chain(apply_edits(t, tx.edits), stack.drop_last())
    }
}

pub proof fn lemma_revert_apply(t: Seq<char>, e: EditSpec)
    requires
        can_apply(t, e),
    ensures
        can_revert(apply_edit(t, e), e),
        revert_edit(apply_edit(t, e), e) == t,
{
    match e {
        EditSpec::Ins(i, s) => {
            let u = apply_edit(t, e);
            assert(u.subrange(i as int, (i + s.len()) as int) =~= s);
            assert(revert_edit(u, e) =~= t);
        },
        EditSpec::Del(i, s) => {
            let u = apply_edit(t, e);
            assert(revert_edit(u, e) =~= t.take(i as int) + t.subrange(i as int, (i + s.len()) as int) + t.skip((i + s.len()) as int));
            assert(revert_edit(u, e) =~= t);
        },
    }
}

pub proof fn lemma_apply_revert(t: Seq<char>, e: EditSpec)
    requires
        can_revert(t, e),
    ensures
        can_apply(revert_edit(t, e), e),
        apply_edit(revert_edit(t, e), e) == t,
{
    match e {
        EditSpec::Ins(i, s) => {
            let u = revert_edit(t, e);
            assert(apply_edit(u, e) =~= t.take(i as int) + t.subrange(i as int, (i + s.len()) as int) + t.skip((i + s.len()) as int));
            assert(apply_edit(u, e) =~= t);
        },
        EditSpec::Del(i, s) => {
            let u = revert_edit(t, e);
            assert(u.subrange(i as int, (i + s.len()) as int) =~= s);
            assert(apply_edit(u, e) =~= t);
        },
    }
}

/// Redoing a group of edits and then undoing it gives back the text.
pub proof fn lemma_revert_apply_edits(t: Seq<char>, es: Seq<EditSpec>)
    requires
        can_apply_edits(t, es),
    ensures
        can_revert_edits(apply_edits(t, es), es),
        revert_edits(apply_edits(t, es), es) == t,
    decreases es.len(),
{
    if es.len() > 0 {
        let r = apply_edits(t, es.drop_last());
        lemma_revert_apply_edits(t, es.drop_last());
        lemma_revert_apply(r, es.last());
    }
}

/// Undoing a group of edits and then redoing it gives back the text.
pub proof fn lemma_apply_revert_edits(t: Seq<char>, es: Seq<EditSpec>)
    requires
        can_revert_edits(t, es),
    ensures
        can_apply_edits(revert_edits(t, es), es),
        apply_edits(revert_edits(t, es), es) == t,
    decreases es.len(),
{
    if es.len() > 0 {
        let t1 = revert_edit(t, es.last());
        lemma_apply_revert(t, es.last());
        lemma_apply_revert_edits(t1, es.drop_last());
        assert(es.drop_last().len() < es.len());
    }
}

/// The first edit of a group that can be performed on `t` starts inside `t`.
pub proof fn lemma_first_idx_in_text(t: Seq<char>, es: Seq<EditSpec>)
    requires
        can_apply_edits(t, es),
        es.len() > 0,
    ensures
        es[0].idx() <= t.len(),
    decreases es.len(),
{
    if es.len() > 1 {
        lemma_first_idx_in_text(t, es.drop_last());
        assert(es.drop_last()[0] == es[0]);
    } else {
        assert(es.drop_last() =~= Seq::<EditSpec>::empty());
    }
}

/// The last edit of a group starts inside the text the group produces.
pub proof fn lemma_last_idx_in_result(t: Seq<char>, es: Seq<EditSpec>)
    requires
        can_apply_edits(t, es),
        es.len() > 0,
    ensures
        es.last().idx() <= apply_edits(t, es).len(),
{
}

/// A group that can be performed can be performed up to any point.
pub proof fn lemma_can_apply_prefix(t: Seq<char>, es: Seq<EditSpec>, k: int)
    requires
        can_apply_edits(t, es),
        0 <= k <= es.len(),
    ensures
        can_apply_edits(t, es.take(k)),
    decreases es.len(),
{
    if k == es.len() {
        assert(es.take(k) =~= es);
    } else {
        lemma_can_apply_prefix(t, es.drop_last(), k);
        assert(es.drop_last().take(k) =~= es.take(k));
    }
}

} // verus!
