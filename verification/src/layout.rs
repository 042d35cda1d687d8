//! The tree of split windows: leaves name windows, inner nodes split an area
//! in two along a direction.
use vstd::prelude::*;

verus! {

/// Direction along which a split lays out its two halves.
#[derive(Clone, Copy, Debug, PartialEq, Eq, Structural)]
pub enum Direction {
    Horizontal,
    Vertical,
}

/// A screen rectangle in terminal cells.
#[derive(Clone, Copy, Debug, PartialEq, Eq, Structural)]
pub struct Rect {
    pub x: u16,
    pub y: u16,
    pub width: u16,
    pub height: u16,
}

pub enum SplitNode {
    Leaf(usize),
    Split(Direction, Box<SplitNode>, Box<SplitNode>),
}

/// The window ids at the leaves, left to right.
pub open spec fn leaves(n: SplitNode) -> Seq<usize>
    decreases n,
{
    match n {
        SplitNode::Leaf(id) => seq![id],
        SplitNode::Split(_, a, b) => leaves(*a) + leaves(*b),
    }
}

/// The tree with the first leaf `target` replaced by `new_node`.
pub open spec fn replaced(n: SplitNode, target: usize, new_node: SplitNode) -> SplitNode
    decreases n,
{
    match n {
        SplitNode::Leaf(id) => if id == target { new_node } else { n },
        SplitNode::Split(d, a, b) => if leaves(*a).contains(target) {
            SplitNode::Split(d, Box::new(replaced(*a, target, new_node)), b)
        } else {
            SplitNode::Split(d, a, Box::new(replaced(*b, target, new_node)))
        },
    }
}

/// The tree without the leaves `target`; a split that loses one side is
/// replaced by the other side, and nothing is left when every leaf goes.
pub open spec fn removed(n: SplitNode, target: usize) -> Option<SplitNode>
    decreases n,
{
    match n {
        SplitNode::Leaf(id) => if id == target { None } else { Some(n) },
        SplitNode::Split(d, a, b) => match (removed(*a, target), removed(*b, target)) {
            (Some(x), Some(y)) => Some(SplitNode::Split(d, Box::new(x), Box::new(y))),
            (Some(x), None) => Some(x),
            (None, Some(y)) => Some(y),
            (None, None) => None,
        },
    }
}

pub open spec fn leaves_of(n: Option<SplitNode>) -> Seq<usize> {
    match n {
        Some(x) => leaves(x),
        None => Seq::empty(),
    }
}

impl SplitNode {
    /// Whether some leaf is `target`.
    pub fn contains_leaf(&self, target: usize) -> (b: bool)
        ensures
            b == leaves(*self).contains(target),
        decreases *self,
    {
        match self {
            SplitNode::Leaf(id) => {
                assert(leaves(*self) =~= seq![*id]);
                assert(seq![*id][0] == *id);
                *id == target
            },
            SplitNode::Split(_, a, b) => {
                let r = a.contains_leaf(target) || b.contains_leaf(target);
                proof {
                    vstd::seq_lib::lemma_seq_concat_contains_all_elements(leaves(**a), leaves(**b), target);
                }
                r
            },
        }
    }

    /// Replaces the first leaf `target_id` by `new_node`; tells whether it was found.
    pub fn replace_leaf(&mut self, target_id: usize, new_node: SplitNode) -> (found: bool)
        ensures
            found == leaves(*old(self)).contains(target_id),
            *final(self) == replaced(*old(self), target_id, new_node),
            !found ==> *final(self) == *old(self),
        decreases *old(self),
    {
        let in_self = self.contains_leaf(target_id);
        let leaf_id: Option<usize> = match &*self {
            SplitNode::Leaf(id) => Some(*id),
            SplitNode::Split(..) => None,
        };
        match leaf_id {
            Some(id) => {
                proof {
                    assert(leaves(*old(self)) =~= seq![id]);
                    assert(seq![id][0] == id);
                }
                if id == target_id {
                    assert(leaves(*old(self))[0] == target_id);
                    *self = new_node;
                    true
                } else {
                    proof {
                        if leaves(*old(self)).contains(target_id) {
                            let i = choose|i: int| 0 <= i < leaves(*old(self)).len() && leaves(*old(self))[i] == target_id;
                            assert(i == 0);
                        }
                    }
                    false
                }
            },
            None => {
                match self {
                    SplitNode::Split(_, a, b) => {
                        proof {
                            vstd::seq_lib::lemma_seq_concat_contains_all_elements(leaves(**a), leaves(**b), target_id);
                        }
                        if a.contains_leaf(target_id) {
                            a.replace_leaf(target_id, new_node)
                        } else {
                            b.replace_leaf(target_id, new_node)
                        }
                    },
                    SplitNode::Leaf(_) => false,
                }
            },
        }
    }

    /// The tree without the leaves `target_id`, or `None` when nothing is left.
    pub fn remove_leaf(self, target_id: usize) -> (r: Option<SplitNode>)
        ensures
            r == removed(self, target_id),
        decreases self,
    {
        match self {
            SplitNode::Leaf(id) => if id == target_id { None } else { Some(SplitNode::Leaf(id)) },
            SplitNode::Split(dir, a, b) => {
                let new_a = (*a).remove_leaf(target_id);
                let new_b = (*b).remove_leaf(target_id);
                match (new_a, new_b) {
                    (Some(x), Some(y)) => Some(SplitNode::Split(dir, Box::new(x), Box::new(y))),
                    (Some(x), None) => Some(x),
                    (None, Some(y)) => Some(y),
                    (None, None) => None,
                }
            },
        }
    }
}

/// Removing leaf `target` keeps every other leaf, in order, and only those.
pub proof fn law_remove_leaf_keeps_others(n: SplitNode, target: usize)
    ensures
        leaves_of(removed(n, target)) == leaves(n).filter(|x: usize| x != target),
    decreases n,
{
    match n {
        SplitNode::Leaf(id) => {
            let f = |x: usize| x != target;
            reveal_with_fuel(Seq::filter, 2);
            assert(seq![id].drop_last() =~= Seq::<usize>::empty());
            if id == target {
                assert(seq![id].filter(f) =~= Seq::<usize>::empty());
            } else {
                assert(seq![id].filter(f) =~= seq![id]);
            }
        },
        SplitNode::Split(d, a, b) => {
            law_remove_leaf_keeps_others(*a, target);
            law_remove_leaf_keeps_others(*b, target);
            Seq::filter_distributes_over_add(leaves(*a), leaves(*b), |x: usize| x != target);
            assert(leaves_of(removed(n, target)) =~= leaves_of(removed(*a, target)) + leaves_of(removed(*b, target)));
        },
    }
}

/// Replacing a leaf that occurs puts the new subtree's leaves in place of its
/// first occurrence, leaving all other leaves where they were.
pub proof fn law_replace_leaf_splices(n: SplitNode, target: usize, new_node: SplitNode)
    requires
        leaves(n).contains(target),
    ensures
        exists|i: int|
            0 <= i < leaves(n).len() && leaves(n)[i] == target && (forall|j: int| 0 <= j < i ==> leaves(n)[j] != target)
                && leaves(replaced(n, target, new_node)) == leaves(n).take(i) + leaves(new_node) + leaves(n).skip(i + 1),
    decreases n,
{
    match n {
        SplitNode::Leaf(id) => {
            assert(leaves(n)[0] == id);
            if id != target {
                let i = choose|i: int| 0 <= i < leaves(n).len() && leaves(n)[i] == target;
                assert(i == 0);
            }
            assert(leaves(replaced(n, target, new_node)) =~= leaves(n).take(0) + leaves(new_node) + leaves(n).skip(1));
        },
        SplitNode::Split(d, a, b) => {
            let la = leaves(*a);
            let lb = leaves(*b);
            vstd::seq_lib::lemma_seq_concat_contains_all_elements(la, lb, target);
            if la.contains(target) {
                law_replace_leaf_splices(*a, target, new_node);
                let i = choose|i: int|
                    0 <= i < la.len() && la[i] == target && (forall|j: int| 0 <= j < i ==> la[j] != target)
                        && leaves(replaced(*a, target, new_node)) == la.take(i) + leaves(new_node) + la.skip(i + 1);
                assert(leaves(n)[i] == target);
                assert forall|j: int| 0 <= j < i implies leaves(n)[j] != target by {
                    assert(leaves(n)[j] == la[j]);
                }
                assert(leaves(replaced(n, target, new_node)) =~= leaves(n).take(i) + leaves(new_node) + leaves(n).skip(i + 1));
            } else {
                law_replace_leaf_splices(*b, target, new_node);
                let k = choose|k: int|
                    0 <= k < lb.len() && lb[k] == target && (forall|j: int| 0 <= j < k ==> lb[j] != target)
                        && leaves(replaced(*b, target, new_node)) == lb.take(k) + leaves(new_node) + lb.skip(k + 1);
                let i = la.len() + k;
                assert(leaves(n)[i] == target);
                assert forall|j: int| 0 <= j < i implies leaves(n)[j] != target by {
                    if j < la.len() {
                        assert(leaves(n)[j] == la[j]);
                        assert(la.contains(la[j]) ==> la.contains(target) || la[j] != target);
                        if la[j] == target {
                            assert(la.contains(target));
                        }
                    } else {
                        assert(leaves(n)[j] == lb[j - la.len()]);
                    }
                }
                assert(leaves(replaced(n, target, new_node)) =~= leaves(n).take(i) + leaves(new_node) + leaves(n).skip(i + 1));
            }
        },
    }
}

/// A leaf survives the removal of `target` exactly when it is another window.
pub proof fn lemma_removed_contains(n: SplitNode, target: usize, x: usize)
    ensures
        leaves_of(removed(n, target)).contains(x) <==> (leaves(n).contains(x) && x != target),
    decreases n,
{
    match n {
        SplitNode::Leaf(id) => {
            if leaves(n).contains(x) {
                let k = choose|k: int| 0 <= k < leaves(n).len() && leaves(n)[k] == x;
                assert(k == 0);
            }
            if id != target {
                assert(leaves(n)[0] == id);
            }
        },
        SplitNode::Split(d, a, b) => {
            lemma_removed_contains(*a, target, x);
            lemma_removed_contains(*b, target, x);
            vstd::seq_lib::lemma_seq_concat_contains_all_elements(leaves(*a), leaves(*b), x);
            let ra = removed(*a, target);
            let rb = removed(*b, target);
            assert(leaves_of(removed(n, target)) =~= leaves_of(ra) + leaves_of(rb));
            vstd::seq_lib::lemma_seq_concat_contains_all_elements(leaves_of(ra), leaves_of(rb), x);
        },
    }
}

} // verus!

