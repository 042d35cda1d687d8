use wyvern::layout::{Direction, SplitNode};

fn leaves(n: &SplitNode) -> Vec<usize> {
    match n {
        SplitNode::Leaf(id) => vec![*id],
        SplitNode::Split(_, a, b) => {
            let mut v = leaves(a);
            v.extend(leaves(b));
            v
        }
    }
}

fn split(d: Direction, a: SplitNode, b: SplitNode) -> SplitNode {
    SplitNode::Split(d, Box::new(a), Box::new(b))
}

fn sample() -> SplitNode {
    split(
        Direction::Horizontal,
        SplitNode::Leaf(1),
        split(Direction::Vertical, SplitNode::Leaf(2), SplitNode::Leaf(3)),
    )
}

#[test]
fn contains_leaf_finds_ids() {
    let n = sample();
    assert!(n.contains_leaf(1) && n.contains_leaf(3));
    assert!(!n.contains_leaf(4));
}

#[test]
fn replace_leaf_splits_a_window() {
    let mut n = sample();
    let found = n.replace_leaf(2, split(Direction::Horizontal, SplitNode::Leaf(2), SplitNode::Leaf(7)));
    assert!(found);
    assert_eq!(leaves(&n), vec![1, 2, 7, 3]);
    match &n {
        SplitNode::Split(Direction::Horizontal, _, right) => match &**right {
            SplitNode::Split(Direction::Vertical, inner, _) => {
                assert!(matches!(&**inner, SplitNode::Split(Direction::Horizontal, _, _)))
            }
            _ => panic!("right side changed shape"),
        },
        _ => panic!("root changed shape"),
    }
}

#[test]
fn replace_missing_leaf_changes_nothing() {
    let mut n = sample();
    assert!(!n.replace_leaf(9, SplitNode::Leaf(10)));
    assert_eq!(leaves(&n), vec![1, 2, 3]);
}

#[test]
fn remove_leaf_collapses_its_split() {
    let n = sample().remove_leaf(2).unwrap();
    assert_eq!(leaves(&n), vec![1, 3]);
    match n {
        SplitNode::Split(Direction::Horizontal, a, b) => {
            assert!(matches!(*a, SplitNode::Leaf(1)));
            assert!(matches!(*b, SplitNode::Leaf(3)));
        }
        _ => panic!("expected the root split to stay"),
    }
}

#[test]
fn removing_the_only_leaf_leaves_nothing() {
    assert!(SplitNode::Leaf(4).remove_leaf(4).is_none());
    let n = SplitNode::Leaf(4).remove_leaf(5).unwrap();
    assert_eq!(leaves(&n), vec![4]);
}

#[test]
fn removing_an_absent_leaf_keeps_all() {
    let n = sample().remove_leaf(8).unwrap();
    assert_eq!(leaves(&n), vec![1, 2, 3]);
}
