use dock_tree::index::{NodeIndex, Split};
use dock_tree::node::{Fraction, Rect, Tab, TreeNode};
use dock_tree::tree::SplitTree;

fn tab(title: &str) -> Tab<&'static str> {
    Tab::new('*', title.to_string(), "panel")
}

fn tabs(titles: &[&str]) -> Vec<Tab<&'static str>> {
    titles.iter().map(|t| tab(t)).collect()
}

fn titles(node: &TreeNode<&'static str>) -> Option<Vec<String>> {
    match node {
        TreeNode::Leaf { tabs, .. } => Some(tabs.iter().map(|t| t.title.clone()).collect()),
        _ => None,
    }
}

fn at<'a>(tree: &'a SplitTree<&'static str>, i: usize) -> &'a TreeNode<&'static str> {
    tree.node(NodeIndex(i))
}

fn frac(num: u32, den: u32) -> Fraction {
    Fraction::new(num, den).unwrap()
}

#[test]
fn node_index_arithmetic() {
    let root = NodeIndex::root();
    assert_eq!(root, NodeIndex(0));
    assert_eq!(root.left(), NodeIndex(1));
    assert_eq!(root.right(), NodeIndex(2));
    assert_eq!(NodeIndex(5).left(), NodeIndex(11));
    assert_eq!(NodeIndex(5).right(), NodeIndex(12));
    assert_eq!(root.parent(), None);
    for i in 0..2000usize {
        let n = NodeIndex(i);
        assert_eq!(n.left().parent(), Some(n));
        assert_eq!(n.right().parent(), Some(n));
        assert!(n.left().is_left());
        assert!(n.right().is_right());
    }
}

#[test]
fn node_index_level() {
    assert_eq!(NodeIndex(0).level(), 0);
    assert_eq!(NodeIndex(1).level(), 1);
    assert_eq!(NodeIndex(2).level(), 1);
    assert_eq!(NodeIndex(3).level(), 2);
    assert_eq!(NodeIndex(6).level(), 2);
    assert_eq!(NodeIndex(7).level(), 3);
    assert_eq!(NodeIndex(1022).level(), 9);
    assert_eq!(NodeIndex(1023).level(), 10);
    let mut last = 0;
    for i in 0..5000usize {
        let l = NodeIndex(i).level();
        assert!(l >= last);
        last = l;
    }
}

#[test]
fn fraction_bounds() {
    assert!(Fraction::new(7, 10).is_some());
    assert!(Fraction::new(0, 10).is_none());
    assert!(Fraction::new(10, 10).is_none());
    assert!(Fraction::new(11, 10).is_none());
    let f = frac(3, 4);
    assert_eq!((f.num, f.den), (3, 4));
}

#[test]
fn leaf_constructors() {
    let n = TreeNode::leaf(tab("A"));
    assert!(n.is_leaf());
    assert!(!n.is_none());
    assert_eq!(titles(&n), Some(vec!["A".to_string()]));
    let n = TreeNode::leaf_with(tabs(&["A", "B"]));
    match &n {
        TreeNode::Leaf { active, rect, viewport, .. } => {
            assert_eq!(*active, 0);
            assert_eq!(*rect, Rect::nothing());
            assert_eq!(*viewport, Rect::nothing());
        }
        _ => panic!("not a leaf"),
    }
    assert!(TreeNode::<&'static str>::Vacant.is_none());
}

#[test]
fn node_split_returns_old_content() {
    let mut n = TreeNode::leaf(tab("A"));
    let old = n.split(Split::Above, frac(1, 2));
    assert_eq!(titles(&old), Some(vec!["A".to_string()]));
    assert!(matches!(n, TreeNode::Vertical { fraction, .. } if fraction == frac(1, 2)));
    let mut m = TreeNode::leaf(tab("B"));
    m.split(Split::Left, frac(1, 3));
    assert!(matches!(m, TreeNode::Horizontal { .. }));
}

#[test]
fn set_rect_on_each_kind() {
    let r = Rect { min_x: 0, min_y: 0, max_x: 100, max_y: 50 };
    let mut n = TreeNode::leaf(tab("A"));
    n.set_rect(r);
    assert!(matches!(n, TreeNode::Leaf { rect, .. } if rect == r));
    let mut v = TreeNode::<&'static str>::Vacant;
    v.set_rect(r);
    assert!(v.is_none());
}

#[test]
fn remove_tab_clamps_active() {
    let mut n = TreeNode::Leaf {
        rect: Rect::nothing(),
        viewport: Rect::nothing(),
        tabs: tabs(&["A", "B", "C"]),
        active: 2,
    };
    let t = n.remove_tab(2).unwrap();
    assert_eq!(t.title, "C");
    assert!(matches!(n, TreeNode::Leaf { active: 1, .. }));
    n.remove_tab(0);
    assert!(matches!(n, TreeNode::Leaf { active: 0, .. }));
    assert_eq!(titles(&n), Some(vec!["B".to_string()]));
    n.remove_tab(0);
    assert!(matches!(n, TreeNode::Leaf { active: 0, .. }));
    assert_eq!(titles(&n), Some(vec![]));
}

#[test]
fn remove_tab_on_non_leaf_is_absent() {
    let mut n = TreeNode::<&'static str>::Vacant;
    assert!(n.remove_tab(0).is_none());
    let mut s = TreeNode::leaf(tab("A"));
    s.split(Split::Right, frac(1, 2));
    assert!(s.remove_tab(0).is_none());
}

#[test]
fn append_tab_adds_at_end() {
    let mut tree = SplitTree::new(TreeNode::leaf(tab("A")));
    tree.append_tab(NodeIndex::root(), tab("B"));
    assert_eq!(titles(at(&tree, 0)), Some(vec!["A".to_string(), "B".to_string()]));
}

#[test]
fn new_tree_has_one_slot() {
    let tree = SplitTree::new(TreeNode::leaf(tab("A")));
    assert_eq!(tree.len(), 1);
    assert!(!tree.is_empty());
}

#[test]
fn split_right_puts_old_content_right() {
    let mut tree = SplitTree::new(TreeNode::leaf_with(tabs(&["A", "B"])));
    let [old, new] = tree.split_tabs(NodeIndex::root(), Split::Right, frac(7, 10), tabs(&["C"]));
    assert_eq!(old, NodeIndex(2));
    assert_eq!(new, NodeIndex(1));
    assert_eq!(old.parent(), Some(NodeIndex::root()));
    assert_eq!(new.parent(), Some(NodeIndex::root()));
    assert!(matches!(at(&tree, 0), TreeNode::Horizontal { fraction, .. } if *fraction == frac(7, 10)));
    assert_eq!(titles(at(&tree, 2)), Some(vec!["A".to_string(), "B".to_string()]));
    assert_eq!(titles(at(&tree, 1)), Some(vec!["C".to_string()]));
    assert_eq!(tree.len(), 3);
}

#[test]
fn split_directions_map_to_children() {
    let cases = [
        (Split::Right, 2, 1, true),
        (Split::Above, 2, 1, false),
        (Split::Left, 1, 2, true),
        (Split::Below, 1, 2, false),
    ];
    for (split, old_i, new_i, horizontal) in cases {
        let mut tree = SplitTree::new(TreeNode::leaf(tab("old")));
        let r = tree.split_tabs(NodeIndex::root(), split, frac(1, 2), tabs(&["new"]));
        assert_eq!(r, [NodeIndex(old_i), NodeIndex(new_i)]);
        assert_eq!(titles(at(&tree, old_i)), Some(vec!["old".to_string()]));
        assert_eq!(titles(at(&tree, new_i)), Some(vec!["new".to_string()]));
        assert_eq!(matches!(at(&tree, 0), TreeNode::Horizontal { .. }), horizontal);
        assert_eq!(matches!(at(&tree, 0), TreeNode::Vertical { .. }), !horizontal);
    }
}

#[test]
fn growth_covers_the_next_level_and_never_shrinks() {
    let mut tree = SplitTree::new(TreeNode::leaf(tab("A")));
    let [a, b] = tree.split_tabs(NodeIndex::root(), Split::Below, frac(1, 2), tabs(&["B"]));
    assert_eq!(tree.len(), 3);
    let [c, _] = tree.split_tabs(a, Split::Below, frac(1, 2), tabs(&["C"]));
    assert_eq!(tree.len(), 7);
    tree.split_tabs(c, Split::Below, frac(1, 2), tabs(&["D"]));
    assert_eq!(tree.len(), 15);
    // a shallow split after a deep one keeps every slot
    tree.split_tabs(b, Split::Below, frac(1, 2), tabs(&["E"]));
    assert_eq!(tree.len(), 15);
    let mut seen: Vec<String> = Vec::new();
    for i in 0..tree.len() {
        if let Some(t) = titles(at(&tree, i)) {
            seen.extend(t);
        }
    }
    seen.sort();
    assert_eq!(seen, vec!["A", "B", "C", "D", "E"]);
    let before = tree.len();
    tree.remove_tab(NodeIndex(4), 0);
    tree.remove_empty_leaf();
    assert_eq!(tree.len(), before);
}

#[test]
fn split_then_collapse_restores_leaf() {
    let mut tree = SplitTree::new(TreeNode::leaf_with(tabs(&["A", "B"])));
    let [_, new] = tree.split_tabs(NodeIndex::root(), Split::Left, frac(1, 4), tabs(&["C", "D"]));
    tree.remove_tab(new, 1);
    tree.remove_tab(new, 0);
    tree.remove_empty_leaf();
    assert_eq!(titles(at(&tree, 0)), Some(vec!["A".to_string(), "B".to_string()]));
    assert!(at(&tree, 1).is_none());
    assert!(at(&tree, 2).is_none());
    assert_eq!(tree.len(), 3);
}

#[test]
fn scenario_collapse_to_single_leaf() {
    let mut tree = SplitTree::new(TreeNode::leaf_with(tabs(&["A", "B"])));
    let [old, new] = tree.split_tabs(NodeIndex::root(), Split::Right, frac(7, 10), tabs(&["C"]));
    assert_eq!((old, new), (NodeIndex(2), NodeIndex(1)));
    assert_eq!(tree.remove_tab(old, 0).unwrap().title, "A");
    assert_eq!(tree.remove_tab(old, 0).unwrap().title, "B");
    assert_eq!(titles(at(&tree, 2)), Some(vec![]));
    tree.remove_empty_leaf();
    assert_eq!(titles(at(&tree, 0)), Some(vec!["C".to_string()]));
    assert!(at(&tree, 1).is_none());
    assert!(at(&tree, 2).is_none());
}

#[test]
fn scenario_collapse_at_depth_two_promotes_sibling() {
    // root split into 1 (A, B) and 2 (E); 1 split into 3 (A, B) and 4 (C, D)
    let mut tree = SplitTree::new(TreeNode::leaf_with(tabs(&["A", "B"])));
    let [a, _] = tree.split_tabs(NodeIndex::root(), Split::Below, frac(1, 2), tabs(&["E"]));
    assert_eq!(a, NodeIndex(1));
    let [x, y] = tree.split_tabs(a, Split::Below, frac(1, 3), tabs(&["C", "D"]));
    assert_eq!((x, y), (NodeIndex(3), NodeIndex(4)));
    // split 4 once more so the promoted subtree has depth
    let [p, q] = tree.split_tabs(y, Split::Left, frac(2, 3), tabs(&["F", "G"]));
    assert_eq!((p, q), (NodeIndex(9), NodeIndex(10)));
    // empty the leaf at depth 2 (slot 3)
    tree.remove_tab(x, 0);
    tree.remove_tab(x, 0);
    tree.remove_empty_leaf();
    assert!(matches!(at(&tree, 0), TreeNode::Vertical { .. }));
    assert!(matches!(at(&tree, 1), TreeNode::Horizontal { .. }));
    assert_eq!(titles(at(&tree, 2)), Some(vec!["E".to_string()]));
    assert_eq!(titles(at(&tree, 3)), Some(vec!["C".to_string(), "D".to_string()]));
    assert_eq!(titles(at(&tree, 4)), Some(vec!["F".to_string(), "G".to_string()]));
    for i in 5..tree.len() {
        assert!(at(&tree, i).is_none(), "slot {} should be unused", i);
    }
}

#[test]
fn collapse_without_empty_leaf_changes_nothing() {
    let mut tree = SplitTree::new(TreeNode::leaf(tab("A")));
    tree.split_tabs(NodeIndex::root(), Split::Right, frac(1, 2), tabs(&["B"]));
    tree.remove_empty_leaf();
    assert!(matches!(at(&tree, 0), TreeNode::Horizontal { .. }));
    assert_eq!(titles(at(&tree, 1)), Some(vec!["B".to_string()]));
    assert_eq!(titles(at(&tree, 2)), Some(vec!["A".to_string()]));
}

#[test]
fn collapse_of_emptied_root_changes_nothing() {
    let mut tree = SplitTree::new(TreeNode::leaf(tab("A")));
    tree.remove_tab(NodeIndex::root(), 0);
    tree.remove_empty_leaf();
    assert_eq!(tree.len(), 1);
    assert_eq!(titles(at(&tree, 0)), Some(vec![]));
}

#[test]
fn find_active_takes_first_match() {
    let mut tree = SplitTree::new(TreeNode::leaf(Tab::new('a', "one".to_string(), 1u32)));
    let [_, b] = tree.split_tabs(NodeIndex::root(), Split::Right, frac(1, 2), vec![Tab::new('b', "two".to_string(), 2u32)]);
    tree.append_tab(b, Tab::new('c', "three".to_string(), 3u32));
    let view = Rect { min_x: 1, min_y: 2, max_x: 3, max_y: 4 };
    tree.set_viewport(b, view);
    assert_eq!(tree.find_active(|p: &u32| *p == 2), Some((view, NodeIndex(1))));
    assert_eq!(tree.find_active(|p: &u32| *p >= 1).map(|r| r.1), Some(NodeIndex(1)));
    assert_eq!(tree.find_active(|p: &u32| *p == 3), None);
    assert_eq!(tree.active_tab(NodeIndex(2)).map(|t| t.inner), Some(1));
    assert!(tree.active_tab(NodeIndex(0)).is_none());
}

#[test]
fn set_rect_through_tree() {
    let mut tree = SplitTree::new(TreeNode::leaf(tab("A")));
    let r = Rect { min_x: 0, min_y: 0, max_x: 640, max_y: 480 };
    tree.set_rect(NodeIndex::root(), r);
    assert!(matches!(at(&tree, 0), TreeNode::Leaf { rect, .. } if *rect == r));
}

#[test]
fn iter_walks_slots_in_order() {
    let mut tree = SplitTree::new(TreeNode::leaf(tab("A")));
    tree.split_tabs(NodeIndex::root(), Split::Above, frac(1, 2), tabs(&["B"]));
    let kinds: Vec<bool> = tree.iter().map(|n| n.is_leaf()).collect();
    assert_eq!(kinds, vec![false, true, true]);
    let names: Vec<String> = tree.iter().filter_map(|n| titles(n)).flatten().collect();
    assert_eq!(names, vec!["B".to_string(), "A".to_string()]);
}
