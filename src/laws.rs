//! Properties of the addressing scheme and of the tree operations.
use vstd::prelude::*;
use crate::index::{depth, in_subtree, lemma_shift_moves_forward, lemma_subtree_of_child, parent_of, shift, Split};
use crate::node::{split_node, Fraction, TreeNode};
use crate::tree::{leaf_below, promoted, shape_ok, split_targets, splits, used};

verus! {

/// Both children of every slot name that slot as their parent.
pub proof fn law_children_know_parent(i: nat)
    ensures
        parent_of(2 * i + 1) == i,
        parent_of(2 * i + 2) == i,
        2 * i + 1 != 0 && 2 * i + 2 != 0,
{
}

/// Depth never decreases along the array, and the root has depth 0.
pub proof fn law_level_monotonic(i: nat, j: nat)
    requires
        i <= j,
    ensures
        depth(i) <= depth(j),
        depth(0) == 0,
    decreases j,
{
    if i > 0 {
        law_level_monotonic(parent_of(i), parent_of(j));
    }
}

/// Every slot in use hangs from the root through split nodes: each strict
/// ancestor of it holds a split node.
pub proof fn law_used_slots_reachable<P>(t: Seq<TreeNode<P>>, a: nat, x: nat)
    requires
        shape_ok(t),
        x < t.len(),
        used(t, x as int),
        in_subtree(a, x),
        a != x,
    ensures
        splits(t, a as int),
    decreases x,
{
    let q = parent_of(x);
    assert(splits(t, q as int) || leaf_below(t, q as int));
    if q != a {
        law_used_slots_reachable(t, a, q);
    }
}

/// Below a slot that holds no split node, nothing is in use.
proof fn lemma_nothing_below_leaf<P>(t: Seq<TreeNode<P>>, a: nat, x: nat)
    requires
        shape_ok(t),
        a < t.len(),
        !splits(t, a as int),
        in_subtree(a, x),
        a != x,
        x < t.len(),
    ensures
        !used(t, x as int),
{
    if used(t, x as int) {
        law_used_slots_reachable(t, a, x);
    }
}

/// A slot of `p`'s subtree lands, under `shift`, in `s`'s subtree.
proof fn lemma_shift_into_subtree(p: nat, s: nat, x: nat)
    requires
        s > p,
        in_subtree(p, x),
    ensures
        in_subtree(s, shift(p, s, x)),
        x != p ==> shift(p, s, x) > s,
    decreases x,
{
    if x != p {
        let q = parent_of(x);
        lemma_shift_into_subtree(p, s, q);
        lemma_shift_moves_forward(p, s, q);
        lemma_shift_moves_forward(p, s, x);
    }
}

/// Splitting the leaf at `p` (giving `t1`), emptying the new leaf (giving
/// `t2`) and collapsing it gives back the tree from before the split, grown
/// with unused slots.
pub proof fn law_split_then_collapse<P>(
    t0: Seq<TreeNode<P>>,
    t1: Seq<TreeNode<P>>,
    t2: Seq<TreeNode<P>>,
    p: nat,
    split: Split,
    fraction: Fraction,
    emptied: TreeNode<P>,
)
    requires
        shape_ok(t0),
        p < t0.len(),
        t0[p as int] is Leaf,
        t0.len() <= t1.len(),
        2 * p + 2 < t1.len(),
        t1[p as int] == split_node::<P>(split, fraction),
        t1[split_targets(p, split).0 as int] == t0[p as int],
        forall|i: int|
            0 <= i < t1.len() && i != p && i != split_targets(p, split).0 && i
                != split_targets(p, split).1 ==> t1[i] == if i < t0.len() {
                t0[i]
            } else {
                TreeNode::<P>::Vacant
            },
        t2 == t1.update(split_targets(p, split).1 as int, emptied),
    ensures
        forall|i: int|
            0 <= i < t2.len() ==> #[trigger] promoted(t2, p, split_targets(p, split).0)[i] == if i
                < t0.len() {
                t0[i]
            } else {
                TreeNode::<P>::Vacant
            },
{
    let (r0, r1) = split_targets(p, split);
    assert(splits(t0, p as int) == false);
    assert forall|i: int| 0 <= i < t2.len() implies #[trigger] promoted(t2, p, r0)[i] == if i < t0.len() {
        t0[i]
    } else {
        TreeNode::<P>::Vacant
    } by {
        let x = i as nat;
        if in_subtree(p, x) {
            lemma_shift_into_subtree(p, r0, x);
            lemma_shift_moves_forward(p, r0, x);
            let y = shift(p, r0, x);
            if x != p {
                lemma_subtree_of_child(p, r0, y);
                assert(y > r1) by {
                    assert(in_subtree(r0, parent_of(y)));
                    assert(parent_of(y) >= r0);
                }
                if y < t2.len() {
                    assert(t2[y as int] == t1[y as int]);
                    if y < t0.len() {
                        lemma_nothing_below_leaf(t0, p, y);
                    }
                }
                if x < t0.len() {
                    lemma_nothing_below_leaf(t0, p, x);
                }
            }
        } else {
            assert(x != p && x != r0 && x != r1) by {
                assert(in_subtree(p, p));
                assert(parent_of(r0) == p && parent_of(r1) == p);
            }
        }
    }
}

} // verus!
