//! The layout tree: a growable array of nodes addressed by `NodeIndex`.
use vstd::prelude::*;
use crate::index::{
    depth, full_len, in_subtree, lemma_full_len_exceeds, lemma_level_gap, lemma_level_shift,
    lemma_level_start_ge, lemma_shift_moves_forward, lemma_subtree_of_child, level_start,
    level_width, parent_of, shift, NodeIndex, Split,
};
use crate::node::{clamp_active, split_node, Fraction, Rect, Tab, TreeNode};

verus! {

/// The most slots the backing array may hold.
pub const MAX_SLOTS: usize = 0x1fff_ffff;

/// Children of `parent` after a split, ordered `[old content, new content]`.
pub open spec fn split_targets(parent: nat, split: Split) -> (nat, nat) {
    match split {
        Split::Right | Split::Above => (2 * parent + 2, 2 * parent + 1),
        Split::Left | Split::Below => (2 * parent + 1, 2 * parent + 2),
    }
}

pub proof fn lemma_full_len_bounds(i: nat)
    ensures
        i < full_len(depth(i)),
        full_len(depth(i)) <= 2 * i + 1,
    decreases i,
{
    if i > 0 {
        lemma_full_len_bounds(parent_of(i));
    }
}

pub proof fn lemma_full_len_mono(a: nat, b: nat)
    requires
        a <= b,
    ensures
        full_len(a) <= full_len(b),
    decreases b,
{
    if a < b {
        lemma_full_len_mono(a, (b - 1) as nat);
    }
}

/// Whether slot `i` of `t` is in use.
pub open spec fn used<P>(t: Seq<TreeNode<P>>, i: int) -> bool {
    !(t[i] is Vacant)
}

/// Whether slot `i` of `t` holds a split node.
pub open spec fn splits<P>(t: Seq<TreeNode<P>>, i: int) -> bool {
    t[i].is_split()
}

/// The shape of a well-formed tree laid out in `t`.
pub open spec fn shape_ok<P>(t: Seq<TreeNode<P>>) -> bool {
    &&& 1 <= t.len() <= MAX_SLOTS
    &&& used(t, 0)
    &&& forall|i: int| 0 <= i < t.len() ==> (#[trigger] t[i]).wf()
    &&& forall|i: int|
        0 <= i < t.len() && #[trigger] splits(t, i) ==> {
            &&& 2 * i + 2 < t.len()
            &&& used(t, 2 * i + 1)
            &&& used(t, 2 * i + 2)
        }
    &&& forall|i: int| 0 <= i < t.len() ==> #[trigger] splits(t, i) || leaf_below(t, i)
}

/// No child of slot `i` of `t` is in use.
pub open spec fn leaf_below<P>(t: Seq<TreeNode<P>>, i: int) -> bool {
    &&& 2 * i + 1 < t.len() ==> !used(t, 2 * i + 1)
    &&& 2 * i + 2 < t.len() ==> !used(t, 2 * i + 2)
}

/// Replacing one node by a well-formed node of the same kind keeps the shape.
pub proof fn lemma_update_keeps_shape<P>(t: Seq<TreeNode<P>>, k: int, n: TreeNode<P>)
    requires
        shape_ok(t),
        0 <= k < t.len(),
        n.wf(),
        (n is Vacant) == (t[k] is Vacant),
        n.is_split() == t[k].is_split(),
    ensures
        shape_ok(t.update(k, n)),
{
    let t2 = t.update(k, n);
    assert forall|i: int| 0 <= i < t2.len() && #[trigger] splits(t2, i) implies {
        &&& 2 * i + 2 < t2.len()
        &&& used(t2, 2 * i + 1)
        &&& used(t2, 2 * i + 2)
    } by {
        assert(splits(t, i));
    }
    assert forall|i: int| 0 <= i < t2.len() implies #[trigger] splits(t2, i) || leaf_below(t2, i) by {
        assert(splits(t, i) || leaf_below(t, i));
    }
}

/// Turning the leaf at `p` into a split node with two leaves below it, in a
/// copy of `t0` grown with unused slots, keeps the shape.
#[verifier::rlimit(40)]
pub proof fn lemma_split_keeps_shape<P>(t0: Seq<TreeNode<P>>, t: Seq<TreeNode<P>>, p: int)
    requires
        shape_ok(t0),
        0 <= p < t0.len(),
        t0[p] is Leaf,
        t0.len() <= t.len() <= MAX_SLOTS,
        2 * p + 2 < t.len(),
        t[p].is_split(),
        t[p].wf(),
        t[2 * p + 1] is Leaf,
        t[2 * p + 1].wf(),
        t[2 * p + 2] is Leaf,
        t[2 * p + 2].wf(),
        forall|i: int|
            0 <= i < t0.len() && i != p && i != 2 * p + 1 && i != 2 * p + 2 ==> t[i] == t0[i],
        forall|i: int|
            t0.len() <= i < t.len() && i != 2 * p + 1 && i != 2 * p + 2 ==> t[i] is Vacant,
    ensures
        shape_ok(t),
{
    assert((2 * p + 1 < t0.len() ==> !used(t0, 2 * p + 1)) && (2 * p + 2 < t0.len() ==> !used(
        t0,
        2 * p + 2,
    ))) by {
        if 2 * p + 1 < t0.len() && used(t0, 2 * p + 1) {
            assert(splits(t0, p));
        }
        if 2 * p + 2 < t0.len() && used(t0, 2 * p + 2) {
            assert(splits(t0, p));
        }
    }
    assert forall|i: int| 0 <= i < t.len() implies (#[trigger] t[i]).wf() by {
        if i < t0.len() && i != p && i != 2 * p + 1 && i != 2 * p + 2 {
            assert(t0[i].wf());
        }
    }
    assert forall|i: int| 0 <= i < t.len() && #[trigger] splits(t, i) implies {
        &&& 2 * i + 2 < t.len()
        &&& used(t, 2 * i + 1)
        &&& used(t, 2 * i + 2)
    } by {
        if i != p {
            assert(splits(t0, i));
        }
    }
    assert forall|i: int| 0 <= i < t.len() implies #[trigger] splits(t, i) || leaf_below(t, i) by {
        if i == 2 * p + 1 || i == 2 * p + 2 {
            if 2 * i + 1 < t0.len() {
                assert(splits(t0, i) || leaf_below(t0, i));
            }
        } else if i != p && i < t0.len() {
            assert(splits(t0, i) || leaf_below(t0, i));
        }
    }
    assert(used(t, 0));
}

/// Whether `n` is a leaf whose active index selects one of its tabs.
pub open spec fn has_active<P>(n: TreeNode<P>) -> bool {
    n is Leaf && n->Leaf_active < n.tab_seq().len()
}

/// The active tab of a leaf that has one.
pub open spec fn active_of<P>(n: TreeNode<P>) -> Tab<P> {
    n.tab_seq()[n->Leaf_active as int]
}

/// Whether `n` is a leaf whose tabs have all been removed.
pub open spec fn is_empty_leaf<P>(n: TreeNode<P>) -> bool {
    n is Leaf && n.tab_seq().len() == 0
}

/// The other child of the parent of non-root slot `k`.
pub open spec fn sibling_of(k: nat) -> nat {
    if k % 2 == 1 {
        k + 1
    } else {
        (k - 1) as nat
    }
}

/// What slot `x` holds once the subtree at `p` of `t` is replaced by the
/// subtree at `s`, moved up so that `s` lands on `p`.
pub open spec fn promoted_at<P>(t: Seq<TreeNode<P>>, p: nat, s: nat, x: int) -> TreeNode<P> {
    if in_subtree(p, x as nat) {
        if shift(p, s, x as nat) < t.len() {
            t[shift(p, s, x as nat) as int]
        } else {
            TreeNode::Vacant
        }
    } else {
        t[x]
    }
}

/// `t` with the subtree at `p` replaced by the subtree at `s`, moved up so
/// that `s` lands on `p`; slots left over in `p`'s subtree become unused.
pub open spec fn promoted<P>(t: Seq<TreeNode<P>>, p: nat, s: nat) -> Seq<TreeNode<P>> {
    Seq::new(t.len(), |x: int| promoted_at(t, p, s, x))
}

/// Promotion keeps every node well formed.
pub proof fn lemma_promoted_nodes<P>(t: Seq<TreeNode<P>>, p: nat, s: nat)
    requires
        shape_ok(t),
        p < t.len(),
        splits(t, p as int),
        s == 2 * p + 1 || s == 2 * p + 2,
    ensures
        forall|i: int| 0 <= i < t.len() ==> (#[trigger] promoted(t, p, s)[i]).wf(),
{
    let t2 = promoted(t, p, s);
    assert forall|i: int| 0 <= i < t2.len() implies (#[trigger] t2[i]).wf() by {
        if in_subtree(p, i as nat) && shift(p, s, i as nat) < t.len() {
            assert(t[shift(p, s, i as nat) as int].wf());
        } else if !in_subtree(p, i as nat) {
            assert(t[i].wf());
        }
    }
}

/// After promotion every split node still has two children in use.
#[verifier::rlimit(40)]
pub proof fn lemma_promoted_children<P>(t: Seq<TreeNode<P>>, p: nat, s: nat)
    requires
        shape_ok(t),
        p < t.len(),
        splits(t, p as int),
        s == 2 * p + 1 || s == 2 * p + 2,
    ensures
        forall|i: int|
            0 <= i < t.len() && #[trigger] splits(promoted(t, p, s), i) ==> {
                &&& 2 * i + 2 < t.len()
                &&& used(promoted(t, p, s), 2 * i + 1)
                &&& used(promoted(t, p, s), 2 * i + 2)
            },
{
    let t2 = promoted(t, p, s);
    assert(used(t, s as int));
    assert forall|i: int| 0 <= i < t2.len() && #[trigger] splits(t2, i) implies {
        &&& 2 * i + 2 < t2.len()
        &&& used(t2, 2 * i + 1)
        &&& used(t2, 2 * i + 2)
    } by {
        let x = i as nat;
        if in_subtree(p, x) {
            lemma_shift_moves_forward(p, s, x);
            let y = shift(p, s, x);
            assert(y < t.len());
            assert(splits(t, y as int));
            assert(t2[2 * i + 1] == t[2 * y as int + 1]);
            assert(t2[2 * i + 2] == t[2 * y as int + 2]);
        } else {
            assert(splits(t, i));
            assert forall|c: int| c == 2 * i + 1 || c == 2 * i + 2 implies used(t2, c) by {
                assert(parent_of(c as nat) == x);
                if in_subtree(p, c as nat) {
                    assert(c == p);
                    lemma_shift_moves_forward(p, s, p);
                    assert(t2[c] == t[s as int]);
                } else {
                    assert(used(t, c));
                }
            }
        }
    }
}

/// After promotion no node but a split node has a child in use.
#[verifier::rlimit(40)]
pub proof fn lemma_promoted_parents<P>(t: Seq<TreeNode<P>>, p: nat, s: nat)
    requires
        shape_ok(t),
        p < t.len(),
        splits(t, p as int),
        s == 2 * p + 1 || s == 2 * p + 2,
    ensures
        forall|i: int| 0 <= i < t.len() ==> #[trigger] splits(promoted(t, p, s), i) || leaf_below(promoted(t, p, s), i),
{
    let t2 = promoted(t, p, s);
    assert forall|i: int| 0 <= i < t2.len() implies #[trigger] splits(t2, i) || leaf_below(t2, i) by {
        let x = i as nat;
        if in_subtree(p, x) {
            lemma_shift_moves_forward(p, s, x);
            let y = shift(p, s, x);
            if y < t.len() {
                assert(splits(t, y as int) || leaf_below(t, y as int));
            }
        } else {
            assert(parent_of(2 * x + 1) == x);
            assert(parent_of(2 * x + 2) == x);
            if in_subtree(p, 2 * x + 1) || in_subtree(p, 2 * x + 2) {
                assert(used(t, p as int));
                assert(x == parent_of(p));
                assert(splits(t, i) || leaf_below(t, i));
            } else {
                assert(splits(t, i) || leaf_below(t, i));
            }
        }
    }
}

/// Promoting the sibling of a child of a split node keeps the shape.
pub proof fn lemma_promoted_keeps_shape<P>(t: Seq<TreeNode<P>>, p: nat, s: nat)
    requires
        shape_ok(t),
        p < t.len(),
        splits(t, p as int),
        s == 2 * p + 1 || s == 2 * p + 2,
    ensures
        shape_ok(promoted(t, p, s)),
{
    let t2 = promoted(t, p, s);
    lemma_promoted_nodes(t, p, s);
    lemma_promoted_children(t, p, s);
    lemma_promoted_parents(t, p, s);
    assert(used(t, s as int));
    if p == 0 {
        assert(t2[0] == t[s as int]);
    }
    assert(used(t2, 0));
}

/// A layout tree of panels of type `P`.
pub struct SplitTree<P> {
    tree: Vec<TreeNode<P>>,
}

impl<P> View for SplitTree<P> {
    type V = Seq<TreeNode<P>>;

    closed spec fn view(&self) -> Seq<TreeNode<P>> {
        self.tree@
    }
}

impl<P> SplitTree<P> {
    /// The tree's invariant: the root is in use, every node is well formed,
    /// every split node has two children in use, and no other node has a
    /// child in use.
    pub open spec fn wf(&self) -> bool {
        shape_ok(self@)
    }

    /// A tree of one slot holding `root`.
    pub fn new(root: TreeNode<P>) -> (r: Self)
        requires
            root is Leaf,
            root.wf(),
        ensures
            r.wf(),
            r@ == seq![root],
    {
        let mut tree: Vec<TreeNode<P>> = Vec::new();
        tree.push(root);
        SplitTree { tree }
    }

    /// Number of slots in the backing array, used or not.
    pub fn len(&self) -> (r: usize)
        ensures
            r == self@.len(),
    {
        self.tree.len()
    }

    pub fn is_empty(&self) -> (r: bool)
        ensures
            r == (self@.len() == 0),
    {
        self.tree.len() == 0
    }

    /// The slots in array order.
    pub fn iter(&self) -> (r: std::slice::Iter<'_, TreeNode<P>>)
        ensures
            vstd::std_specs::slice::into_iter_elts(r) == self@,
    {
        let r = self.tree.as_slice().iter();
        proof {
            broadcast use vstd::std_specs::slice::axiom_spec_slice_iter;
            assert(vstd::std_specs::iter::IteratorSpec::remaining(&r).unref() =~= self@);
        }
        r
    }

    /// The node at slot `index`.
    pub fn node(&self, index: NodeIndex) -> (r: &TreeNode<P>)
        requires
            index.0 < self@.len(),
        ensures
            *r == self@[index.0 as int],
    {
        &self.tree[index.0]
    }

    /// Sets the screen rectangle of the node at `index`.
    pub fn set_rect(&mut self, index: NodeIndex, rect: Rect)
        requires
            old(self).wf(),
            index.0 < old(self)@.len(),
        ensures
            final(self).wf(),
            final(self)@.len() == old(self)@.len(),
            forall|i: int| 0 <= i < old(self)@.len() && i != index.0 ==> final(self)@[i] == old(self)@[i],
            match old(self)@[index.0 as int] {
                TreeNode::Vacant => final(self)@[index.0 as int] is Vacant,
                TreeNode::Leaf { viewport, tabs, active, .. } => final(self)@[index.0 as int] == (
                TreeNode::Leaf { rect, viewport, tabs, active }),
                TreeNode::Vertical { fraction, .. } => final(self)@[index.0 as int] == (
                TreeNode::<P>::Vertical { rect, fraction }),
                TreeNode::Horizontal { fraction, .. } => final(self)@[index.0 as int] == (
                TreeNode::<P>::Horizontal { rect, fraction }),
            },
    {
        self.tree[index.0].set_rect(rect);
        proof {
            lemma_update_keeps_shape(old(self)@, index.0 as int, self@[index.0 as int]);
            assert(self@ =~= old(self)@.update(index.0 as int, self@[index.0 as int]));
        }
    }

    /// Sets the content rectangle of the leaf at `index`; other nodes stay.
    pub fn set_viewport(&mut self, index: NodeIndex, new_viewport: Rect)
        requires
            old(self).wf(),
            index.0 < old(self)@.len(),
        ensures
            final(self).wf(),
            final(self)@.len() == old(self)@.len(),
            forall|i: int| 0 <= i < old(self)@.len() && i != index.0 ==> final(self)@[i] == old(self)@[i],
            match old(self)@[index.0 as int] {
                TreeNode::Leaf { rect, tabs, active, .. } => final(self)@[index.0 as int] == (
                TreeNode::Leaf { rect, viewport: new_viewport, tabs, active }),
                _ => final(self)@[index.0 as int] == old(self)@[index.0 as int],
            },
    {
        match &mut self.tree[index.0] {
            TreeNode::Leaf { viewport, .. } => *viewport = new_viewport,
            _ => {},
        }
        proof {
            lemma_update_keeps_shape(old(self)@, index.0 as int, self@[index.0 as int]);
            assert(self@ =~= old(self)@.update(index.0 as int, self@[index.0 as int]));
        }
    }

    /// Appends `tab` to the leaf at `leaf`.
    pub fn append_tab(&mut self, leaf: NodeIndex, tab: Tab<P>)
        requires
            old(self).wf(),
            leaf.0 < old(self)@.len(),
            old(self)@[leaf.0 as int] is Leaf,
        ensures
            final(self).wf(),
            final(self)@.len() == old(self)@.len(),
            forall|i: int| 0 <= i < old(self)@.len() && i != leaf.0 ==> final(self)@[i] == old(self)@[i],
            final(self)@[leaf.0 as int] is Leaf,
            final(self)@[leaf.0 as int].tab_seq() == old(self)@[leaf.0 as int].tab_seq().push(tab),
            final(self)@[leaf.0 as int]->Leaf_active == old(self)@[leaf.0 as int]->Leaf_active,
    {
        self.tree[leaf.0].append_tab(tab);
        proof {
            lemma_update_keeps_shape(old(self)@, leaf.0 as int, self@[leaf.0 as int]);
            assert(self@ =~= old(self)@.update(leaf.0 as int, self@[leaf.0 as int]));
        }
    }

    /// Removes the tab at `index` from the leaf at `leaf`; a slot that holds
    /// no leaf is left as it is and yields `None`.
    pub fn remove_tab(&mut self, leaf: NodeIndex, index: usize) -> (r: Option<Tab<P>>)
        requires
            old(self).wf(),
            leaf.0 < old(self)@.len(),
            old(self)@[leaf.0 as int] is Leaf ==> index < old(self)@[leaf.0 as int].tab_seq().len(),
        ensures
            final(self).wf(),
            final(self)@.len() == old(self)@.len(),
            forall|i: int| 0 <= i < old(self)@.len() && i != leaf.0 ==> final(self)@[i] == old(self)@[i],
            !(old(self)@[leaf.0 as int] is Leaf) ==> r is None && final(self)@ == old(self)@,
            old(self)@[leaf.0 as int] is Leaf ==> {
                let before = old(self)@[leaf.0 as int];
                let after = final(self)@[leaf.0 as int];
                &&& r == Some(before.tab_seq()[index as int])
                &&& after is Leaf
                &&& after.tab_seq() == before.tab_seq().remove(index as int)
                &&& after->Leaf_active == clamp_active(before->Leaf_active, after.tab_seq().len())
            },
    {
        let r = self.tree[leaf.0].remove_tab(index);
        proof {
            lemma_update_keeps_shape(old(self)@, leaf.0 as int, self@[leaf.0 as int]);
            assert(self@ =~= old(self)@.update(leaf.0 as int, self@[leaf.0 as int]));
        }
        r
    }

    /// Grows the backing array with unused slots so that the whole level
    /// below `parent` fits.
    fn fix_len_parent(&mut self, parent: NodeIndex)
        requires
            shape_ok(old(self)@),
            parent.0 < old(self)@.len(),
            4 * parent.0 + 3 <= MAX_SLOTS,
        ensures
            final(self)@.len() == vstd::math::max(
                old(self)@.len() as int,
                full_len(depth(parent.id()) + 1) as int,
            ),
            2 * parent.0 + 2 < final(self)@.len(),
            final(self)@.len() <= MAX_SLOTS,
            forall|i: int| 0 <= i < old(self)@.len() ==> final(self)@[i] == old(self)@[i],
            forall|i: int| old(self)@.len() <= i < final(self)@.len() ==> final(self)@[i] is Vacant,
    {
        let lvl = parent.level();
        proof {
            lemma_full_len_bounds(parent.id());
            lemma_full_len_exceeds(depth(parent.id()) + 1);
        }
        let mut target: usize = 1;
        let mut k: usize = 0;
        while k <= lvl
            invariant
                lvl == depth(parent.id()),
                k <= lvl + 1,
                lvl + 1 < full_len(depth(parent.id()) + 1),
                target == full_len(k as nat),
                full_len(depth(parent.id()) + 1) <= 4 * parent.0 + 3,
                4 * parent.0 + 3 <= MAX_SLOTS,
            decreases lvl + 1 - k,
        {
            proof {
                lemma_full_len_mono((k + 1) as nat, (lvl + 1) as nat);
            }
            target = 2 * target + 1;
            k = k + 1;
        }
        let ghost before = self@;
        while self.tree.len() < target
            invariant
                target == full_len(depth(parent.id()) + 1),
                target <= MAX_SLOTS,
                before.len() <= self@.len(),
                self@.len() <= vstd::math::max(before.len() as int, target as int),
                forall|i: int| 0 <= i < before.len() ==> self@[i] == before[i],
                forall|i: int| before.len() <= i < self@.len() ==> self@[i] is Vacant,
            decreases target - self@.len(),
        {
            self.tree.push(TreeNode::Vacant);
        }
    }

    /// Splits the leaf at `parent`: it becomes a split node of the kind that
    /// `split` asks for, its old content moves to one child and `new` to the
    /// other. Returns the two children as `[old content, new content]`.
    pub fn split(&mut self, parent: NodeIndex, split: Split, fraction: Fraction, new: TreeNode<P>) -> (r: [NodeIndex; 2])
        requires
            old(self).wf(),
            parent.0 < old(self)@.len(),
            old(self)@[parent.0 as int] is Leaf,
            new is Leaf,
            new.wf(),
            fraction.wf(),
            4 * parent.0 + 3 <= MAX_SLOTS,
        ensures
            final(self).wf(),
            final(self)@.len() == vstd::math::max(
                old(self)@.len() as int,
                full_len(depth(parent.id()) + 1) as int,
            ),
            (r[0].id(), r[1].id()) == split_targets(parent.id(), split),
            final(self)@[parent.0 as int] == split_node::<P>(split, fraction),
            final(self)@[r[0].0 as int] == old(self)@[parent.0 as int],
            final(self)@[r[1].0 as int] == new,
            forall|i: int|
                0 <= i < final(self)@.len() && i != parent.0 && i != r[0].0 && i != r[1].0
                    ==> final(self)@[i] == if i < old(self)@.len() {
                    old(self)@[i]
                } else {
                    TreeNode::<P>::Vacant
                },
    {
        let ghost t0 = self@;
        self.fix_len_parent(parent);
        let ghost t1 = self@;
        let old_leaf = self.tree[parent.0].split(split, fraction);
        let index = match split {
            Split::Right | Split::Above => [parent.right(), parent.left()],
            Split::Left | Split::Below => [parent.left(), parent.right()],
        };
        self.tree[index[0].0] = old_leaf;
        self.tree[index[1].0] = new;
        proof {
            lemma_split_keeps_shape(t0, self@, parent.0 as int);
        }
        index
    }

    /// Splits the leaf at `parent` and puts a fresh leaf holding `tabs` beside it.
    pub fn split_tabs(&mut self, parent: NodeIndex, split: Split, fraction: Fraction, tabs: Vec<Tab<P>>) -> (r: [NodeIndex; 2])
        requires
            old(self).wf(),
            parent.0 < old(self)@.len(),
            old(self)@[parent.0 as int] is Leaf,
            fraction.wf(),
            4 * parent.0 + 3 <= MAX_SLOTS,
        ensures
            final(self).wf(),
            final(self)@.len() == vstd::math::max(
                old(self)@.len() as int,
                full_len(depth(parent.id()) + 1) as int,
            ),
            (r[0].id(), r[1].id()) == split_targets(parent.id(), split),
            final(self)@[parent.0 as int] == split_node::<P>(split, fraction),
            final(self)@[r[0].0 as int] == old(self)@[parent.0 as int],
            final(self)@[r[1].0 as int] is Leaf,
            final(self)@[r[1].0 as int].tab_seq() == tabs@,
            final(self)@[r[1].0 as int]->Leaf_active == 0,
            forall|i: int|
                0 <= i < final(self)@.len() && i != parent.0 && i != r[0].0 && i != r[1].0
                    ==> final(self)@[i] == if i < old(self)@.len() {
                    old(self)@[i]
                } else {
                    TreeNode::<P>::Vacant
                },
    {
        let leaf = TreeNode::leaf_with(tabs);
        self.split(parent, split, fraction, leaf)
    }

    /// Collapses the first emptied leaf, in array order: the leaf and its
    /// parent split node go, and the leaf's sibling subtree moves up one
    /// level so that it takes the parent's place. With no emptied leaf, or
    /// with an emptied root, nothing changes. The array never shrinks.
    pub fn remove_empty_leaf(&mut self)
        requires
            old(self).wf(),
        ensures
            final(self).wf(),
            final(self)@.len() == old(self)@.len(),
            (forall|i: int| 0 <= i < old(self)@.len() ==> !is_empty_leaf(#[trigger] old(self)@[i]))
                ==> final(self)@ == old(self)@,
            forall|k: int|
                0 <= k < old(self)@.len() && is_empty_leaf(#[trigger] old(self)@[k]) && (forall|j: int|
                    0 <= j < k ==> !is_empty_leaf(#[trigger] old(self)@[j])) ==> final(self)@ == if k == 0 {
                    old(self)@
                } else {
                    promoted(old(self)@, parent_of(k as nat), sibling_of(k as nat))
                },
    {
        let len = self.tree.len();
        let mut k: usize = 0;
        while k < len
            invariant
                len == self@.len(),
                k <= len,
                forall|j: int| 0 <= j < k ==> !is_empty_leaf(#[trigger] self@[j]),
            ensures
                k <= len,
                k < len ==> is_empty_leaf(self@[k as int]),
                forall|j: int| 0 <= j < k ==> !is_empty_leaf(#[trigger] self@[j]),
            decreases len - k,
        {
            let found = match &self.tree[k] {
                TreeNode::Leaf { tabs, .. } => tabs.len() == 0,
                _ => false,
            };
            if found {
                break;
            }
            k = k + 1;
        }
        if k == len || k == 0 {
            return;
        }
        let ghost t = self@;
        let parent = (k - 1) / 2;
        let sibling = if k % 2 == 1 { k + 1 } else { k - 1 };
        proof {
            assert(used(t, k as int));
            assert(splits(t, parent as int) || leaf_below(t, parent as int));
            lemma_promoted_keeps_shape(t, parent as nat, sibling as nat);
        }
        let ghost p = parent as nat;
        let ghost s = sibling as nat;
        let mut dst: usize = parent;
        let mut src: usize = sibling;
        let mut width: usize = 1;
        let ghost mut d: nat = 0;
        while dst < len
            invariant
                len == self@.len() == t.len(),
                shape_ok(t),
                splits(t, p as int),
                s == 2 * p + 1 || s == 2 * p + 2,
                len <= MAX_SLOTS,
                dst == level_start(p, d),
                src == level_start(s, d),
                width == level_width(d),
                dst < src,
                src + 1 <= 3 * (dst + 1),
                width <= dst + 1,
                dst <= 2 * len + 1,
                forall|x: int|
                    0 <= x < len ==> #[trigger] self@[x] == if in_subtree(p, x as nat) && x < dst {
                        promoted_at(t, p, s, x)
                    } else if in_subtree(s, x as nat) && x < src {
                        TreeNode::Vacant
                    } else {
                        t[x]
                    },
            decreases 2 * len + 1 - dst,
        {
            let mut o: usize = 0;
            while o < width && dst + o < len
                invariant
                    len == self@.len() == t.len(),
                    s == 2 * p + 1 || s == 2 * p + 2,
                    len <= MAX_SLOTS,
                    dst == level_start(p, d),
                    src == level_start(s, d),
                    width == level_width(d),
                    dst < src,
                    src + 1 <= 3 * (dst + 1),
                    width <= dst + 1,
                    dst < len,
                    o <= width,
                    forall|x: int|
                        0 <= x < len ==> #[trigger] self@[x] == if in_subtree(p, x as nat) && x < dst + o {
                            promoted_at(t, p, s, x)
                        } else if in_subtree(s, x as nat) && x < src + o {
                            TreeNode::Vacant
                        } else {
                            t[x]
                        },
                decreases width - o,
            {
                proof {
                    lemma_level_shift(p, s, d, (dst + o) as nat);
                    lemma_level_shift(s, s + 1, d, (src + o) as nat);
                }
                let to = dst + o;
                let from = src + o;
                if from < len {
                    let mut moved = TreeNode::Vacant;
                    std::mem::swap(&mut self.tree[from], &mut moved);
                    self.tree[to] = moved;
                } else {
                    self.tree[to] = TreeNode::Vacant;
                }
                o = o + 1;
            }
            proof {
                lemma_level_start_ge(p, d);
                lemma_level_start_ge(s, d);
                if o == width {
                    assert forall|x: int| 0 <= x < len && dst + width <= x < 2 * dst + 1 implies !#[trigger] in_subtree(p, x as nat) by {
                        lemma_level_gap(p, d, x as nat);
                    }
                    assert forall|x: int| 0 <= x < len && src + width <= x < 2 * src + 1 implies !#[trigger] in_subtree(s, x as nat) by {
                        lemma_level_gap(s, d, x as nat);
                    }
                }
            }
            dst = 2 * dst + 1;
            src = 2 * src + 1;
            width = 2 * width;
            proof {
                d = d + 1;
            }
        }
        proof {
            assert forall|x: int| 0 <= x < len && #[trigger] in_subtree(s, x as nat) implies in_subtree(p, x as nat) by {
                lemma_subtree_of_child(p, s, x as nat);
            }
            assert(self@ =~= promoted(t, p, s));
        }
    }

    /// The active tab of the leaf at `index`, if that slot is a leaf with one.
    pub fn active_tab(&self, index: NodeIndex) -> (r: Option<&Tab<P>>)
        requires
            index.0 < self@.len(),
        ensures
            r is Some <==> has_active(self@[index.0 as int]),
            r is Some ==> *r->0 == active_of(self@[index.0 as int]),
    {
        match &self.tree[index.0] {
            TreeNode::Leaf { tabs, active, .. } => {
                if *active < tabs.len() {
                    Some(&tabs[*active])
                } else {
                    None
                }
            },
            _ => None,
        }
    }

    /// The first leaf, in array order, whose active tab holds a panel that
    /// `wanted` accepts, with that leaf's content rectangle.
    pub fn find_active<F: Fn(&P) -> bool>(&self, wanted: F) -> (r: Option<(Rect, NodeIndex)>)
        requires
            forall|x: &P| #[trigger] wanted.requires((x,)),
        ensures
            r is Some ==> {
                let (viewport, i) = r->0;
                &&& i.0 < self@.len()
                &&& has_active(self@[i.0 as int])
                &&& viewport == self@[i.0 as int]->Leaf_viewport
                &&& wanted.ensures((&active_of(self@[i.0 as int]).inner,), true)
            },
            forall|j: int|
                0 <= j < self@.len() && has_active(#[trigger] self@[j]) && (r matches Some((_, i)) ==> j < i.0)
                    ==> wanted.ensures((&active_of(self@[j]).inner,), false),
    {
        let mut i: usize = 0;
        while i < self.tree.len()
            invariant
                forall|x: &P| #[trigger] wanted.requires((x,)),
                i <= self@.len(),
                forall|j: int|
                    0 <= j < i && has_active(#[trigger] self@[j]) ==> wanted.ensures(
                        (&active_of(self@[j]).inner,),
                        false,
                    ),
            decreases self@.len() - i,
        {
            match &self.tree[i] {
                TreeNode::Leaf { tabs, active, viewport, .. } => {
                    if *active < tabs.len() {
                        if wanted(&tabs[*active].inner) {
                            return Some((*viewport, NodeIndex(i)));
                        }
                    }
                },
                _ => {},
            }
            i = i + 1;
        }
        None
    }
}

} // verus!
