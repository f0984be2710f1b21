//! Addressing in an implicit binary tree stored breadth first.
use vstd::prelude::*;

verus! {

/// Depth of slot `i`: the root has depth 0, its children depth 1, and so on.
pub open spec fn depth(i: nat) -> nat
    decreases i,
{
    if i == 0 {
        0
    } else {
        depth(((i - 1) as nat) / 2) + 1
    }
}

/// Number of slots in a tree whose levels `0..=l` are all present.
pub open spec fn full_len(l: nat) -> nat
    decreases l,
{
    if l == 0 {
        1
    } else {
        2 * full_len((l - 1) as nat) + 1
    }
}

pub proof fn lemma_full_len_exceeds(l: nat)
    ensures
        full_len(l) > l,
    decreases l,
{
    if l > 0 {
        lemma_full_len_exceeds((l - 1) as nat);
    }
}

/// Parent of a non-root slot.
pub open spec fn parent_of(i: nat) -> nat {
    ((i - 1) as nat) / 2
}

/// Whether slot `x` lies in the subtree rooted at slot `a`.
pub open spec fn in_subtree(a: nat, x: nat) -> bool
    decreases x,
{
    x == a || (x > a && in_subtree(a, parent_of(x)))
}

/// Where slot `x` of the subtree rooted at `p` lands when that subtree is
/// replaced by the one rooted at `s`: the slot of `s`'s subtree reached by
/// the same path.
pub open spec fn shift(p: nat, s: nat, x: nat) -> nat
    decreases x,
{
    if x <= p {
        s
    } else if x % 2 == 1 {
        2 * shift(p, s, parent_of(x)) + 1
    } else {
        2 * shift(p, s, parent_of(x)) + 2
    }
}

/// First slot of the descendants of `a` that lie `d` levels below it.
pub open spec fn level_start(a: nat, d: nat) -> nat
    decreases d,
{
    if d == 0 {
        a
    } else {
        2 * level_start(a, (d - 1) as nat) + 1
    }
}

/// Number of descendants of a slot that lie `d` levels below it.
pub open spec fn level_width(d: nat) -> nat
    decreases d,
{
    if d == 0 {
        1
    } else {
        2 * level_width((d - 1) as nat)
    }
}

pub proof fn lemma_level_start_ge(a: nat, d: nat)
    ensures
        level_start(a, d) >= a,
        level_width(d) >= 1,
        level_width(d) <= level_start(a, d) + 1,
    decreases d,
{
    if d > 0 {
        lemma_level_start_ge(a, (d - 1) as nat);
    }
}

/// The slots of level `d` below `p` lie in `p`'s subtree and land, under
/// `shift`, on the slots of level `d` below `s`, in the same order.
pub proof fn lemma_level_shift(p: nat, s: nat, d: nat, x: nat)
    requires
        s > p,
        level_start(p, d) <= x < level_start(p, d) + level_width(d),
    ensures
        in_subtree(p, x),
        shift(p, s, x) == level_start(s, d) + (x - level_start(p, d)),
    decreases d,
{
    if d > 0 {
        let q = parent_of(x);
        lemma_level_shift(p, s, (d - 1) as nat, q);
        lemma_level_start_ge(p, (d - 1) as nat);
        assert(in_subtree(p, x));
    }
}

/// Below `a`, nothing of its subtree lies between the end of level `d` and
/// the start of level `d + 1`.
pub proof fn lemma_level_gap(a: nat, d: nat, x: nat)
    requires
        level_start(a, d) + level_width(d) <= x < 2 * level_start(a, d) + 1,
    ensures
        !in_subtree(a, x),
    decreases d,
{
    lemma_level_start_ge(a, d);
    if d == 0 {
        assert(parent_of(x) < a);
        assert(!in_subtree(a, parent_of(x)));
    } else {
        lemma_level_gap(a, (d - 1) as nat, parent_of(x));
    }
}

/// A slot of a child's subtree lies in its parent's subtree.
pub proof fn lemma_subtree_of_child(p: nat, s: nat, x: nat)
    requires
        s == 2 * p + 1 || s == 2 * p + 2,
        in_subtree(s, x),
    ensures
        in_subtree(p, x),
    decreases x,
{
    if x != s {
        assert(x > s);
        lemma_subtree_of_child(p, s, parent_of(x));
    } else {
        assert(parent_of(s) == p);
        assert(in_subtree(p, p));
    }
}

/// Shifting a slot of `p`'s subtree onto a later subtree moves it forward,
/// and commutes with taking parents and children.
pub proof fn lemma_shift_moves_forward(p: nat, s: nat, x: nat)
    requires
        s > p,
        in_subtree(p, x),
    ensures
        shift(p, s, x) > x,
        shift(p, s, 2 * x + 1) == 2 * shift(p, s, x) + 1,
        shift(p, s, 2 * x + 2) == 2 * shift(p, s, x) + 2,
        in_subtree(p, 2 * x + 1),
        in_subtree(p, 2 * x + 2),
        x != p ==> parent_of(shift(p, s, x)) == shift(p, s, parent_of(x)),
    decreases x,
{
    assert(parent_of(2 * x + 1) == x);
    assert(parent_of(2 * x + 2) == x);
    if x != p {
        lemma_shift_moves_forward(p, s, parent_of(x));
    }
}

/// A slot of the tree.
#[derive(Clone, Copy, PartialEq, Eq, Structural, Hash, Debug)]
pub struct NodeIndex(pub usize);

impl NodeIndex {
    pub open spec fn id(self) -> nat {
        self.0 as nat
    }

    pub fn root() -> (r: Self)
        ensures
            r.0 == 0,
    {
        NodeIndex(0)
    }

    pub fn left(self) -> (r: Self)
        requires
            2 * self.0 + 1 <= usize::MAX,
        ensures
            r.0 == 2 * self.0 + 1,
    {
        NodeIndex(self.0 * 2 + 1)
    }

    pub fn right(self) -> (r: Self)
        requires
            2 * self.0 + 2 <= usize::MAX,
        ensures
            r.0 == 2 * self.0 + 2,
    {
        NodeIndex(self.0 * 2 + 2)
    }

    pub fn parent(self) -> (r: Option<Self>)
        ensures
            self.0 == 0 <==> r is None,
            r is Some ==> r.unwrap().id() == parent_of(self.id()),
    {
        if self.0 > 0 {
            Some(NodeIndex((self.0 - 1) / 2))
        } else {
            None
        }
    }

    /// Depth of this slot: the number of steps up to the root.
    pub fn level(self) -> (r: usize)
        ensures
            r == depth(self.id()),
    {
        let mut x: usize = self.0;
        let mut l: usize = 0;
        while x > 0
            invariant
                depth(self.id()) == depth(x as nat) + l,
                l <= self.0 - x,
            decreases x,
        {
            x = (x - 1) / 2;
            l = l + 1;
        }
        l
    }

    pub fn is_left(self) -> (r: bool)
        ensures
            r == (self.0 % 2 == 1),
    {
        self.0 % 2 != 0
    }

    pub fn is_right(self) -> (r: bool)
        ensures
            r == (self.0 % 2 == 0),
    {
        self.0 % 2 == 0
    }
}

/// Where a new panel goes relative to the one being split.
#[derive(Clone, Copy, PartialEq, Eq, Structural, Debug)]
pub enum Split {
    Left,
    Right,
    Above,
    Below,
}

} // verus!
