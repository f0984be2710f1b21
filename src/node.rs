//! What a slot of the layout tree holds.
use vstd::prelude::*;
use crate::index::Split;

verus! {

/// A screen rectangle in whole logical points, from `min` to `max`.
#[derive(Clone, Copy, PartialEq, Eq, Structural, Debug)]
pub struct Rect {
    pub min_x: i32,
    pub min_y: i32,
    pub max_x: i32,
    pub max_y: i32,
}

impl Rect {
    /// The rectangle that holds no point: every bound inverted to its extreme.
    pub fn nothing() -> (r: Self)
        ensures
            r == Rect::spec_nothing(),
    {
        Rect { min_x: i32::MAX, min_y: i32::MAX, max_x: i32::MIN, max_y: i32::MIN }
    }

    pub open spec fn spec_nothing() -> Self {
        Rect { min_x: i32::MAX, min_y: i32::MAX, max_x: i32::MIN, max_y: i32::MIN }
    }
}

/// The share `num / den` of a split node's space, strictly between 0 and 1.
#[derive(Clone, Copy, PartialEq, Eq, Structural, Debug)]
pub struct Fraction {
    pub num: u32,
    pub den: u32,
}

impl Fraction {
    pub open spec fn wf(self) -> bool {
        0 < self.num < self.den
    }

    /// The fraction `num / den`, if it lies strictly between 0 and 1.
    pub fn new(num: u32, den: u32) -> (r: Option<Self>)
        ensures
            r is Some <==> 0 < num < den,
            r is Some ==> r->0 == (Fraction { num, den }),
    {
        if 0 < num && num < den {
            Some(Fraction { num, den })
        } else {
            None
        }
    }
}

/// A named, iconized handle to one panel.
pub struct Tab<P> {
    pub icon: char,
    pub title: String,
    pub inner: P,
}

impl<P> Tab<P> {
    pub fn new(icon: char, title: String, inner: P) -> (r: Self)
        ensures
            r.icon == icon,
            r.title == title,
            r.inner == inner,
    {
        Tab { icon, title, inner }
    }
}

/// One slot of the layout tree; `Vacant` marks an unused slot.
pub enum TreeNode<P> {
    Vacant,
    Leaf { rect: Rect, viewport: Rect, tabs: Vec<Tab<P>>, active: usize },
    Vertical { rect: Rect, fraction: Fraction },
    Horizontal { rect: Rect, fraction: Fraction },
}

/// The split node that a request of kind `split` with `fraction` produces.
pub open spec fn split_node<P>(split: Split, fraction: Fraction) -> TreeNode<P> {
    match split {
        Split::Left | Split::Right => TreeNode::Horizontal { rect: Rect::spec_nothing(), fraction },
        Split::Above | Split::Below => TreeNode::Vertical { rect: Rect::spec_nothing(), fraction },
    }
}

impl<P> TreeNode<P> {
    /// The node's own invariant: a non-empty leaf selects one of its tabs
    /// (an emptied one keeps index 0), and a split divides its space by a proper fraction.
    pub open spec fn wf(&self) -> bool {
        match self {
            TreeNode::Vacant => true,
            TreeNode::Leaf { tabs, active, .. } => *active < tabs.len() || (tabs.len() == 0 && *active == 0),
            TreeNode::Vertical { fraction, .. } => fraction.wf(),
            TreeNode::Horizontal { fraction, .. } => fraction.wf(),
        }
    }

    pub open spec fn is_split(&self) -> bool {
        self is Vertical || self is Horizontal
    }

    /// The tabs of a leaf; empty for any other node.
    pub open spec fn tab_seq(&self) -> Seq<Tab<P>> {
        match self {
            TreeNode::Leaf { tabs, .. } => tabs@,
            _ => Seq::empty(),
        }
    }

    pub fn leaf(tab: Tab<P>) -> (r: Self)
        ensures
            r is Leaf,
            r.wf(),
            r.tab_seq() == seq![tab],
            r->Leaf_active == 0,
            r->Leaf_rect == Rect::spec_nothing(),
            r->Leaf_viewport == Rect::spec_nothing(),
    {
        let mut tabs: Vec<Tab<P>> = Vec::new();
        tabs.push(tab);
        TreeNode::Leaf { rect: Rect::nothing(), viewport: Rect::nothing(), tabs, active: 0 }
    }

    pub fn leaf_with(tabs: Vec<Tab<P>>) -> (r: Self)
        ensures
            r is Leaf,
            r.wf(),
            r.tab_seq() == tabs@,
            r->Leaf_active == 0,
            r->Leaf_rect == Rect::spec_nothing(),
            r->Leaf_viewport == Rect::spec_nothing(),
    {
        TreeNode::Leaf { rect: Rect::nothing(), viewport: Rect::nothing(), tabs, active: 0 }
    }

    /// Sets the screen rectangle of any node but an unused slot.
    pub fn set_rect(&mut self, new_rect: Rect)
        ensures
            match *old(self) {
                TreeNode::Vacant => *final(self) == TreeNode::<P>::Vacant,
                TreeNode::Leaf { viewport, tabs, active, .. } => *final(self) == (TreeNode::Leaf {
                    rect: new_rect,
                    viewport,
                    tabs,
                    active,
                }),
                TreeNode::Vertical { fraction, .. } => *final(self) == (TreeNode::<P>::Vertical {
                    rect: new_rect,
                    fraction,
                }),
                TreeNode::Horizontal { fraction, .. } => *final(self) == (TreeNode::<P>::Horizontal {
                    rect: new_rect,
                    fraction,
                }),
            },
    {
        match self {
            TreeNode::Vacant => {},
            TreeNode::Leaf { rect, .. } => *rect = new_rect,
            TreeNode::Vertical { rect, .. } => *rect = new_rect,
            TreeNode::Horizontal { rect, .. } => *rect = new_rect,
        }
    }

    pub fn is_none(&self) -> (r: bool)
        ensures
            r == (*self is Vacant),
    {
        match self {
            TreeNode::Vacant => true,
            _ => false,
        }
    }

    pub fn is_leaf(&self) -> (r: bool)
        ensures
            r == (*self is Leaf),
    {
        match self {
            TreeNode::Leaf { .. } => true,
            _ => false,
        }
    }

    /// Turns this node into a split node and hands back what it held.
    pub fn split(&mut self, split: Split, fraction: Fraction) -> (r: Self)
        ensures
            r == *old(self),
            *final(self) == split_node::<P>(split, fraction),
    {
        let rect = Rect::nothing();
        let mut src = match split {
            Split::Left | Split::Right => TreeNode::Horizontal { fraction, rect },
            Split::Above | Split::Below => TreeNode::Vertical { fraction, rect },
        };
        std::mem::swap(self, &mut src);
        src
    }

    /// Appends a tab to a leaf.
    pub fn append_tab(&mut self, tab: Tab<P>)
        requires
            *old(self) is Leaf,
        ensures
            *final(self) is Leaf,
            final(self).tab_seq() == old(self).tab_seq().push(tab),
            final(self)->Leaf_active == old(self)->Leaf_active,
            final(self)->Leaf_rect == old(self)->Leaf_rect,
            final(self)->Leaf_viewport == old(self)->Leaf_viewport,
            old(self).wf() ==> final(self).wf(),
    {
        match self {
            TreeNode::Leaf { tabs, .. } => tabs.push(tab),
            _ => {},
        }
    }

    /// Removes the tab at `index` from a leaf, keeping the active tab in
    /// range; any other node is left as it is and yields `None`.
    pub fn remove_tab(&mut self, index: usize) -> (r: Option<Tab<P>>)
        requires
            *old(self) is Leaf ==> index < old(self).tab_seq().len(),
        ensures
            !(*old(self) is Leaf) ==> r is None && *final(self) == *old(self),
            *old(self) is Leaf ==> {
                &&& r == Some(old(self).tab_seq()[index as int])
                &&& *final(self) is Leaf
                &&& final(self).tab_seq() == old(self).tab_seq().remove(index as int)
                &&& final(self)->Leaf_active == clamp_active(
                    old(self)->Leaf_active,
                    final(self).tab_seq().len(),
                )
                &&& final(self)->Leaf_rect == old(self)->Leaf_rect
                &&& final(self)->Leaf_viewport == old(self)->Leaf_viewport
                &&& final(self).wf()
            },
    {
        match self {
            TreeNode::Leaf { tabs, active, .. } => {
                let tab = tabs.remove(index);
                if *active >= tabs.len() {
                    *active = if tabs.len() > 0 { tabs.len() - 1 } else { 0 };
                }
                Some(tab)
            },
            _ => None,
        }
    }
}

/// The active index after the tab list shrank to `len` tabs.
pub open spec fn clamp_active(active: usize, len: nat) -> usize {
    if active >= len {
        if len > 0 { (len - 1) as usize } else { 0 }
    } else {
        active
    }
}

} // verus!
