use vstd::prelude::*;

use super::{Split, TabIndex};
use crate::geometry::{spec_rect_nothing, Rect, ZERO_BITS};

verus! {

/// Represents an abstract node of a [`Tree`](crate::Tree).
#[derive(Debug)]
pub enum Node<Tab> {
    /// Empty node.
    Empty,
    /// Contains the actual tabs.
    Leaf {
        /// The full rectangle - tab bar plus tab body.
        rect: Rect,
        /// The tab body rectangle.
        viewport: Rect,
        /// All the tabs in this node.
        tabs: Vec<Tab>,
        /// The opened tab.
        active: TabIndex,
        /// Scroll amount of the tab bar (bit pattern of a single-precision number).
        scroll: u32,
    },
    /// Parent node in the vertical orientation.
    Vertical {
        /// The rectangle in which all children of this node are drawn.
        rect: Rect,
        /// The fraction taken by the top child of this node (bit pattern of a
        /// single-precision number).
        fraction: u32,
    },
    /// Parent node in the horizontal orientation.
    Horizontal {
        /// The rectangle in which all children of this node are drawn.
        rect: Rect,
        /// The fraction taken by the left child of this node (bit pattern of a
        /// single-precision number).
        fraction: u32,
    },
}

impl<Tab> Node<Tab> {
    /// Whether the node is a split node (`Horizontal` or `Vertical`).
    pub open spec fn is_split_node(&self) -> bool {
        self is Horizontal || self is Vertical
    }

    /// The tabs of a leaf, and no tab for any other node.
    pub open spec fn tab_seq(&self) -> Seq<Tab> {
        match self {
            Node::Leaf { tabs, .. } => tabs@,
            _ => Seq::empty(),
        }
    }

    /// The active tab index of a leaf.
    pub open spec fn active_index(&self) -> usize {
        match self {
            Node::Leaf { active, .. } => active.0,
            _ => 0,
        }
    }

    /// A fresh leaf holding exactly `tabs`.
    pub open spec fn is_fresh_leaf(&self, tabs: Seq<Tab>) -> bool {
        match self {
            Node::Leaf { rect, viewport, tabs: t, active, scroll } => {
                &&& *rect == spec_rect_nothing()
                &&& *viewport == spec_rect_nothing()
                &&& t@ == tabs
                &&& active.0 == 0
                &&& *scroll == ZERO_BITS
            },
            _ => false,
        }
    }

    /// A fresh split node of the orientation that `split` asks for.
    pub open spec fn is_fresh_split(&self, split: Split, fraction: u32) -> bool {
        match self {
            Node::Horizontal { rect, fraction: f } => {
                &&& (split is Left || split is Right)
                &&& *rect == spec_rect_nothing()
                &&& *f == fraction
            },
            Node::Vertical { rect, fraction: f } => {
                &&& (split is Above || split is Below)
                &&& *rect == spec_rect_nothing()
                &&& *f == fraction
            },
            _ => false,
        }
    }

    /// `self` is `old` with the tab list of a leaf replaced by `tabs` and its
    /// active tab set to `active`; the geometry is kept.
    pub open spec fn is_leaf_update(&self, old: Node<Tab>, tabs: Seq<Tab>, active: usize) -> bool {
        match (self, old) {
            (
                Node::Leaf { rect, viewport, tabs: t, active: a, scroll },
                Node::Leaf { rect: r0, viewport: v0, scroll: s0, .. },
            ) => {
                &&& *rect == r0
                &&& *viewport == v0
                &&& *scroll == s0
                &&& t@ == tabs
                &&& a.0 == active
            },
            _ => false,
        }
    }

    /// Constructs a leaf node with a given `tab`.
    pub fn leaf(tab: Tab) -> (r: Self)
        ensures
            r.is_fresh_leaf(seq![tab]),
    {
        let mut tabs = Vec::new();
        tabs.push(tab);
        Node::Leaf {
            rect: Rect::nothing(),
            viewport: Rect::nothing(),
            tabs,
            active: TabIndex(0),
            scroll: ZERO_BITS,
        }
    }

    /// Constructs a leaf node with a given list of `tabs`.
    pub fn leaf_with(tabs: Vec<Tab>) -> (r: Self)
        ensures
            r.is_fresh_leaf(tabs@),
    {
        Node::Leaf {
            rect: Rect::nothing(),
            viewport: Rect::nothing(),
            tabs,
            active: TabIndex(0),
            scroll: ZERO_BITS,
        }
    }

    /// Sets the area occupied by the node.
    pub fn set_rect(&mut self, new_rect: Rect)
        ensures
            match *old(self) {
                Node::Empty => *final(self) == Node::<Tab>::Empty,
                Node::Leaf { viewport, tabs, active, scroll, .. } => *final(self) == (Node::Leaf {
                    rect: new_rect,
                    viewport,
                    tabs,
                    active,
                    scroll,
                }),
                Node::Vertical { fraction, .. } => *final(self) == (Node::<Tab>::Vertical {
                    rect: new_rect,
                    fraction,
                }),
                Node::Horizontal { fraction, .. } => *final(self) == (Node::<Tab>::Horizontal {
                    rect: new_rect,
                    fraction,
                }),
            },
    {
        match self {
            Node::Empty => {},
            Node::Leaf { rect, .. } => {
                *rect = new_rect;
            },
            Node::Vertical { rect, .. } => {
                *rect = new_rect;
            },
            Node::Horizontal { rect, .. } => {
                *rect = new_rect;
            },
        }
    }

    /// Returns the area occupied by the node, or `None` for an empty node.
    pub fn rect(&self) -> (r: Option<Rect>)
        ensures
            match *self {
                Node::Empty => r is None,
                Node::Leaf { rect, .. } => r == Some(rect),
                Node::Vertical { rect, .. } => r == Some(rect),
                Node::Horizontal { rect, .. } => r == Some(rect),
            },
    {
        match self {
            Node::Empty => None,
            Node::Leaf { rect, .. } => Some(*rect),
            Node::Vertical { rect, .. } => Some(*rect),
            Node::Horizontal { rect, .. } => Some(*rect),
        }
    }

    /// Returns `true` if the node is a `Empty`, `false` otherwise.
    pub fn is_empty(&self) -> (r: bool)
        ensures
            r == (*self is Empty),
    {
        match self {
            Node::Empty => true,
            _ => false,
        }
    }

    /// Returns `true` if the node is a `Leaf`, `false` otherwise.
    pub fn is_leaf(&self) -> (r: bool)
        ensures
            r == (*self is Leaf),
    {
        match self {
            Node::Leaf { .. } => true,
            _ => false,
        }
    }

    /// Returns `true` if the node is a `Horizontal`, `false` otherwise.
    pub fn is_horizontal(&self) -> (r: bool)
        ensures
            r == (*self is Horizontal),
    {
        match self {
            Node::Horizontal { .. } => true,
            _ => false,
        }
    }

    /// Returns `true` if the node is a `Vertical`, `false` otherwise.
    pub fn is_vertical(&self) -> (r: bool)
        ensures
            r == (*self is Vertical),
    {
        match self {
            Node::Vertical { .. } => true,
            _ => false,
        }
    }

    /// Returns `true` if the node is either `Horizontal` or `Vertical`, `false` otherwise.
    pub fn is_parent(&self) -> (r: bool)
        ensures
            r == self.is_split_node(),
    {
        self.is_horizontal() || self.is_vertical()
    }

    /// Replaces the node with a `Horizontal` or `Vertical` one (depending on `split`)
    /// with an empty rect, and returns the node it replaced.
    pub fn split(&mut self, split: Split, fraction: u32) -> (r: Self)
        ensures
            r == *old(self),
            final(self).is_fresh_split(split, fraction),
    {
        let rect = Rect::nothing();
        let mut src = match split {
            Split::Left | Split::Right => Node::Horizontal { fraction, rect },
            Split::Above | Split::Below => Node::Vertical { fraction, rect },
        };
        std::mem::swap(self, &mut src);
        src
    }

    /// Adds a `tab` to the end of a leaf and makes it the active tab.
    pub fn append_tab(&mut self, tab: Tab)
        requires
            *old(self) is Leaf,
        ensures
            final(self).is_leaf_update(
                *old(self),
                old(self).tab_seq().push(tab),
                old(self).tab_seq().len() as usize,
            ),
    {
        match self {
            Node::Leaf { tabs, active, .. } => {
                *active = TabIndex(tabs.len());
                tabs.push(tab);
            },
            _ => {
                vstd::pervasive::unreached::<()>();
            },
        }
    }

    /// Inserts a `tab` into a leaf at `index` and makes it the active tab.
    pub fn insert_tab(&mut self, index: TabIndex, tab: Tab)
        requires
            *old(self) is Leaf,
            index.0 <= old(self).tab_seq().len(),
        ensures
            final(self).is_leaf_update(
                *old(self),
                old(self).tab_seq().insert(index.0 as int, tab),
                index.0,
            ),
    {
        match self {
            Node::Leaf { tabs, active, .. } => {
                tabs.insert(index.0, tab);
                *active = index;
            },
            _ => {
                vstd::pervasive::unreached::<()>();
            },
        }
    }

    /// Removes a tab at given `index` from the node.
    /// Returns the removed tab if the node is a `Leaf`, or `None` otherwise.
    ///
    /// When the removed tab is at or before the active one, the active index moves
    /// back by one (staying at `0` when it is `0`).
    pub fn remove_tab(&mut self, tab_index: TabIndex) -> (r: Option<Tab>)
        requires
            *old(self) is Leaf ==> tab_index.0 < old(self).tab_seq().len(),
        ensures
            *old(self) is Leaf ==> {
                &&& r == Some(old(self).tab_seq()[tab_index.0 as int])
                &&& final(self).is_leaf_update(
                    *old(self),
                    old(self).tab_seq().remove(tab_index.0 as int),
                    if tab_index.0 <= old(self).active_index() && old(self).active_index() > 0 {
                        (old(self).active_index() - 1) as usize
                    } else {
                        old(self).active_index()
                    },
                )
            },
            !(*old(self) is Leaf) ==> r is None && *final(self) == *old(self),
    {
        match self {
            Node::Leaf { tabs, active, .. } => {
                if tab_index.0 <= active.0 {
                    active.0 = active.0.saturating_sub(1);
                }
                Some(tabs.remove(tab_index.0))
            },
            _ => None,
        }
    }

    /// Gets the number of tabs in the node.
    pub fn tabs_count(&self) -> (r: usize)
        ensures
            r == self.tab_seq().len(),
    {
        match self {
            Node::Leaf { tabs, .. } => tabs.len(),
            _ => 0,
        }
    }

    /// Gets the tabs of a leaf, or `None` for any other node.
    pub fn tabs(&self) -> (r: Option<&[Tab]>)
        ensures
            *self is Leaf ==> (r matches Some(s) && s@ == self.tab_seq()),
            !(*self is Leaf) ==> r is None,
    {
        match self {
            Node::Leaf { tabs, .. } => Some(tabs.as_slice()),
            _ => None,
        }
    }
}

impl<Tab> Node<Tab> {
    /// `new` is this node with every tab replaced by what `function` gives for it: the
    /// same kind of node with the same rectangles, fractions, active index and scroll.
    pub open spec fn mapped_by<NewTab, F: Fn(&Tab) -> NewTab>(&self, function: F, new: Node<NewTab>) -> bool {
        match (*self, new) {
            (Node::Empty, Node::Empty) => true,
            (
                Node::Leaf { rect, viewport, tabs, active, scroll },
                Node::Leaf { rect: r2, viewport: v2, tabs: t2, active: a2, scroll: s2 },
            ) => {
                &&& rect == r2
                &&& viewport == v2
                &&& active == a2
                &&& scroll == s2
                &&& t2@.len() == tabs@.len()
                &&& forall|j: int| 0 <= j < tabs@.len() ==> function.ensures((&tabs@[j],), #[trigger] t2@[j])
            },
            (Node::Vertical { rect, fraction }, Node::Vertical { rect: r2, fraction: f2 }) => rect == r2 && fraction
                == f2,
            (Node::Horizontal { rect, fraction }, Node::Horizontal { rect: r2, fraction: f2 }) => rect == r2
                && fraction == f2,
            _ => false,
        }
    }

    /// Returns this node with every tab mapped by `function`.
    pub fn map_tabs<NewTab, F: Fn(&Tab) -> NewTab>(&self, function: &F) -> (r: Node<NewTab>)
        requires
            forall|t: &Tab| #[trigger] function.requires((t,)),
        ensures
            self.mapped_by(*function, r),
    {
        match self {
            Node::Empty => Node::Empty,
            Node::Leaf { rect, viewport, tabs, active, scroll } => {
                let mut new_tabs: Vec<NewTab> = Vec::new();
                let mut j: usize = 0;
                while j < tabs.len()
                    invariant
                        forall|t: &Tab| #[trigger] function.requires((t,)),
                        j <= tabs@.len(),
                        new_tabs@.len() == j,
                        forall|q: int| 0 <= q < j ==> function.ensures((&tabs@[q],), #[trigger] new_tabs@[q]),
                    decreases tabs@.len() - j,
                {
                    let t = function(&tabs[j]);
                    new_tabs.push(t);
                    j = j + 1;
                }
                Node::Leaf { rect: *rect, viewport: *viewport, tabs: new_tabs, active: *active, scroll: *scroll }
            },
            Node::Vertical { rect, fraction } => Node::Vertical { rect: *rect, fraction: *fraction },
            Node::Horizontal { rect, fraction } => Node::Horizontal { rect: *rect, fraction: *fraction },
        }
    }
}

/// The values that `outs` holds, in order.
pub open spec fn somes<T>(outs: Seq<Option<T>>) -> Seq<T>
    decreases outs.len(),
{
    if outs.len() == 0 {
        Seq::empty()
    } else {
        match outs.last() {
            Some(x) => somes(outs.drop_last()).push(x),
            None => somes(outs.drop_last()),
        }
    }
}

/// `tabs` without the tabs at the indices where `keep` is `false`.
pub open spec fn kept<Tab>(tabs: Seq<Tab>, keep: Seq<bool>) -> Seq<Tab>
    decreases tabs.len(),
{
    if tabs.len() == 0 {
        Seq::empty()
    } else if keep[tabs.len() - 1] {
        kept(tabs.drop_last(), keep).push(tabs.last())
    } else {
        kept(tabs.drop_last(), keep)
    }
}

/// `kept` reads only the first `tabs.len()` flags.
proof fn lemma_kept_push<Tab>(tabs: Seq<Tab>, keep: Seq<bool>, t: Tab, b: bool)
    requires
        keep.len() == tabs.len(),
    ensures
        kept(tabs.push(t), keep.push(b)) == (if b { kept(tabs, keep).push(t) } else { kept(tabs, keep) }),
{
    assert(tabs.push(t).drop_last() =~= tabs);
    lemma_kept_prefix(tabs, keep, keep.push(b));
}

/// Flags past the end of `tabs` do not matter.
proof fn lemma_kept_prefix<Tab>(tabs: Seq<Tab>, a: Seq<bool>, b: Seq<bool>)
    requires
        tabs.len() <= a.len(),
        tabs.len() <= b.len(),
        forall|j: int| 0 <= j < tabs.len() ==> a[j] == b[j],
    ensures
        kept(tabs, a) == kept(tabs, b),
    decreases tabs.len(),
{
    if tabs.len() > 0 {
        lemma_kept_prefix(tabs.drop_last(), a, b);
    }
}

impl<Tab> Node<Tab> {
    /// `new` is this node with every tab replaced by what `function` gives for it,
    /// the tabs for which it gives `None` left out: the same kind of node with the same
    /// rectangles, fractions, active index and scroll.
    pub open spec fn filter_mapped_by<NewTab, F: Fn(&Tab) -> Option<NewTab>>(&self, function: F, new: Node<NewTab>) -> bool {
        match (*self, new) {
            (Node::Empty, Node::Empty) => true,
            (
                Node::Leaf { rect, viewport, tabs, active, scroll },
                Node::Leaf { rect: r2, viewport: v2, tabs: t2, active: a2, scroll: s2 },
            ) => {
                &&& rect == r2
                &&& viewport == v2
                &&& active == a2
                &&& scroll == s2
                &&& exists|outs: Seq<Option<NewTab>>|
                    #![trigger somes(outs)]
                    outs.len() == tabs@.len() && (forall|j: int|
                        0 <= j < tabs@.len() ==> function.ensures((&tabs@[j],), #[trigger] outs[j]))
                        && t2@ == somes(outs)
            },
            (Node::Vertical { rect, fraction }, Node::Vertical { rect: r2, fraction: f2 }) => rect == r2 && fraction
                == f2,
            (Node::Horizontal { rect, fraction }, Node::Horizontal { rect: r2, fraction: f2 }) => rect == r2
                && fraction == f2,
            _ => false,
        }
    }

    /// `new` is this node keeping only the tabs for which `predicate` holds: the same
    /// kind of node with the same rectangles, fractions, active index and scroll.
    pub open spec fn retained_by<F: Fn(&Tab) -> bool>(&self, predicate: F, new: Node<Tab>) -> bool {
        match (*self, new) {
            (
                Node::Leaf { rect, viewport, tabs, active, scroll },
                Node::Leaf { rect: r2, viewport: v2, tabs: t2, active: a2, scroll: s2 },
            ) => {
                &&& rect == r2
                &&& viewport == v2
                &&& active == a2
                &&& scroll == s2
                &&& exists|keep: Seq<bool>|
                    #![trigger kept(tabs@, keep)]
                    keep.len() == tabs@.len() && (forall|j: int|
                        0 <= j < tabs@.len() ==> predicate.ensures((&tabs@[j],), #[trigger] keep[j]))
                        && t2@ == kept(tabs@, keep)
            },
            _ => new == *self,
        }
    }

    /// Returns this node with every tab mapped by `function`, leaving out the tabs for
    /// which it gives `None`.
    pub fn filter_map_tabs<NewTab, F: Fn(&Tab) -> Option<NewTab>>(&self, function: &F) -> (r: Node<NewTab>)
        requires
            forall|t: &Tab| #[trigger] function.requires((t,)),
        ensures
            self.filter_mapped_by(*function, r),
    {
        match self {
            Node::Empty => Node::Empty,
            Node::Leaf { rect, viewport, tabs, active, scroll } => {
                let mut new_tabs: Vec<NewTab> = Vec::new();
                let ghost mut outs: Seq<Option<NewTab>> = Seq::empty();
                let mut j: usize = 0;
                while j < tabs.len()
                    invariant
                        forall|t: &Tab| #[trigger] function.requires((t,)),
                        j <= tabs@.len(),
                        outs.len() == j,
                        forall|q: int| 0 <= q < j ==> function.ensures((&tabs@[q],), #[trigger] outs[q]),
                        new_tabs@ == somes(outs),
                    decreases tabs@.len() - j,
                {
                    let o = function(&tabs[j]);
                    proof {
                        assert(outs.push(o).drop_last() =~= outs);
                        outs = outs.push(o);
                    }
                    match o {
                        Some(x) => {
                            new_tabs.push(x);
                        },
                        None => {},
                    }
                    j = j + 1;
                }
                Node::Leaf { rect: *rect, viewport: *viewport, tabs: new_tabs, active: *active, scroll: *scroll }
            },
            Node::Vertical { rect, fraction } => Node::Vertical { rect: *rect, fraction: *fraction },
            Node::Horizontal { rect, fraction } => Node::Horizontal { rect: *rect, fraction: *fraction },
        }
    }

    /// Keeps only the tabs for which `predicate` holds; the active index is left as
    /// it was.
    pub fn retain_tabs<F: Fn(&Tab) -> bool>(&mut self, predicate: &F)
        requires
            forall|t: &Tab| #[trigger] predicate.requires((t,)),
        ensures
            old(self).retained_by(*predicate, *final(self)),
    {
        match self {
            Node::Leaf { tabs, .. } => {
                let ghost orig = tabs@;
                assert(orig.len() == tabs.len());
                let ghost mut keep: Seq<bool> = Seq::empty();
                let mut i: usize = 0;
                let mut j: usize = 0;
                while j < tabs.len()
                    invariant
                        forall|t: &Tab| #[trigger] predicate.requires((t,)),
                        i <= orig.len(),
                        orig.len() <= usize::MAX,
                        keep.len() == i,
                        forall|q: int| 0 <= q < i ==> predicate.ensures((&orig[q],), #[trigger] keep[q]),
                        kept(orig.take(i as int), keep) == tabs@.take(j as int),
                        j <= tabs@.len(),
                        tabs@.len() - j == orig.len() - i,
                        tabs@.skip(j as int) == orig.skip(i as int),
                    decreases tabs@.len() - j,
                {
                    let ghost before = tabs@;
                    proof {
                        assert(orig.skip(i as int)[0] == orig[i as int]);
                        assert(before.skip(j as int)[0] == before[j as int]);
                    }
                    let b = predicate(&tabs[j]);
                    proof {
                        assert(orig.take(i + 1) =~= orig.take(i as int).push(orig[i as int]));
                        lemma_kept_push(orig.take(i as int), keep, orig[i as int], b);
                        keep = keep.push(b);
                    }
                    assert(i < orig.len());
                    let ghost j0 = j as int;
                    proof {
                        assert forall|k: int| 0 <= k < before.len() - j - 1 implies #[trigger] before[j + 1 + k]
                            == orig[i + 1 + k] by {
                            assert(before.skip(j as int)[k + 1] == orig.skip(i as int)[k + 1]);
                        }
                    }
                    if b {
                        j = j + 1;
                    } else {
                        tabs.remove(j);
                    }
                    i = i + 1;
                    proof {
                        assert(tabs@.take(j as int) =~= kept(orig.take(i as int), keep));
                        assert forall|k: int| 0 <= k < tabs@.len() - j implies #[trigger] tabs@.skip(j as int)[k]
                            == orig.skip(i as int)[k] by {
                            assert(tabs@[j + k] == before[j0 + 1 + k]);
                        }
                        assert(tabs@.skip(j as int) =~= orig.skip(i as int));
                    }
                }
                proof {
                    assert(orig.take(i as int) =~= orig);
                    assert(tabs@.take(j as int) =~= tabs@);
                }
            },
            _ => {},
        }
    }
}

impl<Tab: Clone> Node<Tab> {
    /// `new` is this node keeping only the tabs for which `predicate` holds, each
    /// replaced by a clone of it: the same kind of node with the same rectangles,
    /// fractions, active index and scroll.
    pub open spec fn filtered_by<F: Fn(&Tab) -> bool>(&self, predicate: F, new: Node<Tab>) -> bool {
        match (*self, new) {
            (
                Node::Leaf { rect, viewport, tabs, active, scroll },
                Node::Leaf { rect: r2, viewport: v2, tabs: t2, active: a2, scroll: s2 },
            ) => {
                &&& rect == r2
                &&& viewport == v2
                &&& active == a2
                &&& scroll == s2
                &&& exists|keep: Seq<bool>|
                    #![trigger kept(tabs@, keep)]
                    keep.len() == tabs@.len() && (forall|j: int|
                        0 <= j < tabs@.len() ==> predicate.ensures((&tabs@[j],), #[trigger] keep[j]))
                        && t2@.len() == kept(tabs@, keep).len() && (forall|j: int|
                        0 <= j < t2@.len() ==> cloned(kept(tabs@, keep)[j], #[trigger] t2@[j]))
            },
            (Node::Empty, Node::Empty) => true,
            (Node::Vertical { rect, fraction }, Node::Vertical { rect: r2, fraction: f2 }) => rect == r2 && fraction
                == f2,
            (Node::Horizontal { rect, fraction }, Node::Horizontal { rect: r2, fraction: f2 }) => rect == r2
                && fraction == f2,
            _ => false,
        }
    }

    /// Returns this node keeping clones of the tabs for which `predicate` holds.
    pub fn filter_tabs<F: Fn(&Tab) -> bool>(&self, predicate: &F) -> (r: Node<Tab>)
        requires
            forall|t: &Tab| #[trigger] predicate.requires((t,)),
        ensures
            self.filtered_by(*predicate, r),
    {
        match self {
            Node::Empty => Node::Empty,
            Node::Leaf { rect, viewport, tabs, active, scroll } => {
                let mut new_tabs: Vec<Tab> = Vec::new();
                let ghost mut keep: Seq<bool> = Seq::empty();
                let mut j: usize = 0;
                while j < tabs.len()
                    invariant
                        forall|t: &Tab| #[trigger] predicate.requires((t,)),
                        j <= tabs@.len(),
                        keep.len() == j,
                        forall|q: int| 0 <= q < j ==> predicate.ensures((&tabs@[q],), #[trigger] keep[q]),
                        new_tabs@.len() == kept(tabs@.take(j as int), keep).len(),
                        forall|q: int|
                            0 <= q < new_tabs@.len() ==> cloned(kept(tabs@.take(j as int), keep)[q], #[trigger] new_tabs@[q]),
                    decreases tabs@.len() - j,
                {
                    let b = predicate(&tabs[j]);
                    proof {
                        assert(tabs@.take(j + 1) =~= tabs@.take(j as int).push(tabs@[j as int]));
                        lemma_kept_push(tabs@.take(j as int), keep, tabs@[j as int], b);
                        keep = keep.push(b);
                    }
                    if b {
                        let c = tabs[j].clone();
                        new_tabs.push(c);
                    }
                    j = j + 1;
                }
                proof {
                    assert(tabs@.take(j as int) =~= tabs@);
                }
                Node::Leaf { rect: *rect, viewport: *viewport, tabs: new_tabs, active: *active, scroll: *scroll }
            },
            Node::Vertical { rect, fraction } => Node::Vertical { rect: *rect, fraction: *fraction },
            Node::Horizontal { rect, fraction } => Node::Horizontal { rect: *rect, fraction: *fraction },
        }
    }
}

} // verus!
