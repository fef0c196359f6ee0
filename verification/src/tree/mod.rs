//! Binary tree representing the relationships between [`Node`]s.

/// Wrapper around indices to the collection of nodes inside a [`Tree`].
pub mod node_index;
/// Identifies a tab within a [`Node`].
pub mod tab_index;
/// Wrapper around indices to the collection of windows.
pub mod window_index;
/// A window holding a single detached tab.
pub mod window;
/// Represents an abstract node of a [`Tree`].
pub mod node;
/// Heap layout of the node vector.
pub mod layout;
/// The tabs of a tree as a multiset.
pub mod contents;
/// Counting the positions that hold a node.
pub mod filled;
mod shift;

pub use node_index::NodeIndex;
pub use tab_index::TabIndex;
pub use window_index::WindowIndex;
pub use window::TabWindow;
pub use node::Node;

use vstd::prelude::*;
use vstd::std_specs::cmp::PartialEqSpec;

use crate::geometry::{in_unit_range, HALF_BITS};
use layout::{
    desc, first_non_split, in_subtree, layout_wf, level_width, lifted, node_at,
    parent_pos, same_shape, sibling_pos, subtree_moved,
};

verus! {

/// Direction in which a new node is created relatively to the parent node at which the split occurs.
#[derive(Clone, Copy, Debug, PartialEq, Eq, Structural, Hash)]
pub enum Split {
    /// The new node goes to the left.
    Left,
    /// The new node goes to the right.
    Right,
    /// The new node goes above.
    Above,
    /// The new node goes below.
    Below,
}

impl Split {
    /// Returns whether the split is vertical.
    pub fn is_top_bottom(self) -> (r: bool)
        ensures
            r == (self is Above || self is Below),
    {
        match self {
            Split::Above | Split::Below => true,
            _ => false,
        }
    }

    /// Returns whether the split is horizontal.
    pub fn is_left_right(self) -> (r: bool)
        ensures
            r == (self is Left || self is Right),
    {
        match self {
            Split::Left | Split::Right => true,
            _ => false,
        }
    }
}


/// Position that keeps the old content of `parent` after a split in direction `split`.
pub open spec fn split_old_pos(parent: int, split: Split) -> int {
    if split is Left || split is Above {
        2 * parent + 2
    } else {
        2 * parent + 1
    }
}

/// Position that receives the new node after a split of `parent` in direction `split`.
pub open spec fn split_new_pos(parent: int, split: Split) -> int {
    if split is Left || split is Above {
        2 * parent + 1
    } else {
        2 * parent + 2
    }
}

/// Specify how a tab should be added to a node.
#[derive(Clone, Copy, Debug, PartialEq, Eq, Structural)]
pub enum TabInsert {
    /// Split the node in the given direction.
    Split(Split),
    /// Insert the tab at the given index.
    Insert(TabIndex),
    /// Append the tab to the node.
    Append,
}

/// `after` is `before` with the tab at index `t` removed from the leaf at position `n`
/// (see [`Node::remove_tab`]).
pub open spec fn tab_removed<Tab>(before: Seq<Node<Tab>>, after: Seq<Node<Tab>>, n: int, t: int) -> bool {
    &&& after.len() == before.len()
    &&& 0 <= n < before.len()
    &&& before[n] is Leaf
    &&& 0 <= t < before[n].tab_seq().len()
    &&& after[n].is_leaf_update(
        before[n],
        before[n].tab_seq().remove(t),
        removal_active(before[n].active_index(), t as usize),
    )
    &&& forall|q: int| 0 <= q < before.len() && q != n ==> after[q] == #[trigger] before[q]
}

/// `after` is `before` with `tab` inserted at index `i` of the leaf at position `n`,
/// where it becomes the active tab.
pub open spec fn tab_inserted<Tab>(before: Seq<Node<Tab>>, after: Seq<Node<Tab>>, n: int, i: int, tab: Tab) -> bool {
    &&& after.len() == before.len()
    &&& 0 <= n < before.len()
    &&& before[n] is Leaf
    &&& 0 <= i <= before[n].tab_seq().len()
    &&& after[n].is_leaf_update(before[n], before[n].tab_seq().insert(i, tab), i as usize)
    &&& forall|q: int| 0 <= q < before.len() && q != n ==> after[q] == #[trigger] before[q]
}

/// The steps of [`Tree::move_tab`] from `before` to `after`, through `mid1` (the tab
/// taken out of its leaf) and `mid2` (the tab put at its destination); finally the
/// source leaf is removed if it was left without tabs and is still a leaf.
pub open spec fn move_steps<Tab>(
    before: Seq<Node<Tab>>,
    focus_before: Option<NodeIndex>,
    src: (NodeIndex, TabIndex),
    dst: (NodeIndex, TabInsert),
    mid1: Seq<Node<Tab>>,
    mid2: Seq<Node<Tab>>,
    focus2: Option<NodeIndex>,
    after: Seq<Node<Tab>>,
    focus_after: Option<NodeIndex>,
) -> bool {
    let s = src.0.0 as int;
    let d = dst.0.0 as int;
    let tab = before[s].tab_seq()[src.1.0 as int];
    &&& tab_removed(before, mid1, s, src.1.0 as int)
    &&& match dst.1 {
        TabInsert::Split(split) => {
            &&& split_shape(mid1, mid2, d, split, HALF_BITS)
            &&& node_at(mid2, split_new_pos(d, split)).is_fresh_leaf(seq![tab])
            &&& focus2 == Some(NodeIndex(split_new_pos(d, split) as usize))
        },
        TabInsert::Insert(i) => tab_inserted(mid1, mid2, d, i.0 as int, tab) && focus2
            == focus_before,
        TabInsert::Append => tab_appended(mid1, mid2, d, tab) && focus2 == focus_before,
    }
    &&& if node_at(mid2, s) is Leaf && node_at(mid2, s).tab_seq().len() == 0 {
        removed_leaf(mid2, focus2, s, after, focus_after)
    } else {
        after == mid2 && focus_after == focus2
    }
}

/// In position order, the first leaf from position `i` on that holds no tab (the
/// vector length when there is none).
pub open spec fn first_empty_leaf<Tab>(nodes: Seq<Node<Tab>>, i: int) -> int
    decreases nodes.len() - i,
{
    if i < 0 || i >= nodes.len() {
        nodes.len() as int
    } else if nodes[i] is Leaf && nodes[i].tab_seq().len() == 0 {
        i
    } else {
        first_empty_leaf(nodes, i + 1)
    }
}

/// In position order, the first leaf from position `i` on whose active index names one
/// of its tabs (the vector length when there is none).
pub open spec fn first_active_leaf<Tab>(nodes: Seq<Node<Tab>>, i: int) -> int
    decreases nodes.len() - i,
{
    if i < 0 || i >= nodes.len() {
        nodes.len() as int
    } else if nodes[i] is Leaf && nodes[i].active_index() < nodes[i].tab_seq().len() {
        i
    } else {
        first_active_leaf(nodes, i + 1)
    }
}

/// The position of the focused leaf when its active index names one of its tabs,
/// else the number of nodes.
pub open spec fn focused_active_leaf<Tab>(nodes: Seq<Node<Tab>>, focus: Option<NodeIndex>) -> int {
    match focus {
        Some(f) => if f.0 < nodes.len() && nodes[f.0 as int] is Leaf && nodes[f.0 as int].active_index()
            < nodes[f.0 as int].tab_seq().len() {
            f.0 as int
        } else {
            nodes.len() as int
        },
        None => nodes.len() as int,
    }
}

/// `nodes` with the active index of the leaf at position `n` set to `tab`; `nodes`
/// itself when there is no leaf at `n`.
pub open spec fn with_active<Tab>(nodes: Seq<Node<Tab>>, n: int, tab: TabIndex) -> Seq<Node<Tab>> {
    if 0 <= n < nodes.len() && nodes[n] is Leaf {
        nodes.update(
            n,
            match nodes[n] {
                Node::Leaf { rect, viewport, tabs, scroll, .. } => Node::Leaf {
                    rect,
                    viewport,
                    tabs,
                    active: tab,
                    scroll,
                },
                other => other,
            },
        )
    } else {
        nodes
    }
}

/// `after` (with focus `focus_after`) results from removing the tab at index `t` of the
/// leaf at position `n` of `before`: the leaf loses the tab, and is itself removed
/// (see [`removed_leaf`]) when no tab is left.
pub open spec fn removed_tab<Tab>(
    before: Seq<Node<Tab>>,
    focus_before: Option<NodeIndex>,
    n: int,
    t: int,
    after: Seq<Node<Tab>>,
    focus_after: Option<NodeIndex>,
) -> bool {
    let old_leaf = before[n];
    let rest = old_leaf.tab_seq().remove(t);
    &&& rest.len() > 0 ==> {
        &&& after.len() == before.len()
        &&& after[n].is_leaf_update(old_leaf, rest, removal_active(old_leaf.active_index(), t as usize))
        &&& forall|q: int| 0 <= q < before.len() && q != n ==> #[trigger] after[q] == before[q]
        &&& focus_after == focus_before
    }
    &&& rest.len() == 0 ==> removed_leaf(before, focus_before, n, after, focus_after)
}

/// `after` (with focus `focus_after`) results from pushing `tab` to the focused leaf
/// of `before`: see [`Tree::push_to_focused_leaf`].
pub open spec fn pushed_to_focused_leaf<Tab>(
    before: Seq<Node<Tab>>,
    focus_before: Option<NodeIndex>,
    after: Seq<Node<Tab>>,
    focus_after: Option<NodeIndex>,
    tab: Tab,
) -> bool {
    &&& before.len() == 0 ==> single_leaf(after, tab) && focus_after == Some(NodeIndex(0))
    &&& before.len() > 0 ==> match focus_before {
        Some(f) => tab_appended(before, after, f.0 as int, tab) && focus_after == Some(f),
        None => pushed_to_first_leaf(before, after, focus_after, tab),
    }
}

/// The active tab of the leaf at position `i` of `before` was lent out as `tab`, with
/// the leaf's viewport; `after` is `before` with that tab replaced by `tab_after`.
pub open spec fn active_tab_lent<Tab>(
    before: Seq<Node<Tab>>,
    after: Seq<Node<Tab>>,
    i: int,
    viewport: crate::geometry::Rect,
    tab: Tab,
    tab_after: Tab,
) -> bool {
    let leaf = before[i];
    &&& viewport == leaf_viewport(leaf)
    &&& tab == leaf.tab_seq()[leaf.active_index() as int]
    &&& after.len() == before.len()
    &&& after[i].is_leaf_update(
        leaf,
        leaf.tab_seq().update(leaf.active_index() as int, tab_after),
        leaf.active_index(),
    )
    &&& forall|q: int| 0 <= q < before.len() && q != i ==> #[trigger] after[q] == before[q]
}

/// `r` is the outcome of searching `nodes` for `needle`: a found location names a tab
/// of a leaf, and (where `==` on tabs obeys its specification) it is the first match
/// in position order, while `None` means that no tab matches.
pub open spec fn tab_search<Tab: PartialEq>(nodes: Seq<Node<Tab>>, needle: Tab, r: Option<(NodeIndex, TabIndex)>) -> bool {
    &&& r matches Some((n, t)) ==> n.0 < nodes.len() && nodes[n.0 as int] is Leaf && t.0
        < nodes[n.0 as int].tab_seq().len()
    &&& Tab::obeys_eq_spec() ==> match r {
        Some((n, t)) => {
            &&& tab_matches(nodes, needle, n.0 as int, t.0 as int)
            &&& forall|i: int, j: int|
                (i < n.0 || (i == n.0 && j < t.0)) ==> !#[trigger] tab_matches(nodes, needle, i, j)
        },
        None => forall|i: int, j: int| !#[trigger] tab_matches(nodes, needle, i, j),
    }
}

/// Whatever is lent with an active tab comes with the tab body rectangle of the leaf
/// that holds it (its `viewport`), not with the leaf's full rectangle.
pub proof fn lemma_lent_rect_is_viewport<Tab>(
    before: Seq<Node<Tab>>,
    after: Seq<Node<Tab>>,
    i: int,
    v: crate::geometry::Rect,
    tab: Tab,
    tab_after: Tab,
)
    requires
        0 <= i < before.len(),
        before[i] is Leaf,
        active_tab_lent(before, after, i, v, tab, tab_after),
    ensures
        before[i] matches Node::Leaf { viewport, .. } && v == viewport,
{
}

/// The viewport of a leaf.
pub open spec fn leaf_viewport<Tab>(node: Node<Tab>) -> crate::geometry::Rect {
    match node {
        Node::Leaf { viewport, .. } => viewport,
        _ => crate::geometry::spec_rect_nothing(),
    }
}

/// The last non-empty position among the first `n` positions (`0` when there is none).
pub open spec fn last_non_empty<Tab>(nodes: Seq<Node<Tab>>, n: int) -> int
    decreases n,
{
    if n <= 0 {
        0
    } else if !(nodes[n - 1] is Empty) {
        n - 1
    } else {
        last_non_empty(nodes, n - 1)
    }
}

/// The vector length of a tree after a split: `2^(l + 1)`, where `l` is the level
/// (see [`NodeIndex::level`]) of the last non-empty position.
pub open spec fn split_len<Tab>(nodes: Seq<Node<Tab>>) -> nat {
    level_width(
        node_index::bit_length((last_non_empty(nodes, nodes.len() as int) + 1) as nat) + 1,
    )
}

/// `after` results from splitting the leaf at position `parent` of `before` in
/// direction `split`: the parent becomes a fresh split node, the old leaf moves to
/// [`split_old_pos`], the vector is resized to [`split_len`], and every other position
/// keeps its node. (What lands at [`split_new_pos`] is stated separately.)
pub open spec fn split_shape<Tab>(
    before: Seq<Node<Tab>>,
    after: Seq<Node<Tab>>,
    parent: int,
    split: Split,
    fraction: u32,
) -> bool {
    &&& after.len() == split_len(before)
    &&& node_at(after, parent).is_fresh_split(split, fraction)
    &&& node_at(after, split_old_pos(parent, split)) == node_at(before, parent)
    &&& forall|q: int|
        q != parent && q != split_old_pos(parent, split) && q != split_new_pos(parent, split)
            ==> #[trigger] node_at(after, q) == node_at(before, q)
}

/// The focus is either absent, or names a leaf of the tree (an empty tree may
/// keep a stale focus).
pub open spec fn focus_ok<Tab>(nodes: Seq<Node<Tab>>, focus: Option<NodeIndex>) -> bool {
    focus matches Some(f) ==> (nodes.len() == 0 || (f.0 < nodes.len() && nodes[f.0 as int] is Leaf))
}

/// The positions among the first `n` that hold a node, in increasing order.
pub open spec fn node_positions<Tab>(nodes: Seq<Node<Tab>>, n: int) -> Seq<NodeIndex>
    decreases n,
{
    if n <= 0 {
        Seq::empty()
    } else if nodes[n - 1] is Empty {
        node_positions(nodes, n - 1)
    } else {
        node_positions(nodes, n - 1).push(NodeIndex((n - 1) as usize))
    }
}

/// A node at the root is among the node positions of any prefix that holds it.
proof fn lemma_root_counted<Tab>(nodes: Seq<Node<Tab>>, n: int)
    requires
        1 <= n <= nodes.len(),
        !(nodes[0] is Empty),
    ensures
        node_positions(nodes, n).len() > 0,
    decreases n,
{
    if n > 1 {
        lemma_root_counted(nodes, n - 1);
    }
}

/// All tabs of the first `n` positions of `nodes`, in position order.
pub open spec fn tabs_upto<Tab>(nodes: Seq<Node<Tab>>, n: int) -> Seq<Tab>
    decreases n,
{
    if n <= 0 {
        Seq::empty()
    } else {
        tabs_upto(nodes, n - 1) + nodes[n - 1].tab_seq()
    }
}

/// All tabs of a node vector, in position order (which is breadth-first order).
pub open spec fn all_tabs<Tab>(nodes: Seq<Node<Tab>>) -> Seq<Tab> {
    tabs_upto(nodes, nodes.len() as int)
}

/// The tabs of the first `n` positions, each with the index of its node, in position
/// order.
pub open spec fn indexed_tabs_upto<Tab>(nodes: Seq<Node<Tab>>, n: int) -> Seq<(NodeIndex, Tab)>
    decreases n,
{
    if n <= 0 {
        Seq::empty()
    } else {
        indexed_tabs_upto(nodes, n - 1) + nodes[n - 1].tab_seq().map_values(
            |t: Tab| (NodeIndex((n - 1) as usize), t),
        )
    }
}

/// All tabs of a node vector, each with the index of its node, in position order.
pub open spec fn indexed_tabs<Tab>(nodes: Seq<Node<Tab>>) -> Seq<(NodeIndex, Tab)> {
    indexed_tabs_upto(nodes, nodes.len() as int)
}

/// The leaf at position `n` holds a tab at index `t`.
pub open spec fn has_tab<Tab>(nodes: Seq<Node<Tab>>, n: int, t: int) -> bool {
    &&& 0 <= n < nodes.len()
    &&& nodes[n] is Leaf
    &&& 0 <= t < nodes[n].tab_seq().len()
}

/// The tabs of a node vector, as a multiset.
pub open spec fn tab_bag<Tab>(nodes: Seq<Node<Tab>>) -> vstd::multiset::Multiset<Tab> {
    all_tabs(nodes).to_multiset()
}

/// `after` is `before` with `tab` appended to the leaf at position `i`, which makes it
/// the active tab.
pub open spec fn tab_appended<Tab>(before: Seq<Node<Tab>>, after: Seq<Node<Tab>>, i: int, tab: Tab) -> bool {
    &&& after.len() == before.len()
    &&& 0 <= i < before.len()
    &&& before[i] is Leaf
    &&& after[i].is_leaf_update(
        before[i],
        before[i].tab_seq().push(tab),
        before[i].tab_seq().len() as usize,
    )
    &&& forall|q: int| 0 <= q < before.len() && q != i ==> after[q] == #[trigger] before[q]
}

/// `after` (with focus `focus`) results from pushing `tab` to the first leaf of
/// `before` in position order: see [`Tree::push_to_first_leaf`].
pub open spec fn pushed_to_first_leaf<Tab>(
    before: Seq<Node<Tab>>,
    after: Seq<Node<Tab>>,
    focus: Option<NodeIndex>,
    tab: Tab,
) -> bool {
    let i = first_non_split(before, 0);
    &&& i < before.len() ==> {
        &&& before[i] is Empty ==> {
            &&& i == 0
            &&& after.len() == before.len()
            &&& after[0].is_fresh_leaf(seq![tab])
            &&& forall|q: int| 0 < q < before.len() ==> #[trigger] after[q] == before[q]
        }
        &&& before[i] is Leaf ==> tab_appended(before, after, i, tab)
        &&& focus == Some(NodeIndex(i as usize))
    }
    &&& i == before.len() ==> before.len() == 0 && single_leaf(after, tab) && focus == Some(
        NodeIndex(0),
    )
}

/// `after` holds a single fresh leaf with the one tab `tab`.
pub open spec fn single_leaf<Tab>(after: Seq<Node<Tab>>, tab: Tab) -> bool {
    &&& after.len() == 1
    &&& after[0].is_fresh_leaf(seq![tab])
}

/// The active index of a leaf after removing the tab at `removed` (see
/// [`Node::remove_tab`]).
pub open spec fn removal_active(active: usize, removed: usize) -> usize {
    if removed <= active && active > 0 {
        (active - 1) as usize
    } else {
        active
    }
}

/// `after` and `focus_after` result from removing the leaf at position `n` from
/// `before` (with focus `focus_before`): see [`Tree::remove_leaf`].
pub open spec fn removed_leaf<Tab>(
    before: Seq<Node<Tab>>,
    focus_before: Option<NodeIndex>,
    n: int,
    after: Seq<Node<Tab>>,
    focus_after: Option<NodeIndex>,
) -> bool {
    &&& n == 0 ==> after.len() == 0 && focus_after is None
    &&& n > 0 ==> subtree_moved(before, after, parent_pos(n), sibling_pos(n))
    &&& n > 0 ==> focus_after == (if focus_before == Some(NodeIndex(n as usize)) {
        None
    } else {
        match focus_before {
            Some(x) => Some(NodeIndex(lifted(parent_pos(n), sibling_pos(n), x.0 as int) as usize)),
            None => None,
        }
    })
}

/// Binary tree representing the relationships between [`Node`]s.
///
/// The tree is stored in a [`Vec`] indexed by [`NodeIndex`] in heap layout: the root
/// is at index `0`, and for a node `n` the left child is at `2n + 1` and the right
/// child at `2n + 2`. For `Horizontal` nodes the left child is the left node; for
/// `Vertical` nodes the left child is the top node.
///
/// A node index is a position: splitting a leaf moves it to a child position, and
/// removing a leaf moves its sibling's subtree up one level, renumbering the nodes
/// in that subtree.
#[derive(Debug)]
pub struct Tree<Tab> {
    tree: Vec<Node<Tab>>,
    focused_node: Option<NodeIndex>,
}

impl<Tab> Tree<Tab> {
    /// The node vector.
    pub closed spec fn nodes(&self) -> Seq<Node<Tab>> {
        self.tree@
    }

    /// The focused leaf, if any.
    pub closed spec fn focus(&self) -> Option<NodeIndex> {
        self.focused_node
    }

    /// The node at position `i` (an empty node outside the vector).
    pub open spec fn at(&self, i: int) -> Node<Tab> {
        node_at(self.nodes(), i)
    }

    /// The tree is a well-formed binary tree in heap layout whose focus, if any,
    /// names a leaf, and whose vector can grow without overflowing an index.
    pub open spec fn wf(&self) -> bool {
        &&& layout_wf(self.nodes())
        &&& self.nodes().len() > 0 ==> !(self.nodes()[0] is Empty)
        &&& focus_ok(self.nodes(), self.focus())
        &&& self.nodes().len() <= usize::MAX / 2
    }

    /// Creates a new `Tree` with given `Vec` of `Tab`s in its root node.
    pub fn new(tabs: Vec<Tab>) -> (r: Self)
        ensures
            r.wf(),
            r.nodes().len() == 1,
            r.nodes()[0].is_fresh_leaf(tabs@),
            r.focus() is None,
    {
        let root = Node::leaf_with(tabs);
        let mut tree = Vec::new();
        tree.push(root);
        proof {
            assert forall|i: int| 0 < i < tree@.len() && !(#[trigger] tree@[i] is Empty) implies tree@[parent_pos(i)].is_split_node() by {}
            layout::lemma_layout_wf_intro(tree@);
        }
        Self { tree, focused_node: None }
    }

    /// An empty tree, with no node and no focus.
    pub fn empty() -> (r: Self)
        ensures
            r.wf(),
            r.nodes().len() == 0,
            r.focus() is None,
    {
        let tree: Vec<Node<Tab>> = Vec::new();
        proof {
            layout::lemma_layout_wf_intro(tree@);
        }
        Self { tree, focused_node: None }
    }

    /// Mutably borrows every node, in position order (empty positions included).
    ///
    /// What is written through the borrow is not checked: the tree is well formed
    /// afterwards only if the writes keep it so.
    pub fn iter_mut(&mut self) -> (r: &mut [Node<Tab>])
        ensures
            r@ == old(self).nodes(),
            final(self).nodes() == final(r)@,
            final(self).focus() == old(self).focus(),
    {
        self.tree.as_mut_slice()
    }

    /// Borrows every node, in position order (empty positions included).
    pub fn iter(&self) -> (r: Vec<&Node<Tab>>)
        ensures
            r@.len() == self.nodes().len(),
            forall|j: int| 0 <= j < r@.len() ==> *r@[j] == self.nodes()[j],
    {
        let mut out: Vec<&Node<Tab>> = Vec::new();
        let mut i: usize = 0;
        while i < self.tree.len()
            invariant
                i <= self.tree@.len(),
                out@.len() == i,
                forall|j: int| 0 <= j < i ==> *out@[j] == self.tree@[j],
            decreases self.tree@.len() - i,
        {
            out.push(&self.tree[i]);
            i = i + 1;
        }
        out
    }

    /// The number of positions of the node vector, empty ones included: the bound of
    /// a [`NodeIndex`].
    pub(crate) fn slots(&self) -> (r: usize)
        ensures
            r == self.nodes().len(),
    {
        self.tree.len()
    }

    /// Returns the number of nodes in the `Tree`.
    pub fn len(&self) -> (r: usize)
        ensures
            r == node_positions(self.nodes(), self.nodes().len() as int).len(),
    {
        let mut count: usize = 0;
        let mut i: usize = 0;
        while i < self.tree.len()
            invariant
                i <= self.tree@.len(),
                count == node_positions(self.tree@, i as int).len(),
                count <= i,
            decreases self.tree@.len() - i,
        {
            if !self.tree[i].is_empty() {
                count = count + 1;
            }
            i = i + 1;
        }
        count
    }

    /// Returns the indices of the nodes in breadth-first order: level by level from
    /// the root, each level from left to right, which in heap layout is the order of
    /// increasing position.
    pub fn breadth_first_index_iter(&self) -> (r: Vec<NodeIndex>)
        ensures
            r@ == node_positions(self.nodes(), self.nodes().len() as int),
    {
        let mut out: Vec<NodeIndex> = Vec::new();
        let mut i: usize = 0;
        while i < self.tree.len()
            invariant
                i <= self.tree@.len(),
                out@ == node_positions(self.tree@, i as int),
            decreases self.tree@.len() - i,
        {
            if !self.tree[i].is_empty() {
                out.push(NodeIndex(i));
            }
            i = i + 1;
        }
        out
    }

    /// Returns `true` if the number of nodes in the tree is 0, `false` otherwise.
    pub fn is_empty(&self) -> (r: bool)
        ensures
            r == (self.nodes().len() == 0),
            self.wf() ==> (r == (node_positions(self.nodes(), self.nodes().len() as int).len() == 0)),
    {
        proof {
            if self.wf() && self.tree@.len() > 0 {
                lemma_root_counted(self.tree@, self.tree@.len() as int);
            }
        }
        self.tree.len() == 0
    }

    /// Borrows the node at `index`.
    ///
    /// # Panics
    /// When `index` lies outside the node vector.
    pub fn node(&self, index: NodeIndex) -> (r: &Node<Tab>)
        requires
            index.0 < self.nodes().len(),
        ensures
            *r == self.nodes()[index.0 as int],
    {
        &self.tree[index.0]
    }

    /// Mutably borrows the node at `index`.
    ///
    /// # Panics
    /// When `index` lies outside the node vector.
    pub fn node_mut(&mut self, index: NodeIndex) -> (r: &mut Node<Tab>)
        requires
            index.0 < old(self).nodes().len(),
        ensures
            *r == old(self).nodes()[index.0 as int],
            final(self).nodes() == old(self).nodes().update(index.0 as int, *final(r)),
            final(self).focus() == old(self).focus(),
    {
        &mut self.tree[index.0]
    }

    /// A tree that differs from a well-formed tree only in the contents of one
    /// leaf, which is still a leaf, is well formed.
    pub proof fn lemma_leaf_edit_wf(a: &Self, b: &Self, i: int)
        requires
            a.wf(),
            0 <= i < a.nodes().len(),
            a.nodes()[i] is Leaf,
            b.nodes().len() == a.nodes().len(),
            b.nodes()[i] is Leaf,
            forall|q: int| 0 <= q < a.nodes().len() && q != i ==> #[trigger] b.nodes()[q] == a.nodes()[q],
            b.focus() == a.focus(),
        ensures
            b.wf(),
    {
        layout::lemma_leaf_changed_wf(a.nodes(), b.nodes(), i);
    }

    /// Gets the node index of currently focused leaf node; returns `None` when no leaf is focused.
    pub fn focused_leaf(&self) -> (r: Option<NodeIndex>)
        ensures
            r == self.focus(),
    {
        self.focused_node
    }

    /// Sets the currently focused leaf to `node_index` if the node at `node_index` is a leaf,
    /// and removes the focus otherwise. Never panics.
    pub fn set_focused_node(&mut self, node_index: NodeIndex)
        requires
            old(self).wf(),
        ensures
            final(self).wf(),
            final(self).nodes() == old(self).nodes(),
            final(self).focus() == (if old(self).at(node_index.0 as int) is Leaf {
                Some(node_index)
            } else {
                None::<NodeIndex>
            }),
    {
        if node_index.0 < self.tree.len() && self.tree[node_index.0].is_leaf() {
            self.focused_node = Some(node_index);
        } else {
            self.focused_node = None;
        }
    }

    /// Sets which is the active tab within a specific node; does nothing unless the
    /// node is a leaf.
    pub fn set_active_tab(&mut self, node_index: NodeIndex, tab_index: TabIndex)
        requires
            old(self).wf(),
        ensures
            final(self).wf(),
            final(self).focus() == old(self).focus(),
            final(self).nodes() == with_active(old(self).nodes(), node_index.0 as int, tab_index),
            all_tabs(final(self).nodes()) == all_tabs(old(self).nodes()),
    {
        if node_index.0 < self.tree.len() {
            match &mut self.tree[node_index.0] {
                Node::Leaf { active, .. } => {
                    *active = tab_index;
                },
                _ => {},
            }
        }
        proof {
            let n0 = old(self).tree@;
            let n1 = self.tree@;
            assert forall|i: int| #[trigger] node_at(n1, i) is Empty <==> node_at(n0, i) is Empty by {}
            assert forall|i: int|
                0 <= i < n1.len() && (#[trigger] n1[i]).is_split_node() implies {
                &&& !(node_at(n1, 2 * i + 1) is Empty)
                &&& !(node_at(n1, 2 * i + 2) is Empty)
            } by {
                layout::lemma_layout_wf_children(n0, i);
                assert(node_at(n1, 2 * i + 1) is Empty <==> node_at(n0, 2 * i + 1) is Empty);
                assert(node_at(n1, 2 * i + 2) is Empty <==> node_at(n0, 2 * i + 2) is Empty);
            }
            assert forall|i: int|
                0 < i < n1.len() && !(#[trigger] n1[i] is Empty) implies n1[parent_pos(i)].is_split_node() by {
                layout::lemma_layout_wf_parent(n0, i);
            }
            layout::lemma_layout_wf_intro(n1);
            assert forall|q: int| 0 <= q < n0.len() implies #[trigger] n0[q].tab_seq() == n1[q].tab_seq() by {}
            contents::lemma_same_tab_seqs(n0, n1, n0.len() as int);
        }
    }

    /// Returns the index of the node to the left of the given one (the node above,
    /// for vertical splits), or `None` when the given node is not a split node.
    pub fn left_of(&self, node: NodeIndex) -> (r: Option<NodeIndex>)
        requires
            self.wf(),
            node.0 < self.nodes().len(),
        ensures
            r == (if self.nodes()[node.0 as int].is_split_node() {
                Some(NodeIndex((2 * node.0 + 1) as usize))
            } else {
                None::<NodeIndex>
            }),
    {
        if self.tree[node.0].is_parent() {
            Some(node.left())
        } else {
            None
        }
    }

    /// Returns the index of the node to the right of the given one (the node below,
    /// for vertical splits), or `None` when the given node is not a split node.
    pub fn right_of(&self, node: NodeIndex) -> (r: Option<NodeIndex>)
        requires
            self.wf(),
            node.0 < self.nodes().len(),
        ensures
            r == (if self.nodes()[node.0 as int].is_split_node() {
                Some(NodeIndex((2 * node.0 + 2) as usize))
            } else {
                None::<NodeIndex>
            }),
    {
        if self.tree[node.0].is_parent() {
            Some(node.right())
        } else {
            None
        }
    }

    /// Returns the index of the parent node, or `None` if the given node is the root
    /// or has no split node above it.
    pub fn parent(&self, node: NodeIndex) -> (r: Option<NodeIndex>)
        requires
            self.wf(),
        ensures
            r == (if node.0 > 0 && self.at(parent_pos(node.0 as int)).is_split_node() {
                Some(NodeIndex(parent_pos(node.0 as int) as usize))
            } else {
                None::<NodeIndex>
            }),
    {
        match node.parent() {
            Some(p) => {
                if p.0 < self.tree.len() && self.tree[p.0].is_parent() {
                    Some(p)
                } else {
                    None
                }
            },
            None => None,
        }
    }

    /// Acquires a borrow of the node at the root of the tree; `None` if the tree is empty.
    pub fn root_node(&self) -> (r: Option<&Node<Tab>>)
        ensures
            self.nodes().len() == 0 ==> r is None,
            self.nodes().len() > 0 ==> r == Some(&self.nodes()[0]),
    {
        if self.tree.len() > 0 {
            Some(&self.tree[0])
        } else {
            None
        }
    }

    /// Mutably borrows the root node, if any.
    pub fn root_node_mut(&mut self) -> (r: Option<&mut Node<Tab>>)
        ensures
            old(self).nodes().len() == 0 ==> r is None && *final(self) == *old(self),
            old(self).nodes().len() > 0 ==> (r matches Some(n) && *n == old(self).nodes()[0] && final(self).nodes()
                == old(self).nodes().update(0, *final(n)) && final(self).focus() == old(self).focus()),
    {
        if self.tree.len() > 0 {
            Some(&mut self.tree[0])
        } else {
            None
        }
    }

    /// Counts and returns the number of tabs in the whole tree.
    pub fn num_tabs(&self) -> (r: usize)
        requires
            all_tabs(self.nodes()).len() <= usize::MAX,
        ensures
            r == all_tabs(self.nodes()).len(),
    {
        let mut count: usize = 0;
        let mut i: usize = 0;
        proof {
            lemma_tabs_upto_mono(self.tree@, 0, self.tree@.len() as int);
        }
        while i < self.tree.len()
            invariant
                i <= self.tree@.len(),
                count == tabs_upto(self.tree@, i as int).len(),
                tabs_upto(self.tree@, self.tree@.len() as int).len() <= usize::MAX,
            decreases self.tree@.len() - i,
        {
            proof {
                lemma_tabs_upto_mono(self.tree@, i + 1, self.tree@.len() as int);
            }
            count = count + self.tree[i].tabs_count();
            i = i + 1;
        }
        count
    }

    /// Returns all tabs in position order (breadth-first order).
    pub fn tabs(&self) -> (r: Vec<&Tab>)
        ensures
            r@.len() == all_tabs(self.nodes()).len(),
            forall|j: int| 0 <= j < r@.len() ==> *r@[j] == all_tabs(self.nodes())[j],
    {
        let mut out: Vec<&Tab> = Vec::new();
        let mut i: usize = 0;
        while i < self.tree.len()
            invariant
                i <= self.tree@.len(),
                out@.len() == tabs_upto(self.tree@, i as int).len(),
                forall|j: int| 0 <= j < out@.len() ==> *out@[j] == tabs_upto(self.tree@, i as int)[j],
            decreases self.tree@.len() - i,
        {
            let ghost prev = out@;
            match &self.tree[i] {
                Node::Leaf { tabs, .. } => {
                    let mut j: usize = 0;
                    while j < tabs.len()
                        invariant
                            j <= tabs@.len(),
                            i < self.tree@.len(),
                            self.tree@[i as int].tab_seq() == tabs@,
                            out@.len() == prev.len() + j,
                            forall|m: int| 0 <= m < prev.len() ==> out@[m] == prev[m],
                            forall|m: int| 0 <= m < j ==> *out@[prev.len() + m] == tabs@[m],
                        decreases tabs@.len() - j,
                    {
                        out.push(&tabs[j]);
                        j = j + 1;
                    }
                },
                _ => {},
            }
            i = i + 1;
            proof {
                let t = tabs_upto(self.tree@, i as int);
                assert(t == tabs_upto(self.tree@, i - 1) + self.tree@[i - 1].tab_seq());
                assert forall|j: int| 0 <= j < out@.len() implies *out@[j] == t[j] by {
                    if j < prev.len() {
                        assert(out@[j] == prev[j]);
                        assert(t[j] == tabs_upto(self.tree@, i - 1)[j]);
                    } else {
                        assert(t[j] == self.tree@[i - 1].tab_seq()[j - prev.len()]);
                    }
                }
            }
        }
        out
    }

    /// Removes the given leaf from the [`Tree`]: its parent is replaced by the subtree of
    /// its sibling, which moves up one level. Removing the root clears the tree.
    ///
    /// When the removed leaf had the focus, no leaf has it afterwards; a focus inside
    /// the moved subtree moves along with it.
    ///
    /// # Panics
    /// If the node at index `node` is not a [`Leaf`](Node::Leaf).
    pub fn remove_leaf(&mut self, node: NodeIndex)
        requires
            old(self).wf(),
            node.0 < old(self).nodes().len(),
            old(self).nodes()[node.0 as int] is Leaf,
        ensures
            final(self).wf(),
            removed_leaf(old(self).nodes(), old(self).focus(), node.0 as int, final(self).nodes(), final(self).focus()),
            tab_bag(final(self).nodes()).add(old(self).nodes()[node.0 as int].tab_seq().to_multiset())
                == tab_bag(old(self).nodes()),
    {
        let ghost orig = self.tree@;
        let ghost orig_focus = self.focused_node;
        let parent = match node.parent() {
            Some(val) => val,
            None => {
                self.tree.clear();
                self.focused_node = None;
                proof {
                    layout::lemma_layout_wf_intro(self.tree@);
                    contents::lemma_removed_leaf_bag(orig, orig_focus, node.0 as int, self.tree@, self.focused_node);
                }
                return ;
            },
        };
        let is_focused = match self.focused_node {
            Some(f) => f.0 == node.0,
            None => false,
        };
        if is_focused {
            self.focused_node = None;
        }
        let ghost new_focus = self.focused_node;
        proof {
            layout::lemma_layout_wf_parent(orig, node.0 as int);
            layout::lemma_layout_wf_children(orig, parent.0 as int);
        }
        let sibling = if node.is_left() {
            parent.right()
        } else {
            parent.left()
        };
        self.tree[parent.0] = Node::Empty;
        self.tree[node.0] = Node::Empty;
        let ghost emptied = self.tree@;
        proof {
            let p = parent.0 as int;
            let s = sibling.0 as int;
            let nd = node.0 as int;
            assert(shift::other_child(p, s) == nd);
            assert forall|d: nat, k: int|
                0 <= k < level_width(d) implies #[trigger] node_at(
                emptied,
                desc(shift::other_child(p, s), d, k),
            ) is Empty by {
                if d == 0 {
                    layout::lemma_desc_root(nd);
                } else {
                    layout::lemma_below_non_split_empty(orig, nd, d, k);
                    layout::lemma_desc_bounds(nd, d, k);
                    layout::lemma_desc_deeper(nd, 0, 0, d, k);
                    layout::lemma_desc_root(nd);
                }
            }
        }
        self.move_subtree_up(parent.0, sibling.0);
        proof {
            let p = parent.0 as int;
            let s = sibling.0 as int;
            let nd = node.0 as int;
            let fin = self.tree@;
            assert(sibling_pos(nd) == s);
            assert(parent_pos(nd) == p);
            // The move is described the same way from the vector before the call.
            assert forall|d: nat, k: int| 0 <= k < level_width(d) implies #[trigger] node_at(
                fin,
                desc(p, d, k),
            ) == node_at(orig, desc(s, d, k)) by {
                let x = desc(s, d, k);
                layout::lemma_desc_bounds(s, d, k);
                if x == nd {
                    assert(in_subtree(s, x));
                    layout::lemma_subtree_self(nd);
                    layout::lemma_children_disjoint(p, x);
                }
                assert(node_at(emptied, x) == node_at(orig, x));
            }
            assert forall|q: int| 0 <= q < orig.len() && !in_subtree(p, q) implies fin[q]
                == #[trigger] orig[q] by {
                layout::lemma_subtree_self(p);
                if q == nd {
                    layout::lemma_subtree_self(nd);
                    layout::lemma_child_subtree(p, nd, nd);
                }
                assert(fin[q] == emptied[q]);
                assert(emptied[q] == orig[q]);
            }
            assert(subtree_moved(orig, fin, p, s));
            // The root is still there.
            if p == 0 {
                layout::lemma_desc_root(0);
                layout::lemma_desc_root(s);
                assert(node_at(fin, desc(0, 0, 0)) == node_at(orig, desc(s, 0, 0)));
            } else {
                if in_subtree(p, 0) {
                    let (d, k) = choose|d: nat, k: int| 0 <= k < level_width(d) && 0 == desc(p, d, k);
                    layout::lemma_desc_bounds(p, d, k);
                }
                assert(fin[0] == orig[0]);
            }
            layout::lemma_subtree_moved_wf(orig, fin, p, s);
            // The focus names a leaf of the new tree.
            if let Some(x) = new_focus {
                let xi = x.0 as int;
                assert(0 <= xi < orig.len() && orig[xi] is Leaf);
                assert(xi != nd);
                assert(xi != p);
                if in_subtree(s, xi) {
                    let (d, k) = choose|d: nat, k: int|
                        0 <= k < level_width(d) && xi == desc(s, d, k);
                    shift::lemma_lifted_desc_pub(p, s, d, k);
                    assert(node_at(fin, desc(p, d, k)) == node_at(orig, xi));
                    layout::lemma_desc_bounds(p, d, k);
                } else {
                    if in_subtree(p, xi) {
                        layout::lemma_subtree_cases(p, xi);
                        let (d, k) = choose|d: nat, k: int|
                            0 <= k < level_width(d) && xi == desc(nd, d, k);
                        if d == 0 {
                            layout::lemma_desc_root(nd);
                        } else {
                            layout::lemma_below_non_split_empty(orig, nd, d, k);
                        }
                    }
                    assert(fin[xi] == orig[xi]);
                }
            }
        }
        proof {
            contents::lemma_removed_leaf_bag(orig, orig_focus, node.0 as int, self.tree@, self.focused_node);
        }
    }

    /// Pushes a tab to the first leaf in position (breadth-first) order, and focuses
    /// that leaf. An empty tree gets a root leaf holding the tab.
    pub fn push_to_first_leaf(&mut self, tab: Tab)
        requires
            old(self).wf(),
        ensures
            final(self).wf(),
            pushed_to_first_leaf(old(self).nodes(), final(self).nodes(), final(self).focus(), tab),
            tab_bag(final(self).nodes()) == tab_bag(old(self).nodes()).insert(tab),
    {
        let ghost orig = self.tree@;
        let mut index: usize = 0;
        while index < self.tree.len()
            invariant
                self.tree@ == orig,
                orig == old(self).tree@,
                layout_wf(orig),
                focus_ok(orig, old(self).focused_node),
                self.focused_node == old(self).focused_node,
                orig.len() <= usize::MAX / 2,
                index <= orig.len(),
                first_non_split(orig, 0) == first_non_split(orig, index as int),
                forall|j: int| 0 <= j < index ==> (#[trigger] orig[j]).is_split_node(),
            decreases orig.len() - index,
        {
            if self.tree[index].is_empty() {
                proof {
                    layout::lemma_first_non_split_kind(orig, index as int);
                }
                self.tree[index] = Node::leaf(tab);
                self.focused_node = Some(NodeIndex(index));
                proof {
                    layout::lemma_root_leaf_wf(orig, self.tree@);
                    assert(first_non_split(orig, index as int) == index);
                    assert(self.tree@[0].is_fresh_leaf(seq![tab]));
                    contents::lemma_pushed_to_first_leaf_bag(orig, self.tree@, self.focused_node, tab);
                }
                return ;
            }
            if self.tree[index].is_leaf() {
                match &mut self.tree[index] {
                    Node::Leaf { tabs, active, .. } => {
                        *active = TabIndex(tabs.len());
                        tabs.push(tab);
                    },
                    _ => {},
                }
                self.focused_node = Some(NodeIndex(index));
                proof {
                    layout::lemma_leaf_changed_wf(orig, self.tree@, index as int);
                    assert(first_non_split(orig, index as int) == index);
                    assert(tab_appended(orig, self.tree@, index as int, tab));
                    contents::lemma_pushed_to_first_leaf_bag(orig, self.tree@, self.focused_node, tab);
                }
                return ;
            }
            index = index + 1;
        }
        proof {
            if orig.len() > 0 {
                layout::lemma_has_non_split(orig);
            }
        }
        let mut tabs = Vec::new();
        tabs.push(tab);
        self.tree.push(Node::leaf_with(tabs));
        self.focused_node = Some(NodeIndex(0));
        proof {
            let fin = self.tree@;
            assert forall|i: int|
                0 < i < fin.len() && !(#[trigger] fin[i] is Empty) implies fin[parent_pos(
                i,
            )].is_split_node() by {}
            layout::lemma_layout_wf_intro(fin);
            contents::lemma_pushed_to_first_leaf_bag(orig, self.tree@, self.focused_node, tab);
        }
    }

    /// Pushes `tab` to the currently focused leaf, making it the active tab there.
    ///
    /// If no leaf is focused it is pushed to the first available leaf (see
    /// [`push_to_first_leaf`](Self::push_to_first_leaf)); if the tree is empty, a root
    /// leaf holding the tab is created and focused.
    pub fn push_to_focused_leaf(&mut self, tab: Tab)
        requires
            old(self).wf(),
        ensures
            final(self).wf(),
            pushed_to_focused_leaf(
                old(self).nodes(),
                old(self).focus(),
                final(self).nodes(),
                final(self).focus(),
                tab,
            ),
            tab_bag(final(self).nodes()) == tab_bag(old(self).nodes()).insert(tab),
    {
        let ghost orig = self.tree@;
        let ghost orig_focus = self.focused_node;
        match self.focused_node {
            Some(node) => {
                if self.tree.len() == 0 {
                    self.tree.push(Node::leaf(tab));
                    self.focused_node = Some(NodeIndex::root());
                    proof {
                        let fin = self.tree@;
                        assert forall|i: int|
                            0 < i < fin.len() && !(#[trigger] fin[i] is Empty) implies fin[parent_pos(
                            i,
                        )].is_split_node() by {}
                        layout::lemma_layout_wf_intro(fin);
                    }
                } else {
                    if self.tree[node.0].is_leaf() {
                        match &mut self.tree[node.0] {
                            Node::Leaf { tabs, active, .. } => {
                                *active = TabIndex(tabs.len());
                                tabs.push(tab);
                            },
                            _ => {},
                        }
                        self.focused_node = Some(node);
                        proof {
                            layout::lemma_leaf_changed_wf(orig, self.tree@, node.0 as int);
                        }
                    } else if self.tree[node.0].is_empty() {
                        self.tree[node.0] = Node::leaf(tab);
                        self.focused_node = Some(node);
                    } else {
                        self.push_to_first_leaf(tab);
                    }
                }
            },
            None => {
                if self.tree.len() == 0 {
                    self.tree.push(Node::leaf(tab));
                    self.focused_node = Some(NodeIndex::root());
                    proof {
                        let fin = self.tree@;
                        assert forall|i: int|
                            0 < i < fin.len() && !(#[trigger] fin[i] is Empty) implies fin[parent_pos(
                            i,
                        )].is_split_node() by {}
                        layout::lemma_layout_wf_intro(fin);
                    }
                } else {
                    self.push_to_first_leaf(tab);
                }
            },
        }
        proof {
            contents::lemma_pushed_to_focused_leaf_bag(orig, orig_focus, self.tree@, self.focused_node, tab);
        }
    }

    /// Removes the tab at the given ([`NodeIndex`], [`TabIndex`]) pair and returns it.
    ///
    /// If the leaf is emptied by the removal, the leaf is removed from the tree too (see
    /// [`remove_leaf`](Self::remove_leaf)).
    ///
    /// Returns `None`, and changes nothing, when there is no such tab.
    pub fn remove_tab(&mut self, location: (NodeIndex, TabIndex)) -> (r: Option<Tab>)
        requires
            old(self).wf(),
        ensures
            final(self).wf(),
            !has_tab(old(self).nodes(), location.0.0 as int, location.1.0 as int) ==> r is None && *final(self)
                == *old(self),
            has_tab(old(self).nodes(), location.0.0 as int, location.1.0 as int) ==> {
                &&& r == Some(old(self).nodes()[location.0.0 as int].tab_seq()[location.1.0 as int])
                &&& removed_tab(
                    old(self).nodes(),
                    old(self).focus(),
                    location.0.0 as int,
                    location.1.0 as int,
                    final(self).nodes(),
                    final(self).focus(),
                )
                &&& tab_bag(final(self).nodes()) == tab_bag(old(self).nodes()).remove(
                    old(self).nodes()[location.0.0 as int].tab_seq()[location.1.0 as int],
                )
            },
    {
        if !(location.0.0 < self.tree.len() && self.tree[location.0.0].is_leaf() && location.1.0
            < self.tree[location.0.0].tabs_count()) {
            return None;
        }
        let (node_index, tab_index) = location;
        let ghost orig = self.tree@;
        let ghost orig_focus = self.focused_node;
        let node = &mut self.tree[node_index.0];
        let tab = node.remove_tab(tab_index);
        let count = node.tabs_count();
        proof {
            let mid = self.tree@;
            layout::lemma_leaf_changed_wf(orig, mid, node_index.0 as int);
        }
        if count == 0 {
            let ghost mid = self.tree@;
            self.remove_leaf(node_index);
            proof {
                let n = node_index.0 as int;
                if n > 0 {
                    let p = parent_pos(n);
                    let s = sibling_pos(n);
                    let fin = self.tree@;
                    assert forall|d: nat, k: int| 0 <= k < level_width(d) implies #[trigger] node_at(
                        fin,
                        desc(p, d, k),
                    ) == node_at(orig, desc(s, d, k)) by {
                        let x = desc(s, d, k);
                        assert(node_at(fin, desc(p, d, k)) == node_at(mid, x));
                        if x == n {
                            layout::lemma_subtree_self(s);
                            assert(in_subtree(s, x));
                            layout::lemma_subtree_self(n);
                            layout::lemma_children_disjoint(p, x);
                        }
                    }
                    assert forall|q: int| 0 <= q < orig.len() && !in_subtree(p, q) implies fin[q]
                        == #[trigger] orig[q] by {
                        assert(fin[q] == mid[q]);
                        if q == n {
                            layout::lemma_subtree_self(n);
                            layout::lemma_child_subtree(p, n, n);
                        }
                    }
                }
            }
        }
        proof {
            contents::lemma_removed_tab_bag(
                orig,
                orig_focus,
                node_index.0 as int,
                tab_index.0 as int,
                self.tree@,
                self.focused_node,
            );
        }
        tab
    }

    /// Moves a tab from a node to another node; [`TabInsert`] says how it is added there.
    ///
    /// Moving the only tab of a leaf into that same leaf does nothing. Otherwise the tab
    /// is taken out of its leaf (with [`Node::remove_tab`], so the leaf stays even if it
    /// becomes empty), added at the destination (a split gives the two halves equal
    /// fractions), and then the source leaf is removed if it is still a leaf and holds
    /// no tab.
    ///
    /// # Panics
    /// If the source or destination is not a leaf; unless the move does nothing, also
    /// if the tab index is out of range or the insertion index exceeds the number of
    /// tabs left at the destination.
    pub fn move_tab(&mut self, src: (NodeIndex, TabIndex), dst: (NodeIndex, TabInsert))
        requires
            old(self).wf(),
            src.0.0 < old(self).nodes().len(),
            old(self).nodes()[src.0.0 as int] is Leaf,
            dst.0.0 < old(self).nodes().len(),
            old(self).nodes()[dst.0.0 as int] is Leaf,
            !(src.0 == dst.0 && old(self).nodes()[src.0.0 as int].tab_seq().len() == 1) ==> {
                &&& src.1.0 < old(self).nodes()[src.0.0 as int].tab_seq().len()
                &&& dst.1 matches TabInsert::Insert(i) ==> i.0 <= old(self).nodes()[dst.0.0 as int].tab_seq().len()
                    - (if src.0 == dst.0 { 1int } else { 0int })
                &&& dst.1 is Split ==> old(self).nodes().len() <= usize::MAX / 8
            },
        ensures
            final(self).wf(),
            src.0 == dst.0 && old(self).nodes()[src.0.0 as int].tab_seq().len() == 1 ==> final(self).nodes()
                == old(self).nodes() && final(self).focus() == old(self).focus(),
            !(src.0 == dst.0 && old(self).nodes()[src.0.0 as int].tab_seq().len() == 1) ==> exists|
                mid1: Seq<Node<Tab>>,
                mid2: Seq<Node<Tab>>,
                focus2: Option<NodeIndex>,
            |
                #[trigger] move_steps(
                    old(self).nodes(),
                    old(self).focus(),
                    src,
                    dst,
                    mid1,
                    mid2,
                    focus2,
                    final(self).nodes(),
                    final(self).focus(),
                ),
            tab_bag(final(self).nodes()) == tab_bag(old(self).nodes()),
    {
        let (src_node, src_tab) = src;
        let (dst_node, dst_tab) = dst;
        if src_node.0 == dst_node.0 && self.tree[src_node.0].tabs_count() == 1 {
            return ;
        }
        let ghost orig = self.tree@;
        let ghost orig_focus = self.focused_node;
        let tab = self.tree[src_node.0].remove_tab(src_tab).unwrap();
        let ghost mid1 = self.tree@;
        proof {
            layout::lemma_leaf_changed_wf(orig, mid1, src_node.0 as int);
        }
        match dst_tab {
            TabInsert::Split(split) => {
                self.split(dst_node, split, HALF_BITS, Node::leaf(tab));
            },
            TabInsert::Insert(index) => {
                self.tree[dst_node.0].insert_tab(index, tab);
                proof {
                    layout::lemma_leaf_changed_wf(mid1, self.tree@, dst_node.0 as int);
                }
            },
            TabInsert::Append => {
                self.tree[dst_node.0].append_tab(tab);
                proof {
                    layout::lemma_leaf_changed_wf(mid1, self.tree@, dst_node.0 as int);
                }
            },
        }
        let ghost mid2 = self.tree@;
        let ghost focus2 = self.focused_node;
        proof {
            if dst_tab is Split {
                if src_node.0 != dst_node.0 {
                    let sp = dst_tab->Split_0;
                    let sn = src_node.0 as int;
                    if sn == 2 * dst_node.0 + 1 || sn == 2 * dst_node.0 + 2 {
                        layout::lemma_layout_wf_parent(mid1, sn);
                        assert(parent_pos(sn) == dst_node.0);
                    }
                    assert(src_node.0 != split_old_pos(dst_node.0 as int, sp));
                    assert(src_node.0 != split_new_pos(dst_node.0 as int, sp));
                    assert(node_at(mid2, src_node.0 as int) == node_at(mid1, src_node.0 as int));
                }
            }
        }
        if src_node.0 < self.tree.len() && self.tree[src_node.0].is_leaf() && self.tree[src_node.0].tabs_count() == 0 {
            self.remove_leaf(src_node);
        }
        proof {
            assert(move_steps(orig, orig_focus, src, dst, mid1, mid2, focus2, self.tree@, self.focused_node));
            assert(move_steps(
                old(self).nodes(),
                old(self).focus(),
                src,
                dst,
                mid1,
                mid2,
                focus2,
                self.nodes(),
                self.focus(),
            ));
            let sn = src_node.0 as int;
            let dn = dst_node.0 as int;
            let x = orig[sn].tab_seq()[src_tab.0 as int];
            contents::lemma_tab_removed_bag(orig, mid1, sn, src_tab.0 as int);
            match dst_tab {
                TabInsert::Split(sp) => {
                    contents::lemma_split_bag(mid1, mid2, dn, sp, HALF_BITS);
                    assert(node_at(mid2, split_new_pos(dn, sp)).tab_seq() =~= seq![x]);
                },
                TabInsert::Insert(i) => contents::lemma_tab_inserted_bag(mid1, mid2, dn, i.0 as int, x),
                TabInsert::Append => contents::lemma_tab_appended_bag(mid1, mid2, dn, x),
            }
            lemma_seq_one_bag(x);
            if node_at(mid2, sn) is Leaf && node_at(mid2, sn).tab_seq().len() == 0 {
                contents::lemma_removed_leaf_bag(mid2, focus2, sn, self.tree@, self.focused_node);
                contents::lemma_empty_tabs::<Tab>();
                assert(mid2[sn].tab_seq() =~= Seq::<Tab>::empty());
            }
            lemma_remove_insert_bag(tab_bag(orig), x);
        }
    }

    /// Splits `parent` and puts a fresh leaf holding `tabs` in the new node; see
    /// [`split`](Self::split).
    pub fn split_tabs(&mut self, parent: NodeIndex, split: Split, fraction: u32, tabs: Vec<Tab>) -> (r: [NodeIndex; 2])
        requires
            old(self).wf(),
            parent.0 < old(self).nodes().len(),
            old(self).nodes()[parent.0 as int] is Leaf,
            in_unit_range(fraction),
            tabs@.len() > 0,
            old(self).nodes().len() <= usize::MAX / 8,
        ensures
            final(self).wf(),
            r[0].0 == split_old_pos(parent.0 as int, split),
            r[1].0 == split_new_pos(parent.0 as int, split),
            split_shape(old(self).nodes(), final(self).nodes(), parent.0 as int, split, fraction),
            final(self).at(r[1].0 as int).is_fresh_leaf(tabs@),
            final(self).focus() == Some(r[1]),
            tab_bag(final(self).nodes()) == tab_bag(old(self).nodes()).add(tabs@.to_multiset()),
    {
        self.split(parent, split, fraction, Node::leaf_with(tabs))
    }

    /// Splits `parent` and puts a fresh leaf holding `tabs` *above* the old node; see
    /// [`split`](Self::split).
    pub fn split_above(&mut self, parent: NodeIndex, fraction: u32, tabs: Vec<Tab>) -> (r: [NodeIndex; 2])
        requires
            old(self).wf(),
            parent.0 < old(self).nodes().len(),
            old(self).nodes()[parent.0 as int] is Leaf,
            in_unit_range(fraction),
            tabs@.len() > 0,
            old(self).nodes().len() <= usize::MAX / 8,
        ensures
            final(self).wf(),
            r[0].0 == split_old_pos(parent.0 as int, Split::Above),
            r[1].0 == split_new_pos(parent.0 as int, Split::Above),
            split_shape(old(self).nodes(), final(self).nodes(), parent.0 as int, Split::Above, fraction),
            final(self).at(r[1].0 as int).is_fresh_leaf(tabs@),
            final(self).focus() == Some(r[1]),
            tab_bag(final(self).nodes()) == tab_bag(old(self).nodes()).add(tabs@.to_multiset()),
    {
        self.split(parent, Split::Above, fraction, Node::leaf_with(tabs))
    }

    /// Splits `parent` and puts a fresh leaf holding `tabs` *below* the old node; see
    /// [`split`](Self::split).
    pub fn split_below(&mut self, parent: NodeIndex, fraction: u32, tabs: Vec<Tab>) -> (r: [NodeIndex; 2])
        requires
            old(self).wf(),
            parent.0 < old(self).nodes().len(),
            old(self).nodes()[parent.0 as int] is Leaf,
            in_unit_range(fraction),
            tabs@.len() > 0,
            old(self).nodes().len() <= usize::MAX / 8,
        ensures
            final(self).wf(),
            r[0].0 == split_old_pos(parent.0 as int, Split::Below),
            r[1].0 == split_new_pos(parent.0 as int, Split::Below),
            split_shape(old(self).nodes(), final(self).nodes(), parent.0 as int, Split::Below, fraction),
            final(self).at(r[1].0 as int).is_fresh_leaf(tabs@),
            final(self).focus() == Some(r[1]),
            tab_bag(final(self).nodes()) == tab_bag(old(self).nodes()).add(tabs@.to_multiset()),
    {
        self.split(parent, Split::Below, fraction, Node::leaf_with(tabs))
    }

    /// Splits `parent` and puts a fresh leaf holding `tabs` to the *left* of the old
    /// node; see [`split`](Self::split).
    pub fn split_left(&mut self, parent: NodeIndex, fraction: u32, tabs: Vec<Tab>) -> (r: [NodeIndex; 2])
        requires
            old(self).wf(),
            parent.0 < old(self).nodes().len(),
            old(self).nodes()[parent.0 as int] is Leaf,
            in_unit_range(fraction),
            tabs@.len() > 0,
            old(self).nodes().len() <= usize::MAX / 8,
        ensures
            final(self).wf(),
            r[0].0 == split_old_pos(parent.0 as int, Split::Left),
            r[1].0 == split_new_pos(parent.0 as int, Split::Left),
            split_shape(old(self).nodes(), final(self).nodes(), parent.0 as int, Split::Left, fraction),
            final(self).at(r[1].0 as int).is_fresh_leaf(tabs@),
            final(self).focus() == Some(r[1]),
            tab_bag(final(self).nodes()) == tab_bag(old(self).nodes()).add(tabs@.to_multiset()),
    {
        self.split(parent, Split::Left, fraction, Node::leaf_with(tabs))
    }

    /// Splits `parent` and puts a fresh leaf holding `tabs` to the *right* of the old
    /// node; see [`split`](Self::split).
    pub fn split_right(&mut self, parent: NodeIndex, fraction: u32, tabs: Vec<Tab>) -> (r: [NodeIndex; 2])
        requires
            old(self).wf(),
            parent.0 < old(self).nodes().len(),
            old(self).nodes()[parent.0 as int] is Leaf,
            in_unit_range(fraction),
            tabs@.len() > 0,
            old(self).nodes().len() <= usize::MAX / 8,
        ensures
            final(self).wf(),
            r[0].0 == split_old_pos(parent.0 as int, Split::Right),
            r[1].0 == split_new_pos(parent.0 as int, Split::Right),
            split_shape(old(self).nodes(), final(self).nodes(), parent.0 as int, Split::Right, fraction),
            final(self).at(r[1].0 as int).is_fresh_leaf(tabs@),
            final(self).focus() == Some(r[1]),
            tab_bag(final(self).nodes()) == tab_bag(old(self).nodes()).add(tabs@.to_multiset()),
    {
        self.split(parent, Split::Right, fraction, Node::leaf_with(tabs))
    }

    /// Removes the first leaf (in position order) that holds no tab, as
    /// [`remove_leaf`](Self::remove_leaf) does; does nothing when there is none.
    pub fn remove_empty_leaf(&mut self)
        requires
            old(self).wf(),
        ensures
            final(self).wf(),
            first_empty_leaf(old(self).nodes(), 0) == old(self).nodes().len() ==> final(self).nodes()
                == old(self).nodes() && final(self).focus() == old(self).focus(),
            first_empty_leaf(old(self).nodes(), 0) < old(self).nodes().len() ==> removed_leaf(
                old(self).nodes(),
                old(self).focus(),
                first_empty_leaf(old(self).nodes(), 0),
                final(self).nodes(),
                final(self).focus(),
            ),
            tab_bag(final(self).nodes()) == tab_bag(old(self).nodes()),
    {
        let mut index: usize = 0;
        let mut found = false;
        while index < self.tree.len()
            invariant_except_break
                first_empty_leaf(self.tree@, 0) == first_empty_leaf(self.tree@, index as int),
                !found,
            invariant
                index <= self.tree@.len(),
                self.tree@ == old(self).tree@,
                self.focused_node == old(self).focused_node,
            ensures
                found ==> index < self.tree@.len() && first_empty_leaf(self.tree@, 0) == index
                    && self.tree@[index as int] is Leaf && self.tree@[index as int].tab_seq().len() == 0,
                !found ==> first_empty_leaf(self.tree@, 0) == self.tree@.len(),
            decreases self.tree@.len() - index,
        {
            let is_empty_leaf = match &self.tree[index] {
                Node::Leaf { tabs, .. } => tabs.len() == 0,
                _ => false,
            };
            if is_empty_leaf {
                found = true;
                break ;
            }
            index = index + 1;
        }
        if found {
            let ghost before = self.tree@;
            self.remove_leaf(NodeIndex(index));
            proof {
                broadcast use vstd::multiset::group_multiset_axioms;

                contents::lemma_empty_tabs::<Tab>();
                assert(before[index as int].tab_seq() =~= Seq::<Tab>::empty());
                assert(tab_bag(self.tree@) =~= tab_bag(before));
            }
        }
    }

    /// Returns the viewport and the active tab of the first leaf (in position order)
    /// whose active index names one of its tabs, or `None` if there is no such leaf.
    pub fn find_active(&mut self) -> (r: Option<(crate::geometry::Rect, &mut Tab)>)
        requires
            old(self).wf(),
        ensures
            ({
                let i = first_active_leaf(old(self).nodes(), 0);
                &&& i == old(self).nodes().len() ==> r is None && *final(self) == *old(self)
                &&& i < old(self).nodes().len() ==> (r matches Some((v, t)) && active_tab_lent(
                    old(self).nodes(),
                    final(self).nodes(),
                    i,
                    v,
                    *t,
                    *final(t),
                ) && final(self).focus() == old(self).focus())
            }),
            r matches Some((v, t)) ==> old(self).nodes()[first_active_leaf(old(self).nodes(), 0)] matches Node::Leaf {
                viewport,
                tabs,
                active,
                ..
            } && v == viewport && *t == tabs@[active.0 as int],
    {
        let mut index: usize = 0;
        let mut found = false;
        while index < self.tree.len()
            invariant_except_break
                first_active_leaf(self.tree@, 0) == first_active_leaf(self.tree@, index as int),
                !found,
            invariant
                index <= self.tree@.len(),
                self.tree@ == old(self).tree@,
                self.focused_node == old(self).focused_node,
            ensures
                found ==> index < self.tree@.len() && first_active_leaf(self.tree@, 0) == index
                    && self.tree@[index as int] is Leaf && self.tree@[index as int].active_index()
                    < self.tree@[index as int].tab_seq().len(),
                !found ==> first_active_leaf(self.tree@, 0) == self.tree@.len(),
            decreases self.tree@.len() - index,
        {
            let hit = match &self.tree[index] {
                Node::Leaf { tabs, active, .. } => active.0 < tabs.len(),
                _ => false,
            };
            if hit {
                found = true;
                break ;
            }
            index = index + 1;
        }
        if !found {
            return None;
        }
        match &mut self.tree[index] {
            Node::Leaf { tabs, active, viewport, .. } => Some((*viewport, &mut tabs[active.0])),
            _ => None,
        }
    }

    /// Returns the viewport and the active tab of the focused leaf, or `None` if no leaf
    /// is focused or its active index names no tab.
    pub fn find_active_focused(&mut self) -> (r: Option<(crate::geometry::Rect, &mut Tab)>)
        requires
            old(self).wf(),
        ensures
            ({
                let i = focused_active_leaf(old(self).nodes(), old(self).focus());
                &&& i == old(self).nodes().len() ==> r is None && *final(self) == *old(self)
                &&& i < old(self).nodes().len() ==> (r matches Some((v, t)) && active_tab_lent(
                    old(self).nodes(),
                    final(self).nodes(),
                    i,
                    v,
                    *t,
                    *final(t),
                ) && final(self).focus() == old(self).focus())
            }),
            r matches Some((v, t)) ==> old(self).focus() matches Some(f) && old(self).nodes()[f.0 as int] matches Node::Leaf {
                viewport,
                tabs,
                active,
                ..
            } && v == viewport && *t == tabs@[active.0 as int],
    {
        let index: usize = match self.focused_node {
            Some(idx) => idx.0,
            None => self.tree.len(),
        };
        let hit = index < self.tree.len() && match &self.tree[index] {
            Node::Leaf { tabs, active, .. } => active.0 < tabs.len(),
            _ => false,
        };
        if !hit {
            return None;
        }
        match &mut self.tree[index] {
            Node::Leaf { tabs, active, viewport, .. } => Some((*viewport, &mut tabs[active.0])),
            _ => None,
        }
    }

    /// Creates two new nodes by splitting a given `parent` leaf and assigns them as its
    /// children. The first (old) node inherits the content of `parent`, and the second
    /// gets `new`. `fraction` (the bit pattern of a number in `0..=1`) is how much of the
    /// area of `parent` the old node will occupy. The new node is placed relatively to
    /// the old one in the direction given by `split`, and it becomes the focused leaf.
    ///
    /// `new` is the leaf that holds the tabs of the new node: the contract asks for a
    /// leaf, since a split or empty node there would leave the parent's new children
    /// without a well-formed layout.
    ///
    /// Returns the indices of the old node and the new node.
    ///
    /// # Panics
    /// If `fraction` isn't in range 0..=1, if `new` is not a leaf or holds no tab, or
    /// if `parent` is not a leaf.
    pub fn split(&mut self, parent: NodeIndex, split: Split, fraction: u32, new: Node<Tab>) -> (r: [NodeIndex; 2])
        requires
            old(self).wf(),
            parent.0 < old(self).nodes().len(),
            old(self).nodes()[parent.0 as int] is Leaf,
            in_unit_range(fraction),
            new is Leaf,
            new.tab_seq().len() > 0,
            old(self).nodes().len() <= usize::MAX / 8,
        ensures
            final(self).wf(),
            r[0].0 == split_old_pos(parent.0 as int, split),
            r[1].0 == split_new_pos(parent.0 as int, split),
            split_shape(old(self).nodes(), final(self).nodes(), parent.0 as int, split, fraction),
            final(self).at(r[1].0 as int) == new,
            final(self).focus() == Some(r[1]),
            tab_bag(final(self).nodes()) == tab_bag(old(self).nodes()).add(new.tab_seq().to_multiset()),
    {
        let ghost old_nodes = self.tree@;
        let p = parent.0;
        let old = self.tree[p].split(split, fraction);
        let ghost mid = self.tree@;
        // Find the last non-empty position.
        let mut i: usize = self.tree.len();
        let mut last: usize = 0;
        while i > 0
            invariant_except_break
                i <= self.tree@.len(),
                last == 0,
                forall|j: int| i <= j < self.tree@.len() ==> self.tree@[j] is Empty,
                last_non_empty(mid, mid.len() as int) == last_non_empty(mid, i as int),
            invariant
                self.tree@.len() > 0,
                self.tree@ == mid,
            ensures
                last == last_non_empty(mid, mid.len() as int),
                last < self.tree@.len(),
                forall|j: int| last < j < self.tree@.len() ==> self.tree@[j] is Empty,
                !(self.tree@[last as int] is Empty) || last == 0,
            decreases i,
        {
            i = i - 1;
            if !self.tree[i].is_empty() {
                last = i;
                break;
            }
        }
        assert(last >= p) by {
            if last < p {
                assert(self.tree@[p as int].is_split_node());
            }
        }
        assert(self.tree@.len() == old_nodes.len());
        proof {
            lemma_last_non_empty_same(old_nodes, mid, mid.len() as int, p as int);
        }
        let level = NodeIndex(last).level();
        proof {
            layout::lemma_grow_len(last as nat, self.tree@.len() as nat);
            layout::lemma_level_width_pow2(level as nat + 1);
            vstd::bits::lemma_usize_shl_is_mul(1, (level + 1) as usize);
        }
        let new_len: usize = 1usize << (level + 1);
        assert(new_len == level_width(level as nat + 1));
        if new_len < self.tree.len() {
            self.tree.truncate(new_len);
        } else {
            while self.tree.len() < new_len
                invariant
                    self.tree@.len() <= new_len,
                    self.tree@.len() >= mid.len(),
                    forall|j: int| 0 <= j < mid.len() ==> self.tree@[j] == mid[j],
                    forall|j: int| mid.len() <= j < self.tree@.len() ==> self.tree@[j] is Empty,
                decreases new_len - self.tree@.len(),
            {
                self.tree.push(Node::Empty);
            }
        }
        let ghost resized = self.tree@;
        assert forall|j: int| #[trigger] node_at(resized, j) == node_at(mid, j) by {}
        let index = match split {
            Split::Left | Split::Above => [parent.right(), parent.left()],
            Split::Right | Split::Below => [parent.left(), parent.right()],
        };
        self.tree[index[0].0] = old;
        self.tree[index[1].0] = new;
        self.focused_node = Some(index[1]);
        proof {
            let fin = self.tree@;
            let c1 = 2 * p + 1;
            let c2 = 2 * p + 2;
            assert forall|q: int| q != p && q != c1 && q != c2 implies #[trigger] node_at(fin, q)
                == node_at(old_nodes, q) by {
                assert(node_at(resized, q) == node_at(mid, q));
            }
            lemma_split_wf(old_nodes, fin, p as int);
            contents::lemma_split_bag(old_nodes, fin, p as int, split, fraction);
            if p != 0 {
                assert(node_at(fin, 0) == node_at(old_nodes, 0));
            }
        }
        index
    }
}

/// Turning leaf `p` into a split node whose two children are leaves keeps the
/// layout well formed.
proof fn lemma_split_wf<Tab>(old_nodes: Seq<Node<Tab>>, fin: Seq<Node<Tab>>, p: int)
    requires
        layout_wf(old_nodes),
        0 <= p < old_nodes.len(),
        old_nodes[p] is Leaf,
        2 * p + 2 < fin.len(),
        node_at(fin, p).is_split_node(),
        node_at(fin, 2 * p + 1) is Leaf,
        node_at(fin, 2 * p + 2) is Leaf,
        forall|q: int|
            q != p && q != 2 * p + 1 && q != 2 * p + 2 ==> #[trigger] node_at(fin, q) == node_at(
                old_nodes,
                q,
            ),
    ensures
        layout_wf(fin),
{
    let c1 = 2 * p + 1;
    let c2 = 2 * p + 2;
    assert(level_width(1) == 2 * level_width(0));
    assert(level_width(2) == 2 * level_width(1));
    layout::lemma_desc_root(p);
    layout::lemma_desc_children(p, 0, 0);
    layout::lemma_desc_children(p, 1, 0);
    layout::lemma_desc_children(p, 1, 1);
    assert forall|k: int| 0 <= k < 4 implies node_at(old_nodes, #[trigger] desc(p, 2, k)) is Empty by {
        layout::lemma_below_non_split_empty(old_nodes, p, 2, k);
    }
    assert forall|i: int|
        0 <= i < fin.len() && (#[trigger] fin[i]).is_split_node() implies {
        &&& !(node_at(fin, 2 * i + 1) is Empty)
        &&& !(node_at(fin, 2 * i + 2) is Empty)
    } by {
        assert(node_at(fin, i) == fin[i]);
        if i != p {
            assert(node_at(fin, i) == node_at(old_nodes, i));
            layout::lemma_layout_wf_children(old_nodes, i);
            if 2 * i + 1 != p {
                assert(node_at(fin, 2 * i + 1) == node_at(old_nodes, 2 * i + 1));
            }
            if 2 * i + 2 != p {
                assert(node_at(fin, 2 * i + 2) == node_at(old_nodes, 2 * i + 2));
            }
        }
    }
    assert forall|i: int|
        0 < i < fin.len() && !(#[trigger] fin[i] is Empty) implies fin[parent_pos(i)].is_split_node() by {
        assert(node_at(fin, i) == fin[i]);
        let pi = parent_pos(i);
        assert(node_at(fin, pi) == fin[pi]);
        if i == c1 || i == c2 {
            assert(pi == p);
        } else if i == p {
            layout::lemma_layout_wf_parent(old_nodes, i);
            assert(node_at(fin, pi) == node_at(old_nodes, pi));
        } else {
            assert(node_at(fin, i) == node_at(old_nodes, i));
            assert(i < old_nodes.len());
            layout::lemma_layout_wf_parent(old_nodes, i);
            if pi == c1 || pi == c2 {
                assert(i == desc(p, 2, 0) || i == desc(p, 2, 1) || i == desc(p, 2, 2) || i == desc(p, 2, 3));
                assert(false);
            }
            assert(pi != p);
            assert(node_at(fin, pi) == node_at(old_nodes, pi));
        }
    }
    layout::lemma_layout_wf_intro(fin);
}

/// Making a non-empty position hold another non-empty node does not change the last
/// non-empty position.
proof fn lemma_last_non_empty_same<Tab>(a: Seq<Node<Tab>>, b: Seq<Node<Tab>>, n: int, p: int)
    requires
        a.len() == b.len(),
        0 <= n <= a.len(),
        0 <= p < a.len(),
        !(a[p] is Empty),
        !(b[p] is Empty),
        forall|q: int| 0 <= q < a.len() && q != p ==> #[trigger] b[q] == a[q],
    ensures
        last_non_empty(a, n) == last_non_empty(b, n),
    decreases n,
{
    if n > 0 {
        if n - 1 != p {
            assert(b[n - 1] == a[n - 1]);
        }
        lemma_last_non_empty_same(a, b, n - 1, p);
    }
}

proof fn lemma_tabs_upto_mono<Tab>(nodes: Seq<Node<Tab>>, a: int, b: int)
    requires
        0 <= a <= b <= nodes.len(),
    ensures
        tabs_upto(nodes, a).len() <= tabs_upto(nodes, b).len(),
    decreases b - a,
{
    if a < b {
        lemma_tabs_upto_mono(nodes, a, b - 1);
    }
}

/// Whether the tab at index `j` of the node at position `i` equals `needle`.
pub open spec fn tab_matches<Tab: PartialEq>(nodes: Seq<Node<Tab>>, needle: Tab, i: int, j: int) -> bool {
    &&& 0 <= i < nodes.len()
    &&& nodes[i] is Leaf
    &&& 0 <= j < nodes[i].tab_seq().len()
    &&& nodes[i].tab_seq()[j].eq_spec(&needle)
}

impl<Tab> Default for Tree<Tab> {
    /// An empty tree.
    fn default() -> (r: Self)
        ensures
            r.wf(),
            r.nodes().len() == 0,
            r.focus() is None,
    {
        Self::empty()
    }
}

impl<Tab: PartialEq> Tree<Tab> {
    /// Finds the given tab: returns the leaf it is in and its index there. When several
    /// tabs are equal to `needle`, the first in position order (then tab order) is
    /// returned.
    pub fn find_tab(&self, needle_tab: &Tab) -> (r: Option<(NodeIndex, TabIndex)>)
        ensures
            tab_search(self.nodes(), *needle_tab, r),
    {
        let mut node_index: usize = 0;
        while node_index < self.tree.len()
            invariant
                node_index <= self.tree@.len(),
                Tab::obeys_eq_spec() ==> forall|i: int, j: int|
                    i < node_index ==> !#[trigger] tab_matches(self.tree@, *needle_tab, i, j),
            decreases self.tree@.len() - node_index,
        {
            match &self.tree[node_index] {
                Node::Leaf { tabs, .. } => {
                    let mut tab_index: usize = 0;
                    while tab_index < tabs.len()
                        invariant
                            tab_index <= tabs@.len(),
                            node_index < self.tree@.len(),
                            self.tree@[node_index as int] is Leaf,
                            self.tree@[node_index as int].tab_seq() == tabs@,
                            Tab::obeys_eq_spec() ==> forall|i: int, j: int|
                                (i < node_index || (i == node_index && j < tab_index)) ==> !#[trigger] tab_matches(
                                    self.tree@,
                                    *needle_tab,
                                    i,
                                    j,
                                ),
                        decreases tabs@.len() - tab_index,
                    {
                        if tabs[tab_index] == *needle_tab {
                            return Some((NodeIndex(node_index), TabIndex(tab_index)));
                        }
                        tab_index = tab_index + 1;
                    }
                },
                _ => {},
            }
            node_index = node_index + 1;
        }
        None
    }
}

/// A sequence of one tab holds that tab once.
proof fn lemma_seq_one_bag<Tab>(x: Tab)
    ensures
        seq![x].to_multiset() == vstd::multiset::Multiset::<Tab>::empty().insert(x),
{
    broadcast use vstd::seq_lib::group_to_multiset_ensures;

    contents::lemma_empty_tabs::<Tab>();
    assert(seq![x] =~= Seq::<Tab>::empty().push(x));
}

/// Taking out a tab that is there and putting it back changes nothing.
proof fn lemma_remove_insert_bag<Tab>(m: vstd::multiset::Multiset<Tab>, x: Tab)
    requires
        m.count(x) > 0,
    ensures
        m.remove(x).insert(x) == m,
        m.remove(x).add(vstd::multiset::Multiset::<Tab>::empty().insert(x)) == m,
{
    broadcast use vstd::multiset::group_multiset_axioms;

    assert(m.remove(x).insert(x) =~= m);
    assert(m.remove(x).add(vstd::multiset::Multiset::<Tab>::empty().insert(x)) =~= m);
}

impl<Tab> Tree<Tab> {
    /// Returns a new tree with the same layout and focus, where every tab is replaced by
    /// what `function` gives for it.
    pub fn map_tabs<NewTab, F: Fn(&Tab) -> NewTab>(&self, function: F) -> (r: Tree<NewTab>)
        requires
            forall|t: &Tab| #[trigger] function.requires((t,)),
        ensures
            r.nodes().len() == self.nodes().len(),
            forall|q: int| 0 <= q < self.nodes().len() ==> self.nodes()[q].mapped_by(function, #[trigger] r.nodes()[q]),
            r.focus() == self.focus(),
            self.wf() ==> r.wf(),
    {
        self.map_tabs_with(&function)
    }

    /// [`map_tabs`](Self::map_tabs) with a borrowed function.
    pub(crate) fn map_tabs_with<NewTab, F: Fn(&Tab) -> NewTab>(&self, function: &F) -> (r: Tree<NewTab>)
        requires
            forall|t: &Tab| #[trigger] function.requires((t,)),
        ensures
            r.nodes().len() == self.nodes().len(),
            forall|q: int| 0 <= q < self.nodes().len() ==> self.nodes()[q].mapped_by(*function, #[trigger] r.nodes()[q]),
            r.focus() == self.focus(),
            self.wf() ==> r.wf(),
    {
        let mut nodes: Vec<Node<NewTab>> = Vec::new();
        let mut i: usize = 0;
        while i < self.tree.len()
            invariant
                forall|t: &Tab| #[trigger] function.requires((t,)),
                i <= self.tree@.len(),
                nodes@.len() == i,
                forall|q: int| 0 <= q < i ==> self.tree@[q].mapped_by(*function, #[trigger] nodes@[q]),
            decreases self.tree@.len() - i,
        {
            let node = self.tree[i].map_tabs(function);
            nodes.push(node);
            i = i + 1;
        }
        proof {
            assert forall|q: int| 0 <= q < nodes@.len() implies {
                &&& (#[trigger] self.tree@[q] is Empty <==> nodes@[q] is Empty)
                &&& (self.tree@[q] is Leaf <==> nodes@[q] is Leaf)
                &&& (self.tree@[q].is_split_node() <==> nodes@[q].is_split_node())
            } by {
                assert(self.tree@[q].mapped_by(*function, nodes@[q]));
            }
            if layout_wf(self.tree@) {
                layout::lemma_same_shape_wf(self.tree@, nodes@);
            }
        }
        Tree { tree: nodes, focused_node: self.focused_node }
    }

    /// Removes the leaves that hold no tab, one by one in position order as
    /// [`remove_empty_leaf`](Self::remove_empty_leaf) does, at most as many times as
    /// the vector has positions.
    fn clear_empty_leaves(&mut self)
        requires
            old(self).wf(),
        ensures
            final(self).wf(),
            empties_cleared(
                old(self).nodes(),
                old(self).focus(),
                final(self).nodes(),
                final(self).focus(),
                old(self).nodes().len() as nat,
            ),
            first_empty_leaf(final(self).nodes(), 0) == final(self).nodes().len(),
            tab_bag(final(self).nodes()) == tab_bag(old(self).nodes()),
    {
        let fuel = self.tree.len();
        let ghost start = self.tree@;
        let ghost start_focus = self.focused_node;
        let mut k: usize = 0;
        while k < fuel
            invariant
                self.wf(),
                k <= fuel,
                fuel == start.len(),
                tab_bag(self.nodes()) == tab_bag(start),
                forall|a: Seq<Node<Tab>>, fa: Option<NodeIndex>|
                    #[trigger] empties_cleared(self.nodes(), self.focus(), a, fa, (fuel - k) as nat)
                        ==> empties_cleared(start, start_focus, a, fa, fuel as nat),
            decreases fuel - k,
        {
            let ghost cur = self.tree@;
            let ghost cur_focus = self.focused_node;
            self.remove_empty_leaf();
            proof {
                let next = self.tree@;
                let next_focus = self.focused_node;
                let f = (fuel - k) as nat;
                assert forall|a: Seq<Node<Tab>>, fa: Option<NodeIndex>|
                    #[trigger] empties_cleared(next, next_focus, a, fa, (f - 1) as nat) implies empties_cleared(
                    cur,
                    cur_focus,
                    a,
                    fa,
                    f,
                ) by {
                    if first_empty_leaf(cur, 0) == cur.len() {
                        if (f - 1) as nat != 0 && first_empty_leaf(next, 0) != next.len() {
                            assert(false);
                        }
                    } else {
                        lemma_first_empty_leaf_bound(cur, 0);
                        assert(removed_leaf(cur, cur_focus, first_empty_leaf(cur, 0), next, next_focus));
                    }
                }
            }
            k = k + 1;
            proof {
                assert forall|a: Seq<Node<Tab>>, fa: Option<NodeIndex>|
                    #[trigger] empties_cleared(self.nodes(), self.focus(), a, fa, (fuel - k) as nat) implies empties_cleared(
                    start,
                    start_focus,
                    a,
                    fa,
                    fuel as nat,
                ) by {
                    let f = (fuel - (k - 1)) as nat;
                    assert((fuel - k) as nat == (f - 1) as nat);
                    assert(empties_cleared(self.tree@, self.focused_node, a, fa, (f - 1) as nat));
                    assert(empties_cleared(cur, cur_focus, a, fa, f));
                }
            }
        }
        proof {
            assert(empties_cleared(self.nodes(), self.focus(), self.nodes(), self.focus(), (fuel - k) as nat));
            filled::lemma_empties_cleared_leaves_none(start, start_focus, self.nodes(), self.focus(), fuel as nat);
        }
    }

    /// Removes all tabs for which `predicate` returns `false`; the leaves left without
    /// tabs are then removed one by one (see [`empties_cleared`]).
    pub fn retain_tabs<F: Fn(&Tab) -> bool>(&mut self, predicate: F)
        requires
            old(self).wf(),
            forall|t: &Tab| #[trigger] predicate.requires((t,)),
        ensures
            final(self).wf(),
            exists|mid: Seq<Node<Tab>>|
                #[trigger] retained_nodes(old(self).nodes(), predicate, mid) && empties_cleared(
                    mid,
                    old(self).focus(),
                    final(self).nodes(),
                    final(self).focus(),
                    old(self).nodes().len() as nat,
                ),
            first_empty_leaf(final(self).nodes(), 0) == final(self).nodes().len(),
            forall|i: int|
                0 <= i < final(self).nodes().len() && #[trigger] final(self).nodes()[i] is Leaf
                    ==> final(self).nodes()[i].tab_seq().len() > 0,
    {
        let ghost orig = self.tree@;
        let mut i: usize = 0;
        while i < self.tree.len()
            invariant
                forall|t: &Tab| #[trigger] predicate.requires((t,)),
                i <= self.tree@.len(),
                self.tree@.len() == orig.len(),
                self.focused_node == old(self).focused_node,
                forall|q: int| 0 <= q < i ==> orig[q].retained_by(predicate, #[trigger] self.tree@[q]),
                forall|q: int| i <= q < orig.len() ==> #[trigger] self.tree@[q] == orig[q],
            decreases orig.len() - i,
        {
            let ghost before = self.tree@;
            self.tree[i].retain_tabs(&predicate);
            proof {
                assert forall|q: int| 0 <= q < orig.len() && q != i implies #[trigger] self.tree@[q] == before[q] by {}
            }
            i = i + 1;
        }
        let ghost mid = self.tree@;
        proof {
            assert forall|q: int| 0 <= q < mid.len() implies {
                &&& (#[trigger] orig[q] is Empty <==> mid[q] is Empty)
                &&& (orig[q] is Leaf <==> mid[q] is Leaf)
                &&& (orig[q].is_split_node() <==> mid[q].is_split_node())
            } by {
                assert(orig[q].retained_by(predicate, mid[q]));
            }
            layout::lemma_same_shape_wf(orig, mid);
            if let Some(f) = self.focused_node {
                if mid.len() > 0 {
                    assert(orig[f.0 as int].retained_by(predicate, mid[f.0 as int]));
                }
            }
            if mid.len() > 0 {
                assert(orig[0].retained_by(predicate, mid[0]));
            }
            assert(retained_nodes(orig, predicate, mid));
        }
        self.clear_empty_leaves();
        proof {
            filled::lemma_no_empty_leaf(self.tree@);
        }
    }

    /// Returns a new tree whose tabs are those of this one mapped by `function`,
    /// leaving out those for which it gives `None`; the leaves left without tabs are
    /// then removed one by one (see [`empties_cleared`]).
    pub fn filter_map_tabs<NewTab, F: Fn(&Tab) -> Option<NewTab>>(&self, function: F) -> (r: Tree<NewTab>)
        requires
            self.wf(),
            forall|t: &Tab| #[trigger] function.requires((t,)),
        ensures
            r.wf(),
            exists|mid: Seq<Node<NewTab>>|
                #[trigger] filter_mapped_nodes(self.nodes(), function, mid) && empties_cleared(
                    mid,
                    self.focus(),
                    r.nodes(),
                    r.focus(),
                    self.nodes().len() as nat,
                ),
            first_empty_leaf(r.nodes(), 0) == r.nodes().len(),
            forall|i: int| 0 <= i < r.nodes().len() && #[trigger] r.nodes()[i] is Leaf ==> r.nodes()[i].tab_seq().len() > 0,
    {
        let mut nodes: Vec<Node<NewTab>> = Vec::new();
        let mut i: usize = 0;
        while i < self.tree.len()
            invariant
                forall|t: &Tab| #[trigger] function.requires((t,)),
                i <= self.tree@.len(),
                nodes@.len() == i,
                forall|q: int| 0 <= q < i ==> self.tree@[q].filter_mapped_by(function, #[trigger] nodes@[q]),
            decreases self.tree@.len() - i,
        {
            let node = self.tree[i].filter_map_tabs(&function);
            nodes.push(node);
            i = i + 1;
        }
        let ghost mid = nodes@;
        proof {
            assert forall|q: int| 0 <= q < mid.len() implies {
                &&& (#[trigger] self.tree@[q] is Empty <==> mid[q] is Empty)
                &&& (self.tree@[q] is Leaf <==> mid[q] is Leaf)
                &&& (self.tree@[q].is_split_node() <==> mid[q].is_split_node())
            } by {
                assert(self.tree@[q].filter_mapped_by(function, mid[q]));
            }
            layout::lemma_same_shape_wf(self.tree@, mid);
            if let Some(f) = self.focused_node {
                if mid.len() > 0 {
                    assert(self.tree@[f.0 as int].filter_mapped_by(function, mid[f.0 as int]));
                }
            }
            if mid.len() > 0 {
                assert(self.tree@[0].filter_mapped_by(function, mid[0]));
            }
            assert(filter_mapped_nodes(self.tree@, function, mid));
        }
        let mut r = Tree { tree: nodes, focused_node: self.focused_node };
        r.clear_empty_leaves();
        proof {
            filled::lemma_no_empty_leaf(r.tree@);
        }
        r
    }
}

impl<Tab: Clone> Tree<Tab> {
    /// Returns a new tree holding clones of the tabs of this one for which
    /// `predicate` holds; the leaves left without tabs are then removed one by one
    /// (see [`empties_cleared`]).
    pub fn filter_tabs<F: Fn(&Tab) -> bool>(&self, predicate: F) -> (r: Tree<Tab>)
        requires
            self.wf(),
            forall|t: &Tab| #[trigger] predicate.requires((t,)),
        ensures
            r.wf(),
            exists|mid: Seq<Node<Tab>>|
                #[trigger] filtered_nodes(self.nodes(), predicate, mid) && empties_cleared(
                    mid,
                    self.focus(),
                    r.nodes(),
                    r.focus(),
                    self.nodes().len() as nat,
                ),
            first_empty_leaf(r.nodes(), 0) == r.nodes().len(),
            forall|i: int| 0 <= i < r.nodes().len() && #[trigger] r.nodes()[i] is Leaf ==> r.nodes()[i].tab_seq().len() > 0,
    {
        let mut nodes: Vec<Node<Tab>> = Vec::new();
        let mut i: usize = 0;
        while i < self.tree.len()
            invariant
                forall|t: &Tab| #[trigger] predicate.requires((t,)),
                i <= self.tree@.len(),
                nodes@.len() == i,
                forall|q: int| 0 <= q < i ==> self.tree@[q].filtered_by(predicate, #[trigger] nodes@[q]),
            decreases self.tree@.len() - i,
        {
            let node = self.tree[i].filter_tabs(&predicate);
            nodes.push(node);
            i = i + 1;
        }
        let ghost mid = nodes@;
        proof {
            assert forall|q: int| 0 <= q < mid.len() implies {
                &&& (#[trigger] self.tree@[q] is Empty <==> mid[q] is Empty)
                &&& (self.tree@[q] is Leaf <==> mid[q] is Leaf)
                &&& (self.tree@[q].is_split_node() <==> mid[q].is_split_node())
            } by {
                assert(self.tree@[q].filtered_by(predicate, mid[q]));
            }
            layout::lemma_same_shape_wf(self.tree@, mid);
            if let Some(f) = self.focused_node {
                if mid.len() > 0 {
                    assert(self.tree@[f.0 as int].filtered_by(predicate, mid[f.0 as int]));
                }
            }
            if mid.len() > 0 {
                assert(self.tree@[0].filtered_by(predicate, mid[0]));
            }
            assert(filtered_nodes(self.tree@, predicate, mid));
        }
        let mut r = Tree { tree: nodes, focused_node: self.focused_node };
        r.clear_empty_leaves();
        proof {
            filled::lemma_no_empty_leaf(r.tree@);
        }
        r
    }
}

/// The first empty leaf from `i` on lies between `i` and the end of the vector.
pub(crate) proof fn lemma_first_empty_leaf_bound<Tab>(nodes: Seq<Node<Tab>>, i: int)
    requires
        0 <= i <= nodes.len(),
    ensures
        i <= first_empty_leaf(nodes, i) <= nodes.len(),
    decreases nodes.len() - i,
{
    if i < nodes.len() {
        lemma_first_empty_leaf_bound(nodes, i + 1);
    }
}

/// `after` (with focus `fa`) comes from `before` (with focus `fb`) by removing the
/// first leaf (in position order) that holds no tab, as
/// [`Tree::remove_empty_leaf`] does, again and again until no such leaf is left or
/// `fuel` removals have been made.
pub open spec fn empties_cleared<Tab>(
    before: Seq<Node<Tab>>,
    fb: Option<NodeIndex>,
    after: Seq<Node<Tab>>,
    fa: Option<NodeIndex>,
    fuel: nat,
) -> bool
    decreases fuel,
{
    if fuel == 0 || first_empty_leaf(before, 0) == before.len() {
        after == before && fa == fb
    } else {
        exists|mid: Seq<Node<Tab>>, fm: Option<NodeIndex>|
            #[trigger] removed_leaf(before, fb, first_empty_leaf(before, 0), mid, fm) && empties_cleared(
                mid,
                fm,
                after,
                fa,
                (fuel - 1) as nat,
            )
    }
}

/// `mid` holds, position by position, the nodes of `before` keeping only the tabs for
/// which `predicate` holds (see [`Node::retained_by`]).
pub open spec fn retained_nodes<Tab, F: Fn(&Tab) -> bool>(before: Seq<Node<Tab>>, predicate: F, mid: Seq<Node<Tab>>) -> bool {
    &&& mid.len() == before.len()
    &&& forall|q: int| 0 <= q < before.len() ==> before[q].retained_by(predicate, #[trigger] mid[q])
}

/// `mid` holds, position by position, the nodes of `before` with their tabs mapped
/// and filtered by `function` (see [`Node::filter_mapped_by`]).
pub open spec fn filter_mapped_nodes<Tab, NewTab, F: Fn(&Tab) -> Option<NewTab>>(
    before: Seq<Node<Tab>>,
    function: F,
    mid: Seq<Node<NewTab>>,
) -> bool {
    &&& mid.len() == before.len()
    &&& forall|q: int| 0 <= q < before.len() ==> before[q].filter_mapped_by(function, #[trigger] mid[q])
}

/// `mid` holds, position by position, the nodes of `before` keeping clones of the
/// tabs for which `predicate` holds (see [`Node::filtered_by`]).
pub open spec fn filtered_nodes<Tab: Clone, F: Fn(&Tab) -> bool>(before: Seq<Node<Tab>>, predicate: F, mid: Seq<Node<Tab>>) -> bool {
    &&& mid.len() == before.len()
    &&& forall|q: int| 0 <= q < before.len() ==> before[q].filtered_by(predicate, #[trigger] mid[q])
}

/// A tab in position order lies in a leaf, at some index of its tabs.
pub proof fn lemma_tabs_upto_member<Tab>(nodes: Seq<Node<Tab>>, n: int, k: int)
    requires
        0 <= n <= nodes.len(),
        0 <= k < tabs_upto(nodes, n).len(),
    ensures
        exists|i: int, j: int|
            0 <= i < n && nodes[i] is Leaf && 0 <= j < nodes[i].tab_seq().len() && #[trigger] nodes[i].tab_seq()[j]
                == tabs_upto(nodes, n)[k],
    decreases n,
{
    let prev = tabs_upto(nodes, n - 1);
    if k < prev.len() {
        lemma_tabs_upto_member(nodes, n - 1, k);
        assert(tabs_upto(nodes, n)[k] == prev[k]);
    } else {
        let j = k - prev.len();
        assert(tabs_upto(nodes, n)[k] == nodes[n - 1].tab_seq()[j]);
        assert(nodes[n - 1] is Leaf);
    }
}

/// Where `==` on tabs is equality, searching a tree for a tab that it holds finds it:
/// what a push puts in, a search gets back.
pub proof fn lemma_held_tab_found<Tab: PartialEq>(nodes: Seq<Node<Tab>>, needle: Tab, r: Option<(NodeIndex, TabIndex)>)
    requires
        vstd::laws_eq::obeys_concrete_eq::<Tab>(),
        tab_bag(nodes).count(needle) > 0,
        tab_search(nodes, needle, r),
    ensures
        r is Some,
{
    broadcast use vstd::seq_lib::group_to_multiset_ensures;

    reveal(vstd::laws_eq::obeys_concrete_eq);
    let all = all_tabs(nodes);
    assert(all.contains(needle));
    let k = choose|k: int| 0 <= k < all.len() && all[k] == needle;
    lemma_tabs_upto_member(nodes, nodes.len() as int, k);
    let (i, j) = choose|i: int, j: int|
        0 <= i < nodes.len() && nodes[i] is Leaf && 0 <= j < nodes[i].tab_seq().len() && #[trigger] nodes[i].tab_seq()[j]
            == all[k];
    assert(tab_matches(nodes, needle, i, j));
}

} // verus!
