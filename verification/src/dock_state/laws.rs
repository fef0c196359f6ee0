use vstd::prelude::*;

use super::{
    lemma_first_empty_surface, lemma_removal_keeps_other_surfaces, surface_removed, DockState, Surface, SurfaceIndex,
    TabDestination, TabRemoval, WindowSize,
};
use crate::geometry::Rect;
use crate::tree::layout::{layout_wf, node_at, parent_pos};
use crate::tree::{removed_tab, Node, NodeIndex, Split, TabIndex, TabInsert, Tree};

verus! {

/// A tab dropped on a node to split it halves that node: the node becomes a split
/// node whose fraction is the bit pattern of `0.5`, side by side for a split to the
/// left or right and one above the other for a split above or below, whenever the
/// leaf the tab leaves still holds a tab.
pub proof fn lemma_drop_split_halves<Tab>(
    before: DockState<Tab>,
    src: (SurfaceIndex, NodeIndex, TabIndex),
    s: SurfaceIndex,
    n: NodeIndex,
    split: Split,
    m1: DockState<Tab>,
    m2: DockState<Tab>,
    m3: DockState<Tab>,
    after: DockState<Tab>,
)
    requires
        before.wf(),
        before.move_checked(src, TabDestination::Node(s, n, TabInsert::Split(split))),
        before.tree_at(src.0).nodes()[src.1.0 as int].tab_seq().len() > 1,
        before.move_steps(src, TabDestination::Node(s, n, TabInsert::Split(split)), m1, m2, m3, &after),
    ensures
        (split is Left || split is Right) ==> (after.tree_at(s).at(n.0 as int) matches Node::Horizontal {
            fraction,
            ..
        } && fraction == 0x3F00_0000u32),
        (split is Above || split is Below) ==> (after.tree_at(s).at(n.0 as int) matches Node::Vertical {
            fraction,
            ..
        } && fraction == 0x3F00_0000u32),
{
    let dst = TabDestination::Node(s, n, TabInsert::Split(split));
    let tab = before.tree_at(src.0).nodes()[src.1.0 as int].tab_seq()[src.2.0 as int];
    assert(before.tab_taken(src, &m1));
    assert(m1.tab_placed(dst, tab, &m2));
    let b0 = before.tree_at(src.0).nodes();
    let a1 = m1.tree_at(src.0).nodes();
    let p = src.1.0 as int;
    // The source leaf keeps a tab after the move.
    assert(a1[p].tab_seq().len() == b0[p].tab_seq().len() - 1);
    let t2 = m2.tree_at(src.0);
    if src.0 == s {
        let np = n.0 as int;
        if p != np {
            // The source leaf is not a child of the (leaf) node that was split.
            assert(before.surface_seq()[s.0 as int].tree().wf());
            assert(layout_wf(b0));
            if p == 2 * np + 1 || p == 2 * np + 2 {
                assert(parent_pos(p) == np);
                crate::tree::layout::lemma_layout_wf_parent(b0, p);
            }
            assert(node_at(t2.nodes(), p) == node_at(a1, p));
        }
    }
    assert(!(t2.at(p) is Leaf && t2.at(p).tab_seq().len() == 0));
    assert(m3 == m2);
    assert(!(src.0.0 != 0 && m3.tree_at(src.0).nodes().len() == 0));
}

} // verus!

verus! {

/// A tab detached into a new window over `rect` gets a window at index `w` (the one
/// `detach_tab` returns) that holds just that tab and opens at the corner of `rect`,
/// whatever surface the tab came from, with the size of `rect`, four fifths of it
/// when the tab left the main surface.
pub proof fn lemma_detached_window_opens_at_corner<Tab>(
    before: DockState<Tab>,
    src: (SurfaceIndex, NodeIndex, TabIndex),
    rect: Rect,
    w: SurfaceIndex,
    m1: DockState<Tab>,
    m2: DockState<Tab>,
    m3: DockState<Tab>,
    after: DockState<Tab>,
)
    requires
        before.wf(),
        before.holds_tab(src),
        before.detach_steps(src, rect, w, m1, m2, m3, &after),
    ensures
        w.0 < after.surface_seq().len(),
        after.surface_seq()[w.0 as int] matches Surface::Window(tree, _) && tree.nodes().len() == 1
            && tree.nodes()[0] is Leaf && tree.nodes()[0].tab_seq() == seq![
            before.tree_at(src.0).nodes()[src.1.0 as int].tab_seq()[src.2.0 as int],
        ],
        after.surface_seq()[w.0 as int] matches Surface::Window(_, state) && state@.next_position == Some(rect.min)
            && state@.next_size == Some(
            if src.0.0 == 0 {
                WindowSize::ShrunkOfRect(rect)
            } else {
                WindowSize::OfRect(rect)
            },
        ),
{
    let s = src.0.0 as int;
    let wi = w.0 as int;
    assert(before.tab_taken(src, &m1));
    // The new window is not the surface the tab left.
    lemma_first_empty_surface(m1.surface_seq(), 1);
    assert(!(m1.surface_seq()[s] is Empty));
    assert(wi != s);
    let x = m2.surface_seq()[wi];
    assert(wi < m2.surface_seq().len());
    // Cleaning up the source leaf and surface leaves the new window alone.
    assert(m3.surface_seq()[wi] == x && wi < m3.surface_seq().len());
    if s != 0 && m3.tree_at(src.0).nodes().len() == 0 {
        lemma_removal_keeps_other_surfaces(m3.surface_seq(), s, wi);
    }
    assert(after.surface_seq()[wi] == x);
}

} // verus!

verus! {

/// Ejecting a tab from a leaf that holds other tabs takes exactly that tab out of
/// the leaf, which stays where it was with the others in order.
pub proof fn lemma_eject_takes_the_named_tab<Tab>(
    before: DockState<Tab>,
    src: (SurfaceIndex, NodeIndex, TabIndex),
    rect: Rect,
    after: DockState<Tab>,
)
    requires
        before.holds_tab(src),
        before.tree_at(src.0).nodes()[src.1.0 as int].tab_seq().len() > 1,
        before.detach_applied(src, rect, &after),
    ensures
        after.valid(src.0),
        after.tree_at(src.0).nodes().len() == before.tree_at(src.0).nodes().len(),
        after.tree_at(src.0).nodes()[src.1.0 as int] is Leaf,
        after.tree_at(src.0).nodes()[src.1.0 as int].tab_seq() == before.tree_at(src.0).nodes()[
            src.1.0 as int
        ].tab_seq().remove(src.2.0 as int),
{
    let w = SurfaceIndex(super::first_empty_surface(before.surface_seq(), 1) as usize);
    let (m1, m2, m3) = choose|m1: DockState<Tab>, m2: DockState<Tab>, m3: DockState<Tab>|
        #[trigger] before.detach_steps(src, rect, w, m1, m2, m3, &after);
    let s = src.0.0 as int;
    let wi = w.0 as int;
    assert(before.tab_taken(src, &m1));
    lemma_first_empty_surface(m1.surface_seq(), 1);
    assert(!(m1.surface_seq()[s] is Empty));
    assert(wi != s);
    assert(m2.surface_seq()[s] == m1.surface_seq()[s]);
    assert(m3 == m2);
    assert(after == m3);
}

/// Ejecting two tabs of one leaf in one frame takes out exactly the two tabs named,
/// as they stood when the frame was drawn: the leaf keeps its other tabs, in order.
pub proof fn lemma_two_ejects_take_the_named_tabs<Tab>(
    before: DockState<Tab>,
    s: SurfaceIndex,
    n: NodeIndex,
    t0: TabIndex,
    t1: TabIndex,
    r0: Rect,
    r1: Rect,
    after: DockState<Tab>,
)
    requires
        t0.0 < t1.0,
        before.holds_tab((s, n, t1)),
        before.tree_at(s).nodes()[n.0 as int].tab_seq().len() > 2,
        before.detaches_applied(seq![((s, n, t0), r0), ((s, n, t1), r1)], &after),
    ensures
        after.valid(s),
        after.tree_at(s).nodes()[n.0 as int].tab_seq() == before.tree_at(s).nodes()[n.0 as int].tab_seq().remove(
            t1.0 as int,
        ).remove(t0.0 as int),
{
    let ds = seq![((s, n, t0), r0), ((s, n, t1), r1)];
    assert(ds.last() == ((s, n, t1), r1));
    assert(ds.drop_last() =~= seq![((s, n, t0), r0)]);
    let mid = choose|mid: DockState<Tab>|
        #[trigger] before.detach_applied(ds.last().0, ds.last().1, &mid) && mid.detaches_applied(ds.drop_last(), &after);
    lemma_eject_takes_the_named_tab(before, (s, n, t1), r1, mid);
    let ds2 = seq![((s, n, t0), r0)];
    assert(ds2.last() == ((s, n, t0), r0));
    assert(ds2.drop_last() =~= Seq::<((SurfaceIndex, NodeIndex, TabIndex), Rect)>::empty());
    let mid2 = choose|mid2: DockState<Tab>|
        #[trigger] mid.detach_applied(ds2.last().0, ds2.last().1, &mid2) && mid2.detaches_applied(ds2.drop_last(), &after);
    assert(mid.holds_tab((s, n, t0)));
    lemma_eject_takes_the_named_tab(mid, (s, n, t0), r0, mid2);
    assert(mid2.same_as(&after));
}

} // verus!

verus! {

/// Closing a tab of a leaf that holds other tabs takes exactly that tab out of the
/// leaf, which stays where it was with the others in order.
pub proof fn lemma_close_takes_the_named_tab<Tab>(
    before: DockState<Tab>,
    loc: (SurfaceIndex, NodeIndex, TabIndex),
    after: DockState<Tab>,
)
    requires
        before.holds_tab(loc),
        before.tree_at(loc.0).nodes()[loc.1.0 as int].tab_seq().len() > 1,
        before.removal_applied(TabRemoval::Node(loc.0, loc.1, loc.2), &after),
    ensures
        after.valid(loc.0),
        after.tree_at(loc.0).nodes().len() == before.tree_at(loc.0).nodes().len(),
        after.tree_at(loc.0).nodes()[loc.1.0 as int] is Leaf,
        after.tree_at(loc.0).nodes()[loc.1.0 as int].tab_seq() == before.tree_at(loc.0).nodes()[
            loc.1.0 as int
        ].tab_seq().remove(loc.2.0 as int),
{
    let nodes = before.tree_at(loc.0).nodes();
    let tree = choose|tree: Tree<Tab>|
        #[trigger] removed_tab(
            nodes,
            before.tree_at(loc.0).focus(),
            loc.1.0 as int,
            loc.2.0 as int,
            tree.nodes(),
            tree.focus(),
        ) && {
            let s = loc.0.0 as int;
            let mid = before.surface_seq().update(s, before.surface_seq()[s].with_tree(tree));
            if s != 0 && tree.nodes().len() == 0 {
                after.surface_seq() == surface_removed(mid, s) && after.focus() == Some(SurfaceIndex(0))
            } else {
                after.surface_seq() == mid && after.focus() == before.focus()
            }
        };
    assert(nodes[loc.1.0 as int].tab_seq().remove(loc.2.0 as int).len() > 0);
    assert(tree.nodes().len() == nodes.len());
    assert(after.tree_at(loc.0) == tree);
}

/// Closing two tabs of one leaf in one frame removes exactly the two tabs named, as
/// they stood when the frame was drawn: the leaf keeps its other tabs, in order.
pub proof fn lemma_two_closes_remove_the_named_tabs<Tab>(
    before: DockState<Tab>,
    s: SurfaceIndex,
    n: NodeIndex,
    t0: TabIndex,
    t1: TabIndex,
    after: DockState<Tab>,
)
    requires
        t0.0 < t1.0,
        before.holds_tab((s, n, t1)),
        before.tree_at(s).nodes()[n.0 as int].tab_seq().len() > 2,
        before.removals_applied(seq![TabRemoval::Node(s, n, t0), TabRemoval::Node(s, n, t1)], &after),
    ensures
        after.valid(s),
        after.tree_at(s).nodes()[n.0 as int].tab_seq() == before.tree_at(s).nodes()[n.0 as int].tab_seq().remove(
            t1.0 as int,
        ).remove(t0.0 as int),
{
    let rs = seq![TabRemoval::Node(s, n, t0), TabRemoval::Node(s, n, t1)];
    assert(rs.last() == TabRemoval::Node(s, n, t1));
    assert(rs.drop_last() =~= seq![TabRemoval::Node(s, n, t0)]);
    let mid = choose|mid: DockState<Tab>|
        #[trigger] before.removal_applied(rs.last(), &mid) && mid.removals_applied(rs.drop_last(), &after);
    lemma_close_takes_the_named_tab(before, (s, n, t1), mid);
    let rs2 = seq![TabRemoval::Node(s, n, t0)];
    assert(rs2.last() == TabRemoval::Node(s, n, t0));
    assert(rs2.drop_last() =~= Seq::<TabRemoval>::empty());
    let mid2 = choose|mid2: DockState<Tab>|
        #[trigger] mid.removal_applied(rs2.last(), &mid2) && mid2.removals_applied(rs2.drop_last(), &after);
    assert(mid.holds_tab((s, n, t0)));
    lemma_close_takes_the_named_tab(mid, (s, n, t0), mid2);
    assert(mid2.same_as(&after));
}

} // verus!
