//! The tabs that a dock state holds over all its surfaces, as a multiset.

use vstd::multiset::Multiset;
use vstd::prelude::*;

use super::{placed, surface_removed, DockState, Surface, SurfaceIndex, TabDestination};
use crate::geometry::HALF_BITS;
use crate::tree::contents::{
    lemma_empty_tabs, lemma_removed_leaf_bag, lemma_single_leaf_bag, lemma_split_bag,
    lemma_tab_appended_bag, lemma_tab_inserted_bag, lemma_tab_removed_bag,
};
use crate::tree::layout::node_at;
use crate::tree::{all_tabs, split_new_pos, tab_bag, NodeIndex, TabIndex, TabInsert};

verus! {

/// The tabs of a surface: none for an empty one, else those of its tree.
pub open spec fn surface_tabs<Tab>(surface: Surface<Tab>) -> Multiset<Tab> {
    if surface is Empty {
        Multiset::empty()
    } else {
        tab_bag(surface.tree().nodes())
    }
}

/// The tabs of the first `n` surfaces.
pub open spec fn surfaces_tabs<Tab>(surfaces: Seq<Surface<Tab>>, n: int) -> Multiset<Tab>
    decreases n,
{
    if n <= 0 {
        Multiset::empty()
    } else {
        surfaces_tabs(surfaces, n - 1).add(surface_tabs(surfaces[n - 1]))
    }
}

/// The tabs of all surfaces.
pub open spec fn all_surface_tabs<Tab>(surfaces: Seq<Surface<Tab>>) -> Multiset<Tab> {
    surfaces_tabs(surfaces, surfaces.len() as int)
}

impl<Tab> DockState<Tab> {
    /// The tabs of all surfaces of the dock state, as a multiset.
    pub open spec fn dock_tabs(&self) -> Multiset<Tab> {
        all_surface_tabs(self.surface_seq())
    }
}

/// `surfaces_tabs` reads only the surfaces below `n`.
pub proof fn lemma_surfaces_tabs_prefix<Tab>(a: Seq<Surface<Tab>>, b: Seq<Surface<Tab>>, n: int)
    requires
        n <= a.len(),
        n <= b.len(),
        forall|q: int| 0 <= q < n ==> #[trigger] a[q] == b[q],
    ensures
        surfaces_tabs(a, n) == surfaces_tabs(b, n),
    decreases n,
{
    if n > 0 {
        lemma_surfaces_tabs_prefix(a, b, n - 1);
    }
}

/// Replacing one surface changes the tabs of all surfaces by the difference.
pub proof fn lemma_surfaces_update<Tab>(a: Seq<Surface<Tab>>, i: int, x: Surface<Tab>, n: int)
    requires
        0 <= i < a.len(),
        0 <= n <= a.len(),
    ensures
        i < n ==> surfaces_tabs(a.update(i, x), n).add(surface_tabs(a[i])) == surfaces_tabs(a, n).add(
            surface_tabs(x),
        ),
        i >= n ==> surfaces_tabs(a.update(i, x), n) == surfaces_tabs(a, n),
    decreases n,
{
    broadcast use vstd::multiset::group_multiset_axioms;

    if n > 0 {
        lemma_surfaces_update(a, i, x, n - 1);
        let b = a.update(i, x);
        if i < n - 1 {
            assert(b[n - 1] == a[n - 1]);
            let lhs = surfaces_tabs(b, n).add(surface_tabs(a[i]));
            let rhs = surfaces_tabs(a, n).add(surface_tabs(x));
            assert forall|v: Tab| lhs.count(v) == rhs.count(v) by {
                assert(surfaces_tabs(b, n - 1).add(surface_tabs(a[i])).count(v) == surfaces_tabs(a, n - 1).add(
                    surface_tabs(x),
                ).count(v));
            }
            assert(lhs =~= rhs);
        } else if i == n - 1 {
            assert(b[n - 1] == x);
            assert(surfaces_tabs(b, n) == surfaces_tabs(b, n - 1).add(surface_tabs(x)));
            assert(surfaces_tabs(a, n) == surfaces_tabs(a, n - 1).add(surface_tabs(a[i])));
            assert(surfaces_tabs(b, n).add(surface_tabs(a[i])) =~= surfaces_tabs(a, n).add(surface_tabs(x)));
        } else {
            assert(b[n - 1] == a[n - 1]);
        }
    }
}

/// Replacing one surface changes the tabs of all surfaces by the difference.
pub proof fn lemma_all_surfaces_update<Tab>(a: Seq<Surface<Tab>>, i: int, x: Surface<Tab>)
    requires
        0 <= i < a.len(),
    ensures
        all_surface_tabs(a.update(i, x)).add(surface_tabs(a[i])) == all_surface_tabs(a).add(surface_tabs(x)),
{
    lemma_surfaces_update(a, i, x, a.len() as int);
}

/// Adding a surface at the end adds its tabs.
pub proof fn lemma_all_surfaces_push<Tab>(a: Seq<Surface<Tab>>, x: Surface<Tab>)
    ensures
        all_surface_tabs(a.push(x)) == all_surface_tabs(a).add(surface_tabs(x)),
{
    lemma_surfaces_tabs_prefix(a.push(x), a, a.len() as int);
}

/// Dropping the last surface takes its tabs away.
pub proof fn lemma_all_surfaces_drop_last<Tab>(a: Seq<Surface<Tab>>)
    requires
        a.len() > 0,
    ensures
        all_surface_tabs(a.drop_last()).add(surface_tabs(a[a.len() - 1])) == all_surface_tabs(a),
{
    lemma_surfaces_tabs_prefix(a.drop_last(), a, a.len() - 1);
}

/// Removing a surface takes its tabs away.
pub proof fn lemma_surface_removed_tabs<Tab>(a: Seq<Surface<Tab>>, s: int)
    requires
        0 <= s < a.len(),
    ensures
        all_surface_tabs(surface_removed(a, s)).add(surface_tabs(a[s])) == all_surface_tabs(a),
{
    broadcast use vstd::multiset::group_multiset_axioms;

    if s == a.len() - 1 {
        lemma_all_surfaces_drop_last(a);
    } else {
        lemma_all_surfaces_update(a, s, Surface::Empty);
        assert(all_surface_tabs(a).add(surface_tabs(Surface::<Tab>::Empty)) =~= all_surface_tabs(a));
    }
}

/// Putting a surface in an empty slot, or after the last one, adds its tabs.
pub proof fn lemma_placed_tabs<Tab>(a: Seq<Surface<Tab>>, i: int, x: Surface<Tab>)
    requires
        0 <= i <= a.len(),
        i < a.len() ==> a[i] is Empty,
    ensures
        all_surface_tabs(placed(a, i, x)) == all_surface_tabs(a).add(surface_tabs(x)),
{
    broadcast use vstd::multiset::group_multiset_axioms;

    if i < a.len() {
        lemma_all_surfaces_update(a, i, x);
        assert(all_surface_tabs(placed(a, i, x)) =~= all_surface_tabs(a).add(surface_tabs(x)));
    } else {
        lemma_all_surfaces_push(a, x);
    }
}

/// When only the tree of surface `s` changed, the tabs of the dock state changed as
/// those of that tree did.
pub proof fn lemma_tree_changed_tabs<Tab>(a: &DockState<Tab>, b: &DockState<Tab>, s: SurfaceIndex)
    requires
        a.valid(s),
        a.only_tree_changed(b, s),
    ensures
        b.dock_tabs().add(tab_bag(a.tree_at(s).nodes())) == a.dock_tabs().add(tab_bag(b.tree_at(s).nodes())),
{
    let i = s.0 as int;
    lemma_all_surfaces_update(a.surface_seq(), i, a.surface_seq()[i].with_tree(b.tree_at(s)));
}

/// A vector without nodes holds no tab.
pub proof fn lemma_no_nodes_tabs<Tab>(nodes: Seq<crate::tree::Node<Tab>>)
    requires
        nodes.len() == 0,
    ensures
        tab_bag(nodes) == Multiset::<Tab>::empty(),
{
    lemma_empty_tabs::<Tab>();
    assert(all_tabs(nodes) =~= Seq::<Tab>::empty());
}

/// Taking a tab out of its leaf takes it out of the dock state.
pub proof fn lemma_tab_taken_tabs<Tab>(a: &DockState<Tab>, src: (SurfaceIndex, NodeIndex, TabIndex), b: &DockState<Tab>)
    requires
        a.wf(),
        a.valid(src.0),
        src.1.0 < a.tree_at(src.0).nodes().len(),
        a.tree_at(src.0).nodes()[src.1.0 as int] is Leaf,
        src.2.0 < a.tree_at(src.0).nodes()[src.1.0 as int].tab_seq().len(),
        a.tab_taken(src, b),
    ensures
        b.dock_tabs() == a.dock_tabs().remove(a.tree_at(src.0).nodes()[src.1.0 as int].tab_seq()[src.2.0 as int]),
        a.dock_tabs().count(a.tree_at(src.0).nodes()[src.1.0 as int].tab_seq()[src.2.0 as int]) > 0,
{
    broadcast use vstd::multiset::group_multiset_axioms;

    let ta = a.tree_at(src.0).nodes();
    let tb = b.tree_at(src.0).nodes();
    let x = ta[src.1.0 as int].tab_seq()[src.2.0 as int];
    assert(a.surface_seq()[src.0.0 as int].tree().wf());
    lemma_tab_removed_bag(ta, tb, src.1.0 as int, src.2.0 as int);
    lemma_tree_changed_tabs(a, b, src.0);
    assert forall|v: Tab| b.dock_tabs().count(v) + tab_bag(ta).count(v) == a.dock_tabs().count(v) + tab_bag(
        tb,
    ).count(v) by {
        assert(b.dock_tabs().add(tab_bag(ta)).count(v) == a.dock_tabs().add(tab_bag(tb)).count(v));
    }
    assert(b.dock_tabs() =~= a.dock_tabs().remove(x));
}

/// Putting a tab at a destination puts it into the dock state.
pub proof fn lemma_tab_placed_tabs<Tab>(a: &DockState<Tab>, dst: TabDestination, tab: Tab, b: &DockState<Tab>)
    requires
        a.wf(),
        b.wf(),
        match dst {
            TabDestination::Node(s, n, _) => a.valid(s) && n.0 < a.tree_at(s).nodes().len()
                && a.tree_at(s).nodes()[n.0 as int] is Leaf,
            TabDestination::EmptySurface(s) => a.valid(s) && a.tree_at(s).nodes().len() == 0,
            TabDestination::Window(_) => false,
        },
        a.tab_placed(dst, tab, b),
    ensures
        b.dock_tabs() == a.dock_tabs().insert(tab),
{
    broadcast use vstd::multiset::group_multiset_axioms;

    let s = match dst {
        TabDestination::Node(s, _, _) => s,
        TabDestination::EmptySurface(s) => s,
        TabDestination::Window(_) => SurfaceIndex(0),
    };
    let ta = a.tree_at(s).nodes();
    let tb = b.tree_at(s).nodes();
    assert(a.surface_seq()[s.0 as int].tree().wf());
    assert(b.surface_seq()[s.0 as int] == a.surface_seq()[s.0 as int].with_tree(b.tree_at(s)));
    assert(b.surface_seq()[s.0 as int].tree().wf());
    lemma_one_tab(tab);
    match dst {
        TabDestination::Node(_, n, insert) => match insert {
            TabInsert::Split(split) => {
                lemma_split_bag(ta, tb, n.0 as int, split, HALF_BITS);
                assert(node_at(tb, split_new_pos(n.0 as int, split)).tab_seq() =~= seq![tab]);
            },
            TabInsert::Insert(i) => lemma_tab_inserted_bag(ta, tb, n.0 as int, i.0 as int, tab),
            TabInsert::Append => lemma_tab_appended_bag(ta, tb, n.0 as int, tab),
        },
        TabDestination::EmptySurface(_) => {
            lemma_single_leaf_bag(tb, tab);
            lemma_no_nodes_tabs(ta);
        },
        TabDestination::Window(_) => {},
    }
    assert(tab_bag(tb) =~= tab_bag(ta).insert(tab));
    lemma_tree_changed_tabs(a, b, s);
    assert forall|v: Tab| b.dock_tabs().count(v) + tab_bag(ta).count(v) == a.dock_tabs().count(v) + tab_bag(
        tb,
    ).count(v) by {
        assert(b.dock_tabs().add(tab_bag(ta)).count(v) == a.dock_tabs().add(tab_bag(tb)).count(v));
    }
    assert(b.dock_tabs() =~= a.dock_tabs().insert(tab));
}

/// A sequence of one tab holds that tab once.
pub proof fn lemma_one_tab<Tab>(tab: Tab)
    ensures
        seq![tab].to_multiset() == Multiset::<Tab>::empty().insert(tab),
{
    broadcast use vstd::seq_lib::group_to_multiset_ensures;

    lemma_empty_tabs::<Tab>();
    assert(seq![tab] =~= Seq::<Tab>::empty().push(tab));
}

/// Removing a leaf without tabs keeps the tabs of the dock state.
pub proof fn lemma_leaf_cleaned_tabs<Tab>(a: &DockState<Tab>, s: SurfaceIndex, n: NodeIndex, b: &DockState<Tab>)
    requires
        a.wf(),
        b.wf(),
        a.valid(s),
        a.leaf_cleaned(s, n, b),
    ensures
        b.dock_tabs() == a.dock_tabs(),
{
    broadcast use vstd::multiset::group_multiset_axioms;

    let t = a.tree_at(s);
    if t.at(n.0 as int) is Leaf && t.at(n.0 as int).tab_seq().len() == 0 {
        let ta = t.nodes();
        let tb = b.tree_at(s).nodes();
        assert(a.surface_seq()[s.0 as int].tree().wf());
        assert(b.surface_seq()[s.0 as int] == a.surface_seq()[s.0 as int].with_tree(b.tree_at(s)));
        assert(b.surface_seq()[s.0 as int].tree().wf());
        lemma_removed_leaf_bag(ta, t.focus(), n.0 as int, tb, b.tree_at(s).focus());
        lemma_empty_tabs::<Tab>();
        assert(ta[n.0 as int].tab_seq() =~= Seq::<Tab>::empty());
        assert(tab_bag(tb) =~= tab_bag(ta));
        lemma_tree_changed_tabs(a, b, s);
        assert forall|v: Tab| b.dock_tabs().count(v) == a.dock_tabs().count(v) by {
            assert(b.dock_tabs().add(tab_bag(ta)).count(v) == a.dock_tabs().add(tab_bag(tb)).count(v));
        }
        assert(b.dock_tabs() =~= a.dock_tabs());
    }
}

/// Removing a window without nodes keeps the tabs of the dock state.
pub proof fn lemma_surface_cleaned_tabs<Tab>(a: &DockState<Tab>, s: SurfaceIndex, b: &DockState<Tab>)
    requires
        a.wf(),
        a.valid(s),
        a.surface_cleaned(s, b),
    ensures
        b.dock_tabs() == a.dock_tabs(),
{
    broadcast use vstd::multiset::group_multiset_axioms;

    if s.0 != 0 && a.tree_at(s).nodes().len() == 0 {
        lemma_surface_removed_tabs(a.surface_seq(), s.0 as int);
        lemma_no_nodes_tabs(a.tree_at(s).nodes());
        assert(surface_tabs(a.surface_seq()[s.0 as int]) == Multiset::<Tab>::empty());
        assert(b.dock_tabs() == all_surface_tabs(surface_removed(a.surface_seq(), s.0 as int)));
        assert(b.dock_tabs().add(Multiset::<Tab>::empty()) == a.dock_tabs());
        assert(b.dock_tabs() =~= a.dock_tabs());
    }
}

/// When only the tree of surface `s` changed, and it gained the tabs `m`, the dock
/// state gained them.
pub proof fn lemma_tree_gained_tabs<Tab>(a: &DockState<Tab>, b: &DockState<Tab>, s: SurfaceIndex, m: Multiset<Tab>)
    requires
        a.valid(s),
        a.only_tree_changed(b, s),
        tab_bag(b.tree_at(s).nodes()) == tab_bag(a.tree_at(s).nodes()).add(m),
    ensures
        b.dock_tabs() == a.dock_tabs().add(m),
{
    broadcast use vstd::multiset::group_multiset_axioms;

    lemma_tree_changed_tabs(a, b, s);
    let ta = tab_bag(a.tree_at(s).nodes());
    let tb = tab_bag(b.tree_at(s).nodes());
    assert forall|v: Tab| b.dock_tabs().count(v) == a.dock_tabs().add(m).count(v) by {
        assert(b.dock_tabs().add(ta).count(v) == a.dock_tabs().add(tb).count(v));
    }
    assert(b.dock_tabs() =~= a.dock_tabs().add(m));
}

/// When only the tree of surface `s` changed, and it lost the tab `x` that it held,
/// the dock state lost it.
pub proof fn lemma_tree_lost_tab<Tab>(a: &DockState<Tab>, b: &DockState<Tab>, s: SurfaceIndex, x: Tab)
    requires
        a.valid(s),
        a.only_tree_changed(b, s),
        tab_bag(a.tree_at(s).nodes()).count(x) > 0,
        tab_bag(b.tree_at(s).nodes()) == tab_bag(a.tree_at(s).nodes()).remove(x),
    ensures
        b.dock_tabs() == a.dock_tabs().remove(x),
        a.dock_tabs().count(x) > 0,
{
    broadcast use vstd::multiset::group_multiset_axioms;

    lemma_tree_changed_tabs(a, b, s);
    let ta = tab_bag(a.tree_at(s).nodes());
    let tb = tab_bag(b.tree_at(s).nodes());
    assert forall|v: Tab| b.dock_tabs().count(v) + ta.count(v) == a.dock_tabs().count(v) + tb.count(v) by {
        assert(b.dock_tabs().add(ta).count(v) == a.dock_tabs().add(tb).count(v));
    }
    assert(a.dock_tabs().count(x) > 0) by {
        assert(b.dock_tabs().count(x) + ta.count(x) == a.dock_tabs().count(x) + tb.count(x));
        assert(tb.count(x) == ta.count(x) - 1);
    }
    assert forall|v: Tab| b.dock_tabs().count(v) == a.dock_tabs().remove(x).count(v) by {
        assert(b.dock_tabs().count(v) + ta.count(v) == a.dock_tabs().count(v) + tb.count(v));
        if v == x {
            assert(tb.count(x) == ta.count(x) - 1);
        } else {
            assert(tb.count(v) == ta.count(v));
        }
    }
    assert(b.dock_tabs() =~= a.dock_tabs().remove(x));
}

/// A tree of one leaf holds the tabs of that leaf.
pub proof fn lemma_one_leaf_tabs<Tab>(nodes: Seq<crate::tree::Node<Tab>>)
    requires
        nodes.len() == 1,
    ensures
        tab_bag(nodes) == nodes[0].tab_seq().to_multiset(),
{
    reveal_with_fuel(crate::tree::tabs_upto, 2);
    assert(all_tabs(nodes) =~= nodes[0].tab_seq());
}

/// Replacing a surface by one with the same tabs keeps the tabs of all surfaces.
pub proof fn lemma_same_tabs_update<Tab>(a: Seq<Surface<Tab>>, i: int, x: Surface<Tab>)
    requires
        0 <= i < a.len(),
        surface_tabs(x) == surface_tabs(a[i]),
    ensures
        all_surface_tabs(a.update(i, x)) == all_surface_tabs(a),
{
    broadcast use vstd::multiset::group_multiset_axioms;

    lemma_all_surfaces_update(a, i, x);
    assert forall|v: Tab| all_surface_tabs(a.update(i, x)).count(v) == all_surface_tabs(a).count(v) by {
        assert(all_surface_tabs(a.update(i, x)).add(surface_tabs(a[i])).count(v) == all_surface_tabs(a).add(
            surface_tabs(x),
        ).count(v));
    }
    assert(all_surface_tabs(a.update(i, x)) =~= all_surface_tabs(a));
}

/// Taking out a tab that is there and putting it back changes nothing.
pub proof fn lemma_remove_then_insert<Tab>(m: Multiset<Tab>, x: Tab)
    requires
        m.count(x) > 0,
    ensures
        m.remove(x).insert(x) == m,
        m.remove(x).add(seq![x].to_multiset()) == m,
{
    broadcast use vstd::multiset::group_multiset_axioms;

    lemma_one_tab(x);
    assert(m.remove(x).insert(x) =~= m);
    assert(m.remove(x).add(seq![x].to_multiset()) =~= m);
}

} // verus!
