//! The collection of surfaces that a dock area shows.

/// Wrapper around indices to the collection of surfaces inside a [`DockState`].
pub mod surface_index;
/// Represents an area in which a dock tree is rendered.
pub mod surface;
/// Specifies text displayed in different elements of the dock area.
pub mod translations;
/// Window states which tell floating tabs how to be displayed inside their window.
pub mod window_state;
/// Where a moved tab goes.
pub mod tab_destination;
/// The tabs of a dock state as a multiset.
pub mod contents;
/// What a dock area does to the dock state once a frame is drawn.
pub mod frame;
/// Laws of moving, detaching and ejecting tabs.
pub mod laws;

pub use surface::Surface;
pub use surface_index::SurfaceIndex;
pub use frame::TabRemoval;
pub use tab_destination::TabDestination;
pub use translations::{LeafTranslations, TabContextMenuTranslations, Translations};
pub use window_state::{WindowSize, WindowState, WindowStateView};

use contents::{
    lemma_leaf_cleaned_tabs, lemma_no_nodes_tabs, lemma_one_leaf_tabs, lemma_placed_tabs,
    lemma_surface_cleaned_tabs, lemma_surface_removed_tabs, lemma_tab_placed_tabs, lemma_tab_taken_tabs,
    lemma_remove_then_insert, lemma_same_tabs_update, lemma_tree_gained_tabs, lemma_tree_lost_tab,
    surface_tabs,
};

use vstd::multiset::Multiset;
use vstd::prelude::*;
use vstd::std_specs::cmp::PartialEqSpec;

use crate::geometry::{in_unit_range, Rect, HALF_BITS};
use crate::tree::layout::node_at;
use crate::tree::{
    pushed_to_first_leaf, pushed_to_focused_leaf, removed_leaf, removed_tab, split_new_pos,
    has_tab, split_old_pos, split_shape, tab_appended, tab_inserted, tab_matches, tab_removed, tab_search, indexed_tabs,
    with_active, active_tab_lent, focused_active_leaf, tab_bag, Node, NodeIndex, Split, TabIndex, TabInsert, Tree,
};

verus! {

/// `before` with the surface at `s` removed: the last surface is dropped, any other
/// one leaves an empty slot behind, so that later indices stay valid.
pub open spec fn surface_removed<Tab>(before: Seq<Surface<Tab>>, s: int) -> Seq<Surface<Tab>> {
    if s == before.len() - 1 {
        before.drop_last()
    } else {
        before.update(s, Surface::Empty)
    }
}

/// In index order, the first empty surface from `i` on (the number of surfaces when
/// there is none).
pub open spec fn first_empty_surface<Tab>(surfaces: Seq<Surface<Tab>>, i: int) -> int
    decreases surfaces.len() - i,
{
    if i < 0 || i >= surfaces.len() {
        surfaces.len() as int
    } else if surfaces[i] is Empty {
        i
    } else {
        first_empty_surface(surfaces, i + 1)
    }
}

/// `surfaces` with `surface` put at index `i`: in place of the surface there, or
/// appended when `i` is one past the last index.
pub open spec fn placed<Tab>(surfaces: Seq<Surface<Tab>>, i: int, surface: Surface<Tab>) -> Seq<Surface<Tab>> {
    if i < surfaces.len() {
        surfaces.update(i, surface)
    } else {
        surfaces.push(surface)
    }
}

/// The state of a window opened for a tab torn off surface `src` over `rect`: placed
/// at the corner of `rect`, sized after `rect` (shrunk when the tab leaves the main
/// surface).
pub open spec fn torn_off_state(src: SurfaceIndex, rect: Rect) -> WindowStateView {
    WindowStateView {
        next_position: Some(rect.min),
        next_size: Some(
            if src.0 == 0 {
                WindowSize::ShrunkOfRect(rect)
            } else {
                WindowSize::OfRect(rect)
            },
        ),
        ..WindowState::spec_fresh()
    }
}

/// The indices of the non-empty surfaces among the first `n`, in increasing order.
pub open spec fn valid_indices<Tab>(surfaces: Seq<Surface<Tab>>, n: int) -> Seq<SurfaceIndex>
    decreases n,
{
    if n <= 0 {
        Seq::empty()
    } else if surfaces[n - 1] is Empty {
        valid_indices(surfaces, n - 1)
    } else {
        valid_indices(surfaces, n - 1).push(SurfaceIndex((n - 1) as usize))
    }
}

/// The tabs of the first `k` surfaces, each with the indices of its surface and its
/// node, in surface order and then in position order.
pub open spec fn surface_indexed_tabs<Tab>(surfaces: Seq<Surface<Tab>>, k: int) -> Seq<((SurfaceIndex, NodeIndex), Tab)>
    decreases k,
{
    if k <= 0 {
        Seq::empty()
    } else {
        surface_indexed_tabs(surfaces, k - 1) + indexed_tabs(surfaces[k - 1].node_seq()).map_values(
            |e: (NodeIndex, Tab)| ((SurfaceIndex((k - 1) as usize), e.0), e.1),
        )
    }
}

/// The nodes of the first `k` surfaces, each with the index of its surface, in
/// surface order and then in position order.
pub open spec fn surface_indexed_nodes<Tab>(surfaces: Seq<Surface<Tab>>, k: int) -> Seq<(SurfaceIndex, Node<Tab>)>
    decreases k,
{
    if k <= 0 {
        Seq::empty()
    } else {
        surface_indexed_nodes(surfaces, k - 1) + surfaces[k - 1].node_seq().map_values(
            |n: Node<Tab>| (SurfaceIndex((k - 1) as usize), n),
        )
    }
}

/// The surface that [`DockState::push_to_focused_leaf`] pushes to: the focused one,
/// else the main one.
pub open spec fn push_target(focus: Option<SurfaceIndex>) -> SurfaceIndex {
    match focus {
        Some(s) => s,
        None => SurfaceIndex(0),
    }
}

/// The heart of the dock layout.
///
/// This structure holds a collection of surfaces, each of which stores a tree in which
/// tabs are arranged. The surface at index 0 is the main surface; the others are
/// windows, or empty slots left behind by removed windows.
#[derive(Debug)]
pub struct DockState<Tab> {
    surfaces: Vec<Surface<Tab>>,
    focused_surface: Option<SurfaceIndex>,
    /// Contains translations of text shown in the dock area.
    pub translations: Translations,
}

impl<Tab> DockState<Tab> {
    /// The surfaces, by index.
    pub closed spec fn surface_seq(&self) -> Seq<Surface<Tab>> {
        self.surfaces@
    }

    /// The translations held by the dock state.
    pub closed spec fn labels(&self) -> Translations {
        self.translations
    }

    /// The focused surface, if any.
    pub closed spec fn focus(&self) -> Option<SurfaceIndex> {
        self.focused_surface
    }

    /// `surface` exists and is not empty.
    pub open spec fn valid(&self, surface: SurfaceIndex) -> bool {
        surface.0 < self.surface_seq().len() && !(self.surface_seq()[surface.0 as int] is Empty)
    }

    /// The tree of the surface at `surface`.
    pub open spec fn tree_at(&self, surface: SurfaceIndex) -> Tree<Tab> {
        self.surface_seq()[surface.0 as int].tree()
    }

    /// The main surface comes first and only there, every tree is well formed, and
    /// the focus, if any, names a non-empty surface.
    pub open spec fn wf(&self) -> bool {
        &&& self.surface_seq().len() >= 1
        &&& self.surface_seq()[0] is Main
        &&& forall|i: int|
            0 < i < self.surface_seq().len() ==> !(#[trigger] self.surface_seq()[i] is Main)
        &&& forall|i: int|
            0 <= i < self.surface_seq().len() && !(#[trigger] self.surface_seq()[i] is Empty)
                ==> self.surface_seq()[i].tree().wf()
        &&& self.focus() matches Some(s) ==> self.valid(s)
    }

    /// Create a new dock state with the given tabs at the main surface's root node.
    pub fn new(tabs: Vec<Tab>) -> (r: Self)
        ensures
            r.wf(),
            r.surface_seq().len() == 1,
            r.tree_at(SurfaceIndex(0)).nodes().len() == 1,
            r.tree_at(SurfaceIndex(0)).nodes()[0].is_fresh_leaf(tabs@),
            r.tree_at(SurfaceIndex(0)).focus() is None,
            r.focus() is None,
            r.labels().is_english(),
    {
        let mut surfaces = Vec::new();
        surfaces.push(Surface::Main(Tree::new(tabs)));
        DockState { surfaces, focused_surface: None, translations: Translations::english() }
    }

    /// Sets translations of text later displayed in the dock area.
    pub fn with_translations(self, translations: Translations) -> (r: Self)
        ensures
            r.surface_seq() == self.surface_seq(),
            r.focus() == self.focus(),
            r.labels() == translations,
    {
        let mut s = self;
        s.translations = translations;
        s
    }

    /// Borrows the tree of a surface.
    ///
    /// # Panics
    /// When the surface does not exist or is empty.
    pub fn tree(&self, surface: SurfaceIndex) -> (r: &Tree<Tab>)
        requires
            self.valid(surface),
        ensures
            *r == self.tree_at(surface),
    {
        match self.surfaces[surface.0].node_tree() {
            Some(tree) => tree,
            None => vstd::pervasive::unreached(),
        }
    }

    /// Mutably borrows the tree of a surface.
    ///
    /// # Panics
    /// When the surface does not exist or is empty.
    pub fn tree_mut(&mut self, surface: SurfaceIndex) -> (r: &mut Tree<Tab>)
        requires
            old(self).valid(surface),
        ensures
            *r == old(self).tree_at(surface),
            final(self).surface_seq() == old(self).surface_seq().update(
                surface.0 as int,
                old(self).surface_seq()[surface.0 as int].with_tree(*final(r)),
            ),
            final(self).focus() == old(self).focus(),
            final(self).labels() == old(self).labels(),
    {
        match self.surfaces[surface.0].node_tree_mut() {
            Some(tree) => tree,
            None => vstd::pervasive::unreached(),
        }
    }

    /// Get an immutable borrow to the tree at the main surface.
    pub fn main_surface(&self) -> (r: &Tree<Tab>)
        requires
            self.wf(),
        ensures
            *r == self.tree_at(SurfaceIndex(0)),
    {
        self.tree(SurfaceIndex::main())
    }

    /// Get a mutable borrow to the tree at the main surface.
    pub fn main_surface_mut(&mut self) -> (r: &mut Tree<Tab>)
        requires
            old(self).wf(),
        ensures
            *r == old(self).tree_at(SurfaceIndex(0)),
            final(self).surface_seq() == old(self).surface_seq().update(0, Surface::Main(*final(r))),
            final(self).focus() == old(self).focus(),
            final(self).labels() == old(self).labels(),
    {
        self.tree_mut(SurfaceIndex::main())
    }

    /// Get the [`WindowState`] which corresponds to a [`SurfaceIndex`].
    ///
    /// Returns `None` if the surface is [`Empty`](Surface::Empty), [`Main`](Surface::Main),
    /// or doesn't exist; the state is then left as it was.
    pub fn get_window_state_mut(&mut self, surface: SurfaceIndex) -> (r: Option<&mut WindowState>)
        ensures
            old(self).wf() ==> final(self).wf(),
            final(self).focus() == old(self).focus(),
            final(self).labels() == old(self).labels(),
            surface.0 >= old(self).surface_seq().len() ==> r is None && *final(self) == *old(self),
            surface.0 < old(self).surface_seq().len() ==> match old(self).surface_seq()[surface.0 as int] {
                Surface::Window(tree, state) => (r matches Some(w) && *w == state
                    && final(self).surface_seq() == old(self).surface_seq().update(
                    surface.0 as int,
                    Surface::Window(tree, *final(w)),
                )),
                _ => r is None && final(self).surface_seq() == old(self).surface_seq(),
            },
    {
        if surface.0 >= self.surfaces.len() {
            return None;
        }
        match &mut self.surfaces[surface.0] {
            Surface::Window(_, state) => Some(state),
            _ => None,
        }
    }

    /// Get the [`WindowState`] which corresponds to a [`SurfaceIndex`].
    ///
    /// Returns `None` if the surface is an [`Empty`](Surface::Empty), [`Main`](Surface::Main),
    /// or doesn't exist.
    pub fn get_window_state(&mut self, surface: SurfaceIndex) -> (r: Option<&WindowState>)
        ensures
            *final(self) == *old(self),
            surface.0 >= old(self).surface_seq().len() ==> r is None,
            surface.0 < old(self).surface_seq().len() ==> match old(self).surface_seq()[surface.0 as int] {
                Surface::Window(_, state) => r == Some(&state),
                _ => r is None,
            },
    {
        if surface.0 >= self.surfaces.len() {
            return None;
        }
        match &self.surfaces[surface.0] {
            Surface::Window(_, state) => Some(state),
            _ => None,
        }
    }

    /// Get a mutable borrow to the raw surface from a surface index.
    pub fn get_surface_mut(&mut self, surface: SurfaceIndex) -> (r: Option<&mut Surface<Tab>>)
        ensures
            final(self).focus() == old(self).focus(),
            final(self).labels() == old(self).labels(),
            surface.0 < old(self).surface_seq().len() ==> (r matches Some(x) && *x
                == old(self).surface_seq()[surface.0 as int] && final(self).surface_seq()
                == old(self).surface_seq().update(surface.0 as int, *final(x))),
            surface.0 >= old(self).surface_seq().len() ==> r is None && final(self).surface_seq()
                == old(self).surface_seq(),
    {
        if surface.0 < self.surfaces.len() {
            Some(&mut self.surfaces[surface.0])
        } else {
            None
        }
    }

    /// Get an immutable borrow to the raw surface from a surface index.
    pub fn get_surface(&self, surface: SurfaceIndex) -> (r: Option<&Surface<Tab>>)
        ensures
            surface.0 < self.surface_seq().len() ==> r == Some(&self.surface_seq()[surface.0 as int]),
            surface.0 >= self.surface_seq().len() ==> r is None,
    {
        if surface.0 < self.surfaces.len() {
            Some(&self.surfaces[surface.0])
        } else {
            None
        }
    }

    /// Returns true if the specified surface exists and isn't [`Empty`](Surface::Empty).
    pub fn is_surface_valid(&self, surface_index: SurfaceIndex) -> (r: bool)
        ensures
            r == self.valid(surface_index),
    {
        surface_index.0 < self.surfaces.len() && !self.surfaces[surface_index.0].is_empty()
    }

    /// `after` differs from `self` at most in the tree of surface `s` (and in the
    /// focused surface, which this does not constrain).
    pub open spec fn only_tree_changed(&self, after: &Self, s: SurfaceIndex) -> bool {
        &&& after.surface_seq() == self.surface_seq().update(
            s.0 as int,
            self.surface_seq()[s.0 as int].with_tree(after.tree_at(s)),
        )
        &&& after.labels() == self.labels()
    }

    /// Remove a surface based on its [`SurfaceIndex`].
    ///
    /// Returns the removed surface or `None` if it didn't exist. The focus moves to the
    /// main surface when a surface is removed.
    ///
    /// # Panics
    /// Panics if you try to remove the main surface: `SurfaceIndex::main()`.
    pub fn remove_surface(&mut self, surface_index: SurfaceIndex) -> (r: Option<Surface<Tab>>)
        requires
            old(self).wf(),
            surface_index.0 != 0,
        ensures
            final(self).wf(),
            final(self).labels() == old(self).labels(),
            surface_index.0 >= old(self).surface_seq().len() ==> r is None && final(self).surface_seq()
                == old(self).surface_seq() && final(self).focus() == old(self).focus(),
            surface_index.0 < old(self).surface_seq().len() ==> r == Some(
                old(self).surface_seq()[surface_index.0 as int],
            ) && final(self).surface_seq() == surface_removed(
                old(self).surface_seq(),
                surface_index.0 as int,
            ) && final(self).focus() == Some(SurfaceIndex(0)),
            surface_index.0 < old(self).surface_seq().len() ==> final(self).dock_tabs().add(
                surface_tabs(old(self).surface_seq()[surface_index.0 as int]),
            ) == old(self).dock_tabs(),
    {
        proof {
            if surface_index.0 < self.surfaces@.len() {
                lemma_surface_removed_tabs(self.surfaces@, surface_index.0 as int);
            }
        }
        if surface_index.0 < self.surfaces.len() {
            self.focused_surface = Some(SurfaceIndex::main());
            if surface_index.0 == self.surfaces.len() - 1 {
                self.surfaces.pop()
            } else {
                let mut removed = Surface::Empty;
                std::mem::swap(&mut removed, &mut self.surfaces[surface_index.0]);
                Some(removed)
            }
        } else {
            None
        }
    }

    /// Sets which is the active tab within a specific node on a given surface; does
    /// nothing unless the node is a leaf.
    ///
    /// # Panics
    /// When the surface does not exist or is empty.
    pub fn set_active_tab(&mut self, location: (SurfaceIndex, NodeIndex, TabIndex))
        requires
            old(self).wf(),
            old(self).valid(location.0),
        ensures
            final(self).wf(),
            old(self).only_tree_changed(final(self), location.0),
            final(self).focus() == old(self).focus(),
            final(self).tree_at(location.0).nodes() == with_active(
                old(self).tree_at(location.0).nodes(),
                location.1.0 as int,
                location.2,
            ),
            final(self).tree_at(location.0).focus() == old(self).tree_at(location.0).focus(),
            final(self).dock_tabs() == old(self).dock_tabs(),
    {
        let (surface_index, node_index, tab_index) = location;
        let ghost before = *self;
        self.tree_mut(surface_index).set_active_tab(node_index, tab_index);
        proof {
            broadcast use vstd::multiset::group_multiset_axioms;

            let e = Multiset::<Tab>::empty();
            assert(tab_bag(self.tree_at(surface_index).nodes()) =~= tab_bag(before.tree_at(surface_index).nodes()).add(e));
            lemma_tree_gained_tabs(&before, self, surface_index, e);
            assert(self.dock_tabs() =~= before.dock_tabs());
        }
    }

    /// `after` is `self` with the focus on the leaf at `location` when there is a leaf
    /// there, and with no surface focused otherwise.
    pub open spec fn focus_moved(&self, location: (SurfaceIndex, NodeIndex), after: &Self) -> bool {
        let (s, n) = location;
        let ok = self.valid(s) && n.0 < self.tree_at(s).nodes().len() && self.tree_at(s).nodes()[n.0 as int] is Leaf;
        &&& after.labels() == self.labels()
        &&& ok ==> {
            &&& after.focus() == Some(s)
            &&& self.only_tree_changed(after, s)
            &&& after.tree_at(s).nodes() == self.tree_at(s).nodes()
            &&& after.tree_at(s).focus() == Some(n)
        }
        &&& !ok ==> after.surface_seq() == self.surface_seq() && after.focus() is None
    }

    /// Sets the currently focused leaf to `node_index` on surface `surface_index` if that
    /// node is a leaf; otherwise no surface is focused afterwards.
    pub fn set_focused_node_and_surface(&mut self, location: (SurfaceIndex, NodeIndex))
        requires
            old(self).wf(),
        ensures
            final(self).wf(),
            old(self).focus_moved(location, final(self)),
            final(self).dock_tabs() == old(self).dock_tabs(),
    {
        let (surface_index, node_index) = location;
        if self.is_surface_valid(surface_index) && node_index.0 < self.tree(surface_index).slots() {
            if self.tree(surface_index).node(node_index).is_leaf() {
                self.focused_surface = Some(surface_index);
                self.tree_mut(surface_index).set_focused_node(node_index);
                proof {
                    broadcast use vstd::multiset::group_multiset_axioms;

                    let e = Multiset::<Tab>::empty();
                    assert(tab_bag(self.tree_at(surface_index).nodes()) =~= tab_bag(old(self).tree_at(surface_index).nodes()).add(e));
                    lemma_tree_gained_tabs(old(self), self, surface_index, e);
                    assert(self.dock_tabs() =~= old(self).dock_tabs());
                }
                return;
            }
        }
        self.focused_surface = None;
    }

    /// Currently focused leaf, with its surface.
    pub fn focused_leaf(&self) -> (r: Option<(SurfaceIndex, NodeIndex)>)
        requires
            self.wf(),
        ensures
            r == (match self.focus() {
                Some(s) => match self.tree_at(s).focus() {
                    Some(n) => Some((s, n)),
                    None => None,
                },
                None => None,
            }),
    {
        match self.focused_surface {
            Some(surface) => match self.tree(surface).focused_leaf() {
                Some(leaf) => Some((surface, leaf)),
                None => None,
            },
            None => None,
        }
    }

    /// The surface at `location.0` is valid and the leaf at `location.1` there holds a
    /// tab at index `location.2`.
    pub open spec fn holds_tab(&self, location: (SurfaceIndex, NodeIndex, TabIndex)) -> bool {
        self.valid(location.0) && has_tab(self.tree_at(location.0).nodes(), location.1.0 as int, location.2.0 as int)
    }

    /// The tab at `location` was removed (see [`removed_tab`]), and the window that held
    /// it was removed too if its tree was left without nodes.
    pub open spec fn tab_removed_at(&self, location: (SurfaceIndex, NodeIndex, TabIndex), after: &Self) -> bool {
        &&& after.labels() == self.labels()
        &&& exists|tree: Tree<Tab>|
            #[trigger] removed_tab(
                self.tree_at(location.0).nodes(),
                self.tree_at(location.0).focus(),
                location.1.0 as int,
                location.2.0 as int,
                tree.nodes(),
                tree.focus(),
            ) && {
                let s = location.0.0 as int;
                let mid = self.surface_seq().update(s, self.surface_seq()[s].with_tree(tree));
                if s != 0 && tree.nodes().len() == 0 {
                    after.surface_seq() == surface_removed(mid, s) && after.focus() == Some(SurfaceIndex(0))
                } else {
                    after.surface_seq() == mid && after.focus() == self.focus()
                }
            }
    }

    /// Remove a tab at the specified surface, node, and tab index, and yield it. A leaf
    /// left without tabs is removed, and so is a window left without nodes.
    ///
    /// Returns `None`, and changes nothing, when there is no such tab.
    pub fn remove_tab(&mut self, location: (SurfaceIndex, NodeIndex, TabIndex)) -> (r: Option<Tab>)
        requires
            old(self).wf(),
        ensures
            final(self).wf(),
            !old(self).holds_tab(location) ==> r is None && *final(self) == *old(self),
            old(self).holds_tab(location) ==> {
                &&& r == Some(old(self).tree_at(location.0).nodes()[location.1.0 as int].tab_seq()[location.2.0 as int])
                &&& old(self).tab_removed_at(location, final(self))
                &&& final(self).dock_tabs() == old(self).dock_tabs().remove(
                    old(self).tree_at(location.0).nodes()[location.1.0 as int].tab_seq()[location.2.0 as int],
                )
            },
    {
        let (surface_index, node_index, tab_index) = location;
        if !(self.is_surface_valid(surface_index) && node_index.0 < self.tree(surface_index).slots()
            && self.tree(surface_index).node(node_index).is_leaf() && tab_index.0 < self.tree(
            surface_index,
        ).node(node_index).tabs_count()) {
            return None;
        }
        let ghost before = *self;
        let removed = self.tree_mut(surface_index).remove_tab((node_index, tab_index));
        let ghost tree = self.tree_at(surface_index);
        let ghost mid = *self;
        proof {
            let x = before.tree_at(surface_index).nodes()[node_index.0 as int].tab_seq()[tab_index.0 as int];
            assert(before.surface_seq()[surface_index.0 as int].tree().wf());
            crate::tree::contents::lemma_tab_bag_has(before.tree_at(surface_index).nodes(), node_index.0 as int, tab_index.0 as int);
            lemma_tree_lost_tab(&before, &mid, surface_index, x);
        }
        if !surface_index.is_main() && self.tree(surface_index).is_empty() {
            self.remove_surface(surface_index);
            proof {
                broadcast use vstd::multiset::group_multiset_axioms;

                lemma_no_nodes_tabs(mid.tree_at(surface_index).nodes());
                assert(surface_tabs(mid.surface_seq()[surface_index.0 as int]) == Multiset::<Tab>::empty());
                assert(self.dock_tabs() =~= mid.dock_tabs()) by {
                    assert forall|v: Tab| self.dock_tabs().count(v) == mid.dock_tabs().count(v) by {
                        assert(self.dock_tabs().add(surface_tabs(mid.surface_seq()[surface_index.0 as int])).count(v)
                            == mid.dock_tabs().count(v));
                    }
                }
            }
        }
        proof {
            assert(removed_tab(
                old(self).tree_at(surface_index).nodes(),
                old(self).tree_at(surface_index).focus(),
                node_index.0 as int,
                tab_index.0 as int,
                tree.nodes(),
                tree.focus(),
            ));
        }
        removed
    }

    /// Creates two new nodes by splitting a given `parent` leaf on a surface and assigns
    /// them as its children, as [`Tree::split`] does; the surface becomes the focused one.
    ///
    /// Returns the indices of the old node and the new node.
    ///
    /// # Panics
    /// When the surface is not valid, `parent` is not a leaf, `fraction` isn't in
    /// range 0..=1, or `new` is not a leaf holding at least one tab.
    pub fn split(&mut self, location: (SurfaceIndex, NodeIndex), split: Split, fraction: u32, new: Node<Tab>) -> (r: [NodeIndex; 2])
        requires
            old(self).wf(),
            old(self).valid(location.0),
            location.1.0 < old(self).tree_at(location.0).nodes().len(),
            old(self).tree_at(location.0).nodes()[location.1.0 as int] is Leaf,
            in_unit_range(fraction),
            new is Leaf,
            new.tab_seq().len() > 0,
            old(self).tree_at(location.0).nodes().len() <= usize::MAX / 8,
        ensures
            final(self).wf(),
            old(self).only_tree_changed(final(self), location.0),
            final(self).focus() == Some(location.0),
            r[0].0 == split_old_pos(location.1.0 as int, split),
            r[1].0 == split_new_pos(location.1.0 as int, split),
            split_shape(
                old(self).tree_at(location.0).nodes(),
                final(self).tree_at(location.0).nodes(),
                location.1.0 as int,
                split,
                fraction,
            ),
            final(self).tree_at(location.0).at(r[1].0 as int) == new,
            final(self).tree_at(location.0).focus() == Some(r[1]),
            final(self).dock_tabs() == old(self).dock_tabs().add(new.tab_seq().to_multiset()),
    {
        let (surface, parent) = location;
        let ghost before = *self;
        let ghost new_tabs = new.tab_seq().to_multiset();
        let index = self.tree_mut(surface).split(parent, split, fraction, new);
        self.focused_surface = Some(surface);
        proof {
            lemma_tree_gained_tabs(&before, self, surface, new_tabs);
        }
        index
    }

    /// Finds the first empty surface index which may be used: the first empty slot
    /// after the main surface, else the index one past the last surface.
    fn find_empty_surface_index(&self) -> (r: SurfaceIndex)
        ensures
            r.0 == first_empty_surface(self.surface_seq(), 1),
    {
        let mut i: usize = 1;
        while i < self.surfaces.len()
            invariant
                1 <= i,
                first_empty_surface(self.surfaces@, 1) == first_empty_surface(self.surfaces@, i as int),
            decreases self.surfaces@.len() - i,
        {
            if self.surfaces[i].is_empty() {
                return SurfaceIndex(i);
            }
            i = i + 1;
        }
        SurfaceIndex(self.surfaces.len())
    }

    /// Adds a window with its own list of tabs, in the first empty slot (see
    /// [`first_empty_surface`]) or at the end.
    ///
    /// Returns the [`SurfaceIndex`] of the new window, which will remain constant
    /// through the window's lifetime.
    pub fn add_window(&mut self, tabs: Vec<Tab>) -> (r: SurfaceIndex)
        requires
            old(self).wf(),
        ensures
            final(self).wf(),
            final(self).labels() == old(self).labels(),
            final(self).focus() == old(self).focus(),
            r.0 == first_empty_surface(old(self).surface_seq(), 1),
            1 <= r.0 <= old(self).surface_seq().len(),
            r.0 < final(self).surface_seq().len(),
            final(self).surface_seq() == placed(
                old(self).surface_seq(),
                r.0 as int,
                final(self).surface_seq()[r.0 as int],
            ),
            final(self).surface_seq()[r.0 as int] matches Surface::Window(t, st) && st
                @ == WindowState::spec_fresh() && t.nodes().len() == 1 && t.nodes()[0].is_fresh_leaf(tabs@)
                && t.focus() is None,
            final(self).dock_tabs() == old(self).dock_tabs().add(tabs@.to_multiset()),
    {
        let ghost tab_seq = tabs@;
        let surface = Surface::Window(Tree::new(tabs), WindowState::new());
        let index = self.find_empty_surface_index();
        proof {
            lemma_first_empty_surface(self.surfaces@, 1);
            lemma_one_leaf_tabs(surface.tree().nodes());
            lemma_placed_tabs(self.surfaces@, index.0 as int, surface);
        }
        if index.0 < self.surfaces.len() {
            self.surfaces.set(index.0, surface);
        } else {
            self.surfaces.push(surface);
        }
        index
    }

    /// Pushes `tab` to the currently focused leaf of the focused surface (of the main
    /// surface when no surface is focused), as [`Tree::push_to_focused_leaf`] does.
    pub fn push_to_focused_leaf(&mut self, tab: Tab)
        requires
            old(self).wf(),
        ensures
            final(self).wf(),
            final(self).focus() == old(self).focus(),
            old(self).only_tree_changed(final(self), push_target(old(self).focus())),
            pushed_to_focused_leaf(
                old(self).tree_at(push_target(old(self).focus())).nodes(),
                old(self).tree_at(push_target(old(self).focus())).focus(),
                final(self).tree_at(push_target(old(self).focus())).nodes(),
                final(self).tree_at(push_target(old(self).focus())).focus(),
                tab,
            ),
            final(self).dock_tabs() == old(self).dock_tabs().insert(tab),
    {
        let ghost before = *self;
        match self.focused_surface {
            Some(surface) => self.tree_mut(surface).push_to_focused_leaf(tab),
            None => self.tree_mut(SurfaceIndex::main()).push_to_focused_leaf(tab),
        }
        proof {
            lemma_tree_gained_tabs(&before, self, push_target(before.focus()), Multiset::singleton(tab));
        }
    }

    /// Push a tab to the first available leaf of the main surface, or create a new leaf
    /// if an empty node is encountered, as [`Tree::push_to_first_leaf`] does.
    pub fn push_to_first_leaf(&mut self, tab: Tab)
        requires
            old(self).wf(),
        ensures
            final(self).wf(),
            final(self).focus() == old(self).focus(),
            old(self).only_tree_changed(final(self), SurfaceIndex(0)),
            pushed_to_first_leaf(
                old(self).tree_at(SurfaceIndex(0)).nodes(),
                final(self).tree_at(SurfaceIndex(0)).nodes(),
                final(self).tree_at(SurfaceIndex(0)).focus(),
                tab,
            ),
            final(self).dock_tabs() == old(self).dock_tabs().insert(tab),
    {
        let ghost before = *self;
        self.tree_mut(SurfaceIndex::main()).push_to_first_leaf(tab);
        proof {
            lemma_tree_gained_tabs(&before, self, SurfaceIndex(0), Multiset::singleton(tab));
        }
    }

    /// The tab at `src` was taken out of its leaf, which stays in place.
    pub open spec fn tab_taken(&self, src: (SurfaceIndex, NodeIndex, TabIndex), after: &Self) -> bool {
        &&& self.only_tree_changed(after, src.0)
        &&& after.focus() == self.focus()
        &&& tab_removed(
            self.tree_at(src.0).nodes(),
            after.tree_at(src.0).nodes(),
            src.1.0 as int,
            src.2.0 as int,
        )
        &&& after.tree_at(src.0).focus() == self.tree_at(src.0).focus()
    }

    /// `tab` was put at `dst`: split off the node into a new focused leaf, inserted or
    /// appended to the node (becoming its active tab), or made the one tab of a new
    /// tree on an empty surface.
    pub open spec fn tab_placed(&self, dst: TabDestination, tab: Tab, after: &Self) -> bool {
        match dst {
            TabDestination::Node(s, n, insert) => {
                let before = self.tree_at(s).nodes();
                let nodes = after.tree_at(s).nodes();
                &&& self.only_tree_changed(after, s)
                &&& after.focus() == self.focus()
                &&& match insert {
                    TabInsert::Split(split) => {
                        &&& split_shape(before, nodes, n.0 as int, split, HALF_BITS)
                        &&& node_at(nodes, split_new_pos(n.0 as int, split)).is_fresh_leaf(seq![tab])
                        &&& after.tree_at(s).focus() == Some(
                            NodeIndex(split_new_pos(n.0 as int, split) as usize),
                        )
                    },
                    TabInsert::Insert(i) => tab_inserted(before, nodes, n.0 as int, i.0 as int, tab)
                        && after.tree_at(s).focus() == self.tree_at(s).focus(),
                    TabInsert::Append => tab_appended(before, nodes, n.0 as int, tab)
                        && after.tree_at(s).focus() == self.tree_at(s).focus(),
                }
            },
            TabDestination::EmptySurface(s) => {
                &&& self.only_tree_changed(after, s)
                &&& after.focus() == self.focus()
                &&& after.tree_at(s).nodes().len() == 1
                &&& after.tree_at(s).nodes()[0].is_fresh_leaf(seq![tab])
                &&& after.tree_at(s).focus() is None
            },
            TabDestination::Window(_) => false,
        }
    }

    /// The leaf at `n` on surface `s` was removed if it was a leaf without tabs; the
    /// dock state is unchanged otherwise.
    pub open spec fn leaf_cleaned(&self, s: SurfaceIndex, n: NodeIndex, after: &Self) -> bool {
        let t = self.tree_at(s);
        if t.at(n.0 as int) is Leaf && t.at(n.0 as int).tab_seq().len() == 0 {
            &&& self.only_tree_changed(after, s)
            &&& after.focus() == self.focus()
            &&& removed_leaf(t.nodes(), t.focus(), n.0 as int, after.tree_at(s).nodes(), after.tree_at(s).focus())
        } else {
            *after == *self
        }
    }

    /// Surface `s` was removed if it is a window whose tree has no node left; the dock
    /// state is unchanged otherwise.
    pub open spec fn surface_cleaned(&self, s: SurfaceIndex, after: &Self) -> bool {
        if s.0 != 0 && self.tree_at(s).nodes().len() == 0 {
            &&& after.surface_seq() == surface_removed(self.surface_seq(), s.0 as int)
            &&& after.focus() == Some(SurfaceIndex(0))
            &&& after.labels() == self.labels()
        } else {
            *after == *self
        }
    }

    /// The steps of [`DockState::detach_tab`]: the tab at `src` is taken out (`m1`), a
    /// window holding just that tab is added at `w` (`m2`), then the source leaf
    /// (`m3`) and the source surface (`after`) are cleaned up.
    pub open spec fn detach_steps(
        &self,
        src: (SurfaceIndex, NodeIndex, TabIndex),
        rect: Rect,
        w: SurfaceIndex,
        m1: Self,
        m2: Self,
        m3: Self,
        after: &Self,
    ) -> bool {
        let tab = self.tree_at(src.0).nodes()[src.1.0 as int].tab_seq()[src.2.0 as int];
        &&& self.tab_taken(src, &m1)
        &&& w.0 == first_empty_surface(m1.surface_seq(), 1)
        &&& m2.surface_seq() == placed(m1.surface_seq(), w.0 as int, m2.surface_seq()[w.0 as int])
        &&& m2.surface_seq()[w.0 as int] matches Surface::Window(t, state) && t.nodes().len() == 1
            && t.nodes()[0].is_fresh_leaf(seq![tab]) && t.focus() is None && state@ == torn_off_state(
            src.0,
            rect,
        )
        &&& m2.focus() == m1.focus()
        &&& m2.labels() == m1.labels()
        &&& m2.leaf_cleaned(src.0, src.1, &m3)
        &&& m3.surface_cleaned(src.0, after)
    }

    /// The steps of [`DockState::move_tab`] to a node or an empty surface: the tab at
    /// `src` is taken out (`m1`), put at `dst` (`m2`), then the source leaf (`m3`) and
    /// the source surface (`after`) are cleaned up.
    pub open spec fn move_steps(
        &self,
        src: (SurfaceIndex, NodeIndex, TabIndex),
        dst: TabDestination,
        m1: Self,
        m2: Self,
        m3: Self,
        after: &Self,
    ) -> bool {
        let tab = self.tree_at(src.0).nodes()[src.1.0 as int].tab_seq()[src.2.0 as int];
        &&& self.tab_taken(src, &m1)
        &&& m1.tab_placed(dst, tab, &m2)
        &&& m2.leaf_cleaned(src.0, src.1, &m3)
        &&& m3.surface_cleaned(src.0, after)
    }

    /// Takes the tab at `src` out of its leaf, leaving the leaf in place.
    fn take_tab(&mut self, src: (SurfaceIndex, NodeIndex, TabIndex)) -> (tab: Tab)
        requires
            old(self).wf(),
            old(self).valid(src.0),
            src.1.0 < old(self).tree_at(src.0).nodes().len(),
            old(self).tree_at(src.0).nodes()[src.1.0 as int] is Leaf,
            src.2.0 < old(self).tree_at(src.0).nodes()[src.1.0 as int].tab_seq().len(),
        ensures
            final(self).wf(),
            old(self).tab_taken(src, final(self)),
            tab == old(self).tree_at(src.0).nodes()[src.1.0 as int].tab_seq()[src.2.0 as int],
    {
        let ghost before = self.tree_at(src.0);
        let taken = self.tree_mut(src.0).node_mut(src.1).remove_tab(src.2);
        proof {
            Tree::lemma_leaf_edit_wf(&before, &self.tree_at(src.0), src.1.0 as int);
        }
        match taken {
            Some(tab) => tab,
            None => vstd::pervasive::unreached(),
        }
    }

    /// Puts `tab` at `dst` (a node or an empty surface).
    fn place_tab(&mut self, dst: TabDestination, tab: Tab)
        requires
            old(self).wf(),
            match dst {
                TabDestination::Node(s, n, insert) => {
                    &&& old(self).valid(s)
                    &&& n.0 < old(self).tree_at(s).nodes().len()
                    &&& old(self).tree_at(s).nodes()[n.0 as int] is Leaf
                    &&& insert matches TabInsert::Insert(i) ==> i.0 <= old(self).tree_at(s).nodes()[n.0 as int].tab_seq().len()
                    &&& insert is Split ==> old(self).tree_at(s).nodes().len() <= usize::MAX / 8
                },
                TabDestination::EmptySurface(s) => old(self).valid(s) && old(self).tree_at(s).nodes().len() == 0,
                TabDestination::Window(_) => false,
            },
        ensures
            final(self).wf(),
            old(self).tab_placed(dst, tab, final(self)),
    {
        match dst {
            TabDestination::Node(s, n, insert) => match insert {
                TabInsert::Split(split) => {
                    self.tree_mut(s).split(n, split, HALF_BITS, Node::leaf(tab));
                },
                TabInsert::Insert(index) => {
                    let ghost before = self.tree_at(s);
                    self.tree_mut(s).node_mut(n).insert_tab(index, tab);
                    proof {
                        Tree::lemma_leaf_edit_wf(&before, &self.tree_at(s), n.0 as int);
                    }
                },
                TabInsert::Append => {
                    let ghost before = self.tree_at(s);
                    self.tree_mut(s).node_mut(n).append_tab(tab);
                    proof {
                        Tree::lemma_leaf_edit_wf(&before, &self.tree_at(s), n.0 as int);
                    }
                },
            },
            TabDestination::EmptySurface(s) => {
                let mut tabs = Vec::new();
                tabs.push(tab);
                *self.tree_mut(s) = Tree::new(tabs);
            },
            TabDestination::Window(_) => {
                vstd::pervasive::unreached::<()>();
            },
        }
    }

    /// Removes the node at `n` on surface `s` if it is a leaf without tabs.
    fn clean_leaf(&mut self, s: SurfaceIndex, n: NodeIndex)
        requires
            old(self).wf(),
            old(self).valid(s),
            n.0 < old(self).tree_at(s).nodes().len(),
        ensures
            final(self).wf(),
            old(self).leaf_cleaned(s, n, final(self)),
    {
        if self.tree(s).node(n).is_leaf() && self.tree(s).node(n).tabs_count() == 0 {
            self.tree_mut(s).remove_leaf(n);
        }
    }

    /// Removes surface `s` if it is a window whose tree has no node left.
    fn clean_surface(&mut self, s: SurfaceIndex)
        requires
            old(self).wf(),
            old(self).valid(s),
        ensures
            final(self).wf(),
            old(self).surface_cleaned(s, final(self)),
    {
        if self.tree(s).is_empty() && !s.is_main() {
            self.remove_surface(s);
        }
    }

    /// Takes a tab out of its current surface and puts it in a new window over
    /// `window_rect` (see [`torn_off_state`]); a leaf left without tabs is removed, and
    /// so is a window left without nodes.
    ///
    /// Returns the surface index of the new window.
    ///
    /// # Panics
    /// When the surface is not valid, or the node is not a leaf holding that tab.
    pub fn detach_tab(&mut self, src: (SurfaceIndex, NodeIndex, TabIndex), window_rect: Rect) -> (r: SurfaceIndex)
        requires
            old(self).wf(),
            old(self).valid(src.0),
            src.1.0 < old(self).tree_at(src.0).nodes().len(),
            old(self).tree_at(src.0).nodes()[src.1.0 as int] is Leaf,
            src.2.0 < old(self).tree_at(src.0).nodes()[src.1.0 as int].tab_seq().len(),
        ensures
            final(self).wf(),
            r.0 == first_empty_surface(old(self).surface_seq(), 1),
            exists|m1: Self, m2: Self, m3: Self|
                #[trigger] old(self).detach_steps(src, window_rect, r, m1, m2, m3, final(self)),
            r.0 < final(self).surface_seq().len(),
            final(self).surface_seq()[r.0 as int] matches Surface::Window(_, state) && state@.next_position == Some(
                window_rect.min,
            ) && state@.next_size == Some(
                if src.0.0 == 0 {
                    WindowSize::ShrunkOfRect(window_rect)
                } else {
                    WindowSize::OfRect(window_rect)
                },
            ),
            final(self).surface_seq()[r.0 as int] matches Surface::Window(tree, _) && tree.nodes().len() == 1
                && tree.nodes()[0] is Leaf && tree.nodes()[0].tab_seq() == seq![
                old(self).tree_at(src.0).nodes()[src.1.0 as int].tab_seq()[src.2.0 as int],
            ],
            final(self).dock_tabs() == old(self).dock_tabs(),
    {
        let ghost before = *self;
        let tab = self.take_tab(src);
        let ghost m1 = *self;
        proof {
            lemma_tab_taken_tabs(&before, src, &m1);
        }
        proof {
            lemma_first_empty_surface_same(old(self).surface_seq(), m1.surface_seq(), 1);
        }
        let mut tabs = Vec::new();
        tabs.push(tab);
        let surface_index = self.add_window(tabs);
        let ghost after_add = *self;
        proof {
            contents::lemma_one_tab(tab);
            assert(seq![tab] =~= tabs@);
        }
        proof {
            lemma_first_empty_surface(m1.surface_seq(), 1);
            assert(self.surface_seq()[src.0.0 as int] == m1.surface_seq()[src.0.0 as int]);
        }
        match self.get_window_state_mut(surface_index) {
            Some(state) => {
                state.set_position(window_rect.min);
                if src.0.is_main() {
                    state.request_size(WindowSize::ShrunkOfRect(window_rect));
                } else {
                    state.request_size(WindowSize::OfRect(window_rect));
                }
            },
            None => {
                vstd::pervasive::unreached::<()>();
            },
        }
        let ghost m2 = *self;
        proof {
            lemma_same_tabs_update(after_add.surface_seq(), surface_index.0 as int, m2.surface_seq()[surface_index.0 as int]);
            assert(m2.surface_seq() =~= after_add.surface_seq().update(surface_index.0 as int, m2.surface_seq()[surface_index.0 as int]));
            assert(self.surface_seq()[src.0.0 as int] == m1.surface_seq()[src.0.0 as int]);
            assert(m2.surface_seq() =~= placed(m1.surface_seq(), surface_index.0 as int, m2.surface_seq()[surface_index.0 as int]));
            assert(m2.surface_seq()[surface_index.0 as int] matches Surface::Window(t, state) && state@ == torn_off_state(src.0, window_rect));
        }
        self.clean_leaf(src.0, src.1);
        let ghost m3 = *self;
        self.clean_surface(src.0);
        proof {
            assert(old(self).detach_steps(src, window_rect, surface_index, m1, m2, m3, self));
            laws::lemma_detached_window_opens_at_corner(*old(self), src, window_rect, surface_index, m1, m2, m3, *self);
            lemma_leaf_cleaned_tabs(&m2, src.0, src.1, &m3);
            lemma_surface_cleaned_tabs(&m3, src.0, self);
            lemma_remove_then_insert(before.dock_tabs(), tab);
        }
        surface_index
    }

    /// Moving the only tab of a leaf to that same leaf does nothing.
    pub open spec fn is_noop_move(&self, src: (SurfaceIndex, NodeIndex, TabIndex), dst: TabDestination) -> bool {
        dst matches TabDestination::Node(s, n, _) && s == src.0 && n == src.1
            && self.tree_at(src.0).nodes()[src.1.0 as int].tab_seq().len() == 1
    }

    /// Moves a tab from a node to `dst`: to a new window ([`detach_tab`](Self::detach_tab)),
    /// to a node of a surface (split off it, inserted or appended), or to an empty
    /// surface, which gets a new tree with just that tab. A leaf left without tabs is
    /// removed, and so is a window left without nodes. Moving the only tab of a leaf
    /// into that same leaf does nothing.
    ///
    /// # Panics
    /// Unless the move does nothing: when the source is not a tab of a leaf of a valid
    /// surface, when a destination node is not a leaf of a valid surface (or an
    /// insertion index lies past its tabs), or when a destination surface is not valid
    /// or not empty.
    pub fn move_tab(&mut self, src: (SurfaceIndex, NodeIndex, TabIndex), dst: TabDestination)
        requires
            old(self).wf(),
            old(self).move_allowed(src, dst),
        ensures
            final(self).wf(),
            dst matches TabDestination::Window(rect) ==> exists|m1: Self, m2: Self, m3: Self|
                #[trigger] old(self).detach_steps(
                    src,
                    rect,
                    SurfaceIndex(first_empty_surface(old(self).surface_seq(), 1) as usize),
                    m1,
                    m2,
                    m3,
                    final(self),
                ),
            old(self).is_noop_move(src, dst) ==> *final(self) == *old(self),
            !(dst is Window) && !old(self).is_noop_move(src, dst) ==> exists|m1: Self, m2: Self, m3: Self|
                #[trigger] old(self).move_steps(src, dst, m1, m2, m3, final(self)),
            final(self).dock_tabs() == old(self).dock_tabs(),
    {
        let ghost before = *self;
        match dst {
            TabDestination::Window(rect) => {
                let w = self.detach_tab(src, rect);
                proof {
                    lemma_first_empty_surface(old(self).surface_seq(), 1);
                    assert(w == SurfaceIndex(first_empty_surface(old(self).surface_seq(), 1) as usize));
                }
                return;
            },
            TabDestination::Node(s, n, _) => {
                if s == src.0 && n == src.1 && self.tree(src.0).node(src.1).tabs_count() == 1 {
                    return;
                }
            },
            TabDestination::EmptySurface(_) => {},
        }
        let tab = self.take_tab(src);
        let ghost m1 = *self;
        self.place_tab(dst, tab);
        let ghost m2 = *self;
        self.clean_leaf(src.0, src.1);
        let ghost m3 = *self;
        self.clean_surface(src.0);
        proof {
            assert(old(self).move_steps(src, dst, m1, m2, m3, self));
            lemma_tab_taken_tabs(&before, src, &m1);
            lemma_tab_placed_tabs(&m1, dst, tab, &m2);
            lemma_leaf_cleaned_tabs(&m2, src.0, src.1, &m3);
            lemma_surface_cleaned_tabs(&m3, src.0, self);
            lemma_remove_then_insert(before.dock_tabs(), tab);
        }
    }

    /// Returns the viewport and the active tab of the focused leaf of the focused
    /// surface, or `None` when no surface is focused, no leaf is focused there, or its
    /// active index names no tab.
    pub fn find_active_focused(&mut self) -> (r: Option<(Rect, &mut Tab)>)
        requires
            old(self).wf(),
        ensures
            match old(self).focus() {
                Some(s) => {
                    let tree = old(self).tree_at(s);
                    let i = focused_active_leaf(tree.nodes(), tree.focus());
                    &&& i == tree.nodes().len() ==> r is None && *final(self) == *old(self)
                    &&& i < tree.nodes().len() ==> (r matches Some((v, t)) && active_tab_lent(
                        tree.nodes(),
                        final(self).tree_at(s).nodes(),
                        i,
                        v,
                        *t,
                        *final(t),
                    ) && final(self).tree_at(s).focus() == tree.focus() && old(self).only_tree_changed(final(self), s)
                        && final(self).focus() == old(self).focus())
                },
                None => r is None && *final(self) == *old(self),
            },
            r matches Some((v, t)) ==> old(self).focus() matches Some(s) && old(self).tree_at(s).focus() matches Some(
                f,
            ) && old(self).tree_at(s).nodes()[f.0 as int] matches Node::Leaf { viewport, tabs, active, .. } && v
                == viewport && *t == tabs@[active.0 as int],
    {
        match self.focused_surface {
            Some(surface) => {
                let hit = match self.tree(surface).focused_leaf() {
                    Some(n) => n.0 < self.tree(surface).slots() && match self.tree(surface).node(n) {
                        Node::Leaf { tabs, active, .. } => active.0 < tabs.len(),
                        _ => false,
                    },
                    None => false,
                };
                if !hit {
                    return None;
                }
                self.tree_mut(surface).find_active_focused()
            },
            None => None,
        }
    }

    /// Returns the indices of all non-empty surfaces, in increasing order.
    pub fn valid_surface_indices(&self) -> (r: Vec<SurfaceIndex>)
        ensures
            r@ == valid_indices(self.surface_seq(), self.surface_seq().len() as int),
    {
        let mut out: Vec<SurfaceIndex> = Vec::new();
        let mut i: usize = 0;
        while i < self.surfaces.len()
            invariant
                i <= self.surfaces@.len(),
                out@ == valid_indices(self.surfaces@, i as int),
            decreases self.surfaces@.len() - i,
        {
            if !self.surfaces[i].is_empty() {
                out.push(SurfaceIndex(i));
            }
            i = i + 1;
        }
        out
    }

    /// Mutably borrows every surface, by index.
    ///
    /// What is written through the borrow is not checked: the dock state is well
    /// formed afterwards only if the writes keep it so.
    pub fn iter_surfaces_mut(&mut self) -> (r: &mut [Surface<Tab>])
        ensures
            r@ == old(self).surface_seq(),
            final(self).surface_seq() == final(r)@,
            final(self).focus() == old(self).focus(),
            final(self).labels() == old(self).labels(),
    {
        self.surfaces.as_mut_slice()
    }

    /// Borrows every surface, by index.
    pub fn iter_surfaces(&self) -> (r: Vec<&Surface<Tab>>)
        ensures
            r@.len() == self.surface_seq().len(),
            forall|j: int| 0 <= j < r@.len() ==> *r@[j] == self.surface_seq()[j],
    {
        let mut out: Vec<&Surface<Tab>> = Vec::new();
        let mut i: usize = 0;
        while i < self.surfaces.len()
            invariant
                i <= self.surfaces@.len(),
                out@.len() == i,
                forall|j: int| 0 <= j < i ==> *out@[j] == self.surfaces@[j],
            decreases self.surfaces@.len() - i,
        {
            out.push(&self.surfaces[i]);
            i = i + 1;
        }
        out
    }

    /// Borrows every node of every surface, each with the index of its surface.
    pub fn iter_all_nodes(&self) -> (r: Vec<(SurfaceIndex, &Node<Tab>)>)
        ensures
            ({
                let all = surface_indexed_nodes(self.surface_seq(), self.surface_seq().len() as int);
                &&& r@.len() == all.len()
                &&& forall|j: int| 0 <= j < r@.len() ==> r@[j].0 == all[j].0 && *r@[j].1 == all[j].1
            }),
    {
        let mut out: Vec<(SurfaceIndex, &Node<Tab>)> = Vec::new();
        let mut q: usize = 0;
        while q < self.surfaces.len()
            invariant
                q <= self.surfaces@.len(),
                out@.len() == surface_indexed_nodes(self.surfaces@, q as int).len(),
                forall|j: int|
                    0 <= j < out@.len() ==> out@[j].0 == surface_indexed_nodes(self.surfaces@, q as int)[j].0
                        && *out@[j].1 == surface_indexed_nodes(self.surfaces@, q as int)[j].1,
            decreases self.surfaces@.len() - q,
        {
            let ghost prev = surface_indexed_nodes(self.surfaces@, q as int);
            let ghost next = surface_indexed_nodes(self.surfaces@, q as int + 1);
            let ghost mapped = self.surfaces@[q as int].node_seq().map_values(|n: Node<Tab>| (SurfaceIndex(q), n));
            proof {
                assert(next == prev + mapped);
            }
            let nodes = self.surfaces[q].iter_nodes();
            let mut k: usize = 0;
            while k < nodes.len()
                invariant
                    nodes@.len() == self.surfaces@[q as int].node_seq().len(),
                    forall|j: int| 0 <= j < nodes@.len() ==> *nodes@[j] == self.surfaces@[q as int].node_seq()[j],
                    next == prev + mapped,
                    mapped == self.surfaces@[q as int].node_seq().map_values(|n: Node<Tab>| (SurfaceIndex(q), n)),
                    k <= nodes@.len(),
                    out@.len() == prev.len() + k,
                    forall|j: int| 0 <= j < out@.len() ==> out@[j].0 == next[j].0 && *out@[j].1 == next[j].1,
                decreases nodes@.len() - k,
            {
                out.push((SurfaceIndex(q), nodes[k]));
                k = k + 1;
            }
            q = q + 1;
        }
        out
    }

    /// Borrows every tab of every surface, each with the indices of its surface and its
    /// node.
    pub fn iter_all_tabs(&self) -> (r: Vec<((SurfaceIndex, NodeIndex), &Tab)>)
        ensures
            ({
                let all = surface_indexed_tabs(self.surface_seq(), self.surface_seq().len() as int);
                &&& r@.len() == all.len()
                &&& forall|j: int| 0 <= j < r@.len() ==> r@[j].0 == all[j].0 && *r@[j].1 == all[j].1
            }),
    {
        let mut out: Vec<((SurfaceIndex, NodeIndex), &Tab)> = Vec::new();
        let mut q: usize = 0;
        while q < self.surfaces.len()
            invariant
                q <= self.surfaces@.len(),
                out@.len() == surface_indexed_tabs(self.surfaces@, q as int).len(),
                forall|j: int|
                    0 <= j < out@.len() ==> out@[j].0 == surface_indexed_tabs(self.surfaces@, q as int)[j].0
                        && *out@[j].1 == surface_indexed_tabs(self.surfaces@, q as int)[j].1,
            decreases self.surfaces@.len() - q,
        {
            let ghost prev = surface_indexed_tabs(self.surfaces@, q as int);
            let ghost next = surface_indexed_tabs(self.surfaces@, q as int + 1);
            let ghost entries = indexed_tabs(self.surfaces@[q as int].node_seq());
            let ghost mapped = entries.map_values(|e: (NodeIndex, Tab)| ((SurfaceIndex(q), e.0), e.1));
            proof {
                assert(next == prev + mapped);
            }
            let tabs = self.surfaces[q].iter_all_tabs();
            let mut k: usize = 0;
            while k < tabs.len()
                invariant
                    tabs@.len() == entries.len(),
                    forall|j: int| 0 <= j < tabs@.len() ==> tabs@[j].0 == entries[j].0 && *tabs@[j].1 == entries[j].1,
                    next == prev + mapped,
                    mapped == entries.map_values(|e: (NodeIndex, Tab)| ((SurfaceIndex(q), e.0), e.1)),
                    k <= tabs@.len(),
                    out@.len() == prev.len() + k,
                    forall|j: int| 0 <= j < out@.len() ==> out@[j].0 == next[j].0 && *out@[j].1 == next[j].1,
                decreases tabs@.len() - k,
            {
                let (n, t) = tabs[k];
                out.push(((SurfaceIndex(q), n), t));
                k = k + 1;
            }
            q = q + 1;
        }
        out
    }

    /// Borrows the nodes of the main surface.
    pub fn iter_main_surface_nodes(&self) -> (r: Vec<&Node<Tab>>)
        requires
            self.wf(),
        ensures
            r@.len() == self.tree_at(SurfaceIndex(0)).nodes().len(),
            forall|j: int| 0 <= j < r@.len() ==> *r@[j] == self.tree_at(SurfaceIndex(0)).nodes()[j],
    {
        self.main_surface().iter()
    }

    /// Mutably borrows the nodes of the main surface.
    pub fn iter_main_surface_nodes_mut(&mut self) -> (r: &mut [Node<Tab>])
        requires
            old(self).wf(),
        ensures
            r@ == old(self).tree_at(SurfaceIndex(0)).nodes(),
            final(self).surface_seq().len() == old(self).surface_seq().len(),
            forall|i: int| 0 < i < old(self).surface_seq().len() ==> final(self).surface_seq()[i] == old(self).surface_seq()[i],
            final(self).surface_seq()[0] is Main,
            final(self).tree_at(SurfaceIndex(0)).nodes() == final(r)@,
            final(self).tree_at(SurfaceIndex(0)).focus() == old(self).tree_at(SurfaceIndex(0)).focus(),
            final(self).focus() == old(self).focus(),
            final(self).labels() == old(self).labels(),
    {
        self.main_surface_mut().iter_mut()
    }

    /// Returns a new dock state with the same surfaces, focus and translations, where
    /// every tab is replaced by what `function` gives for it.
    pub fn map_tabs<NewTab, F: Fn(&Tab) -> NewTab>(&self, function: F) -> (r: DockState<NewTab>)
        requires
            forall|t: &Tab| #[trigger] function.requires((t,)),
        ensures
            r.surface_seq().len() == self.surface_seq().len(),
            forall|i: int|
                0 <= i < self.surface_seq().len() ==> self.surface_seq()[i].mapped_by(
                    function,
                    #[trigger] r.surface_seq()[i],
                ),
            r.focus() == self.focus(),
            r.labels() == self.labels(),
            self.wf() ==> r.wf(),
    {
        let mut surfaces: Vec<Surface<NewTab>> = Vec::new();
        let mut i: usize = 0;
        while i < self.surfaces.len()
            invariant
                forall|t: &Tab| #[trigger] function.requires((t,)),
                i <= self.surfaces@.len(),
                surfaces@.len() == i,
                forall|q: int| 0 <= q < i ==> self.surfaces@[q].mapped_by(function, #[trigger] surfaces@[q]),
            decreases self.surfaces@.len() - i,
        {
            let surface = self.surfaces[i].map_tabs_with(&function);
            surfaces.push(surface);
            i = i + 1;
        }
        let r = DockState { surfaces, focused_surface: self.focused_surface, translations: self.translations.duplicate() };
        proof {
            if self.wf() {
                assert forall|q: int|
                    0 <= q < r.surfaces@.len() && !(#[trigger] r.surfaces@[q] is Empty) implies r.surfaces@[q].tree().wf() by {
                    assert(self.surfaces@[q].mapped_by(function, r.surfaces@[q]));
                }
                assert(self.surfaces@[0].mapped_by(function, r.surfaces@[0]));
            }
        }
        r
    }

    /// Borrows every node of every surface, in surface order and then in position order.
    pub fn iter_nodes(&self) -> (r: Vec<&Node<Tab>>)
        ensures
            ({
                let all = surface_indexed_nodes(self.surface_seq(), self.surface_seq().len() as int);
                &&& r@.len() == all.len()
                &&& forall|j: int| 0 <= j < r@.len() ==> *r@[j] == all[j].1
            }),
    {
        let all = self.iter_all_nodes();
        let mut out: Vec<&Node<Tab>> = Vec::new();
        let mut k: usize = 0;
        while k < all.len()
            invariant
                k <= all@.len(),
                out@.len() == k,
                forall|j: int| 0 <= j < k ==> *out@[j] == *all@[j].1,
            decreases all@.len() - k,
        {
            out.push(all[k].1);
            k = k + 1;
        }
        out
    }

    /// Returns the current number of surfaces.
    pub fn surfaces_count(&self) -> (r: usize)
        ensures
            r == self.surface_seq().len(),
    {
        self.surfaces.len()
    }
}

impl<Tab: PartialEq> DockState<Tab> {
    /// `r` is the outcome of searching all surfaces for `needle`: a found location
    /// names a tab of a leaf of a non-empty surface, and (where `==` on tabs obeys its
    /// specification) it is the first match in surface order and then in position
    /// order, while `None` means that no tab matches.
    pub open spec fn tab_search_all(&self, needle: Tab, r: Option<(SurfaceIndex, NodeIndex, TabIndex)>) -> bool {
        match r {
            Some((s, n, t)) => {
                &&& self.valid(s)
                &&& tab_search(self.tree_at(s).nodes(), needle, Some((n, t)))
                &&& Tab::obeys_eq_spec() ==> forall|k: int, i: int, j: int|
                    0 <= k < s.0 && !(self.surface_seq()[k] is Empty) ==> !#[trigger] tab_matches(
                        self.surface_seq()[k].tree().nodes(),
                        needle,
                        i,
                        j,
                    )
            },
            None => Tab::obeys_eq_spec() ==> forall|k: int, i: int, j: int|
                0 <= k < self.surface_seq().len() && !(self.surface_seq()[k] is Empty) ==> !#[trigger] tab_matches(
                    self.surface_seq()[k].tree().nodes(),
                    needle,
                    i,
                    j,
                ),
        }
    }

    /// Find the given tab: returns its surface, its leaf and its index there. In case
    /// there are several hits, only the first (by surface, then by node) is returned.
    pub fn find_tab(&self, needle_tab: &Tab) -> (r: Option<(SurfaceIndex, NodeIndex, TabIndex)>)
        ensures
            self.tab_search_all(*needle_tab, r),
    {
        let mut k: usize = 0;
        while k < self.surfaces.len()
            invariant
                k <= self.surfaces@.len(),
                Tab::obeys_eq_spec() ==> forall|q: int, i: int, j: int|
                    0 <= q < k && !(self.surfaces@[q] is Empty) ==> !#[trigger] tab_matches(
                        self.surfaces@[q].tree().nodes(),
                        *needle_tab,
                        i,
                        j,
                    ),
            decreases self.surfaces@.len() - k,
        {
            if self.is_surface_valid(SurfaceIndex(k)) {
                match self.tree(SurfaceIndex(k)).find_tab(needle_tab) {
                    Some((node_index, tab_index)) => {
                        return Some((SurfaceIndex(k), node_index, tab_index));
                    },
                    None => {},
                }
            }
            k = k + 1;
        }
        None
    }

    /// Find the given tab on the main surface: returns its leaf and its index there.
    /// In case there are several hits, only the first is returned.
    pub fn find_main_surface_tab(&self, needle_tab: &Tab) -> (r: Option<(NodeIndex, TabIndex)>)
        requires
            self.wf(),
        ensures
            tab_search(self.tree_at(SurfaceIndex(0)).nodes(), *needle_tab, r),
    {
        self.tree(SurfaceIndex::main()).find_tab(needle_tab)
    }
}

/// The first empty surface from `i` on is empty, at least `i`, and at most the number
/// of surfaces.
pub proof fn lemma_first_empty_surface<Tab>(surfaces: Seq<Surface<Tab>>, i: int)
    requires
        0 <= i,
    ensures
        i <= first_empty_surface(surfaces, i) <= surfaces.len() || (i > surfaces.len()
            && first_empty_surface(surfaces, i) == surfaces.len()),
        first_empty_surface(surfaces, i) < surfaces.len() ==> surfaces[first_empty_surface(surfaces, i)] is Empty,
    decreases surfaces.len() - i,
{
    if i < surfaces.len() && !(surfaces[i] is Empty) {
        lemma_first_empty_surface(surfaces, i + 1);
    }
}

/// Surfaces that are empty at the same indices have the same first empty surface.
pub proof fn lemma_first_empty_surface_same<Tab>(a: Seq<Surface<Tab>>, b: Seq<Surface<Tab>>, i: int)
    requires
        a.len() == b.len(),
        forall|j: int| 0 <= j < a.len() ==> (#[trigger] a[j] is Empty <==> b[j] is Empty),
    ensures
        first_empty_surface(a, i) == first_empty_surface(b, i),
    decreases a.len() - i,
{
    if 0 <= i < a.len() && !(a[i] is Empty) {
        lemma_first_empty_surface_same(a, b, i + 1);
    }
}

/// Removing a surface leaves every other surface at its index: a window's index stays
/// valid, and names the same window, for as long as the window lives.
pub proof fn lemma_removal_keeps_other_surfaces<Tab>(surfaces: Seq<Surface<Tab>>, s: int, w: int)
    requires
        0 <= s < surfaces.len(),
        0 <= w < surfaces.len(),
        w != s,
    ensures
        w < surface_removed(surfaces, s).len(),
        surface_removed(surfaces, s)[w] == surfaces[w],
{
}

/// Placing a new surface leaves every other surface at its index.
pub proof fn lemma_placing_keeps_other_surfaces<Tab>(surfaces: Seq<Surface<Tab>>, i: int, x: Surface<Tab>, w: int)
    requires
        0 <= i <= surfaces.len(),
        0 <= w < surfaces.len(),
        w != i,
    ensures
        w < placed(surfaces, i, x).len(),
        placed(surfaces, i, x)[w] == surfaces[w],
{
}

} // verus!
