use vstd::prelude::*;
use vstd::std_specs::convert::FromSpecImpl;

use super::{first_empty_surface, surface_removed, DockState, SurfaceIndex, TabDestination};
use crate::geometry::Rect;
use crate::tree::{all_tabs, tabs_upto, with_active, NodeIndex, TabIndex, TabInsert};

verus! {

/// Something closed while a frame is drawn, removed once the frame is done.
#[derive(Clone, Copy, Debug, PartialEq, Eq, Structural)]
pub enum TabRemoval {
    /// The tab at this surface, node and tab index.
    Node(SurfaceIndex, NodeIndex, TabIndex),
    /// The window at this surface index.
    Window(SurfaceIndex),
}

impl From<(SurfaceIndex, NodeIndex, TabIndex)> for TabRemoval {
    fn from(location: (SurfaceIndex, NodeIndex, TabIndex)) -> (r: TabRemoval)
        ensures
            r == TabRemoval::Node(location.0, location.1, location.2),
    {
        TabRemoval::Node(location.0, location.1, location.2)
    }
}

impl FromSpecImpl<(SurfaceIndex, NodeIndex, TabIndex)> for TabRemoval {
    open spec fn obeys_from_spec() -> bool {
        true
    }

    open spec fn from_spec(v: (SurfaceIndex, NodeIndex, TabIndex)) -> TabRemoval {
        TabRemoval::Node(v.0, v.1, v.2)
    }
}

/// A removal that may be applied: the main surface is never removed as a window.
pub open spec fn removal_allowed(removal: TabRemoval) -> bool {
    removal matches TabRemoval::Window(s) ==> s.0 != 0
}

impl<Tab> DockState<Tab> {
    /// `after` holds what `self` holds: the same surfaces, focus and translations.
    pub open spec fn same_as(&self, after: &Self) -> bool {
        &&& after.surface_seq() == self.surface_seq()
        &&& after.focus() == self.focus()
        &&& after.labels() == self.labels()
    }

    /// `after` is `self` with the surface at `s` removed (the focus then moves to the
    /// main surface), or `self` itself when there is no surface at `s`.
    pub open spec fn surface_dropped(&self, s: SurfaceIndex, after: &Self) -> bool {
        if s.0 < self.surface_seq().len() {
            &&& after.surface_seq() == surface_removed(self.surface_seq(), s.0 as int)
            &&& after.focus() == Some(SurfaceIndex(0))
            &&& after.labels() == self.labels()
        } else {
            self.same_as(after)
        }
    }

    /// One removal applied to `self`. A tab is removed as
    /// [`remove_tab`](Self::remove_tab) removes it; when the surface holds no such tab
    /// the surface is still removed if it is a window whose tree has no node left; and
    /// a removal on a surface that is not valid changes nothing. A window is removed
    /// as [`remove_surface`](Self::remove_surface) removes it.
    pub open spec fn removal_applied(&self, removal: TabRemoval, after: &Self) -> bool {
        match removal {
            TabRemoval::Node(s, n, t) => if !self.valid(s) {
                self.same_as(after)
            } else if self.holds_tab((s, n, t)) {
                self.tab_removed_at((s, n, t), after)
            } else {
                self.surface_cleaned(s, after)
            },
            TabRemoval::Window(s) => self.surface_dropped(s, after),
        }
    }

    /// The removals `rs` applied to `self` one by one, the last one first.
    pub open spec fn removals_applied(&self, rs: Seq<TabRemoval>, after: &Self) -> bool
        decreases rs.len(),
    {
        if rs.len() == 0 {
            self.same_as(after)
        } else {
            exists|mid: Self|
                #[trigger] self.removal_applied(rs.last(), &mid) && mid.removals_applied(rs.drop_last(), after)
        }
    }

    /// The tab at `src` taken out into a new window over `rect`, as
    /// [`detach_tab`](Self::detach_tab) does; nothing changes when `src` names no tab.
    pub open spec fn detach_applied(&self, src: (SurfaceIndex, NodeIndex, TabIndex), rect: Rect, after: &Self) -> bool {
        if self.holds_tab(src) {
            exists|m1: Self, m2: Self, m3: Self|
                #[trigger] self.detach_steps(
                    src,
                    rect,
                    SurfaceIndex(first_empty_surface(self.surface_seq(), 1) as usize),
                    m1,
                    m2,
                    m3,
                    after,
                )
        } else {
            self.same_as(after)
        }
    }

    /// The detaches `ds` applied to `self` one by one, the last one first.
    pub open spec fn detaches_applied(&self, ds: Seq<((SurfaceIndex, NodeIndex, TabIndex), Rect)>, after: &Self) -> bool
        decreases ds.len(),
    {
        if ds.len() == 0 {
            self.same_as(after)
        } else {
            exists|mid: Self|
                #[trigger] self.detach_applied(ds.last().0, ds.last().1, &mid) && mid.detaches_applied(
                    ds.drop_last(),
                    after,
                )
        }
    }

    /// The focus moved to `focus` (see [`focus_moved`](Self::focus_moved)), or left
    /// alone when there is none.
    pub open spec fn focus_applied(&self, focus: Option<(SurfaceIndex, NodeIndex)>, after: &Self) -> bool {
        match focus {
            Some(location) => self.focus_moved(location, after),
            None => self.same_as(after),
        }
    }

    /// What [`move_tab`](Self::move_tab) asks of its arguments: a tab at `src` and a
    /// destination that can take it (see [`move_checked`](Self::move_checked)), or a
    /// leaf at `src` whose only tab is moved into that same leaf, which does nothing
    /// whatever the tab and insertion indices.
    pub open spec fn move_allowed(&self, src: (SurfaceIndex, NodeIndex, TabIndex), dst: TabDestination) -> bool {
        ||| self.move_checked(src, dst)
        ||| {
            &&& self.valid(src.0)
            &&& src.1.0 < self.tree_at(src.0).nodes().len()
            &&& self.tree_at(src.0).nodes()[src.1.0 as int] is Leaf
            &&& self.is_noop_move(src, dst)
        }
    }

    /// A tab at `src`, and a destination that can take it: a leaf of a valid surface
    /// (with an insertion index within its tabs, and room to grow for a split), or a
    /// valid surface without nodes.
    pub open spec fn move_checked(&self, src: (SurfaceIndex, NodeIndex, TabIndex), dst: TabDestination) -> bool {
        &&& self.holds_tab(src)
        &&& match dst {
            TabDestination::Node(s, n, insert) => {
                &&& self.valid(s)
                &&& n.0 < self.tree_at(s).nodes().len()
                &&& self.tree_at(s).nodes()[n.0 as int] is Leaf
                &&& insert matches TabInsert::Insert(i) ==> i.0 <= self.tree_at(s).nodes()[n.0 as int].tab_seq().len()
                    - (if s == src.0 && n == src.1 { 1int } else { 0int })
                &&& insert is Split ==> self.tree_at(s).nodes().len() <= usize::MAX / 8
            },
            TabDestination::EmptySurface(s) => self.valid(s) && self.tree_at(s).nodes().len() == 0,
            TabDestination::Window(_) => true,
        }
    }

    /// The tab at `src` moved to `dst`, as [`move_tab`](Self::move_tab) moves it.
    pub open spec fn tab_moved(&self, src: (SurfaceIndex, NodeIndex, TabIndex), dst: TabDestination, after: &Self) -> bool {
        &&& dst matches TabDestination::Window(rect) ==> exists|m1: Self, m2: Self, m3: Self|
            #[trigger] self.detach_steps(
                src,
                rect,
                SurfaceIndex(first_empty_surface(self.surface_seq(), 1) as usize),
                m1,
                m2,
                m3,
                after,
            )
        &&& self.is_noop_move(src, dst) ==> self.same_as(after)
        &&& !(dst is Window) && !self.is_noop_move(src, dst) ==> exists|m1: Self, m2: Self, m3: Self|
            #[trigger] self.move_steps(src, dst, m1, m2, m3, after)
    }

    /// The drop of a dragged tab: the move it asks for when
    /// [`move_tab`](Self::move_tab) accepts it, and nothing otherwise.
    pub open spec fn drop_applied(
        &self,
        drop: Option<((SurfaceIndex, NodeIndex, TabIndex), TabDestination)>,
        after: &Self,
    ) -> bool {
        match drop {
            Some((src, dst)) => if self.move_allowed(src, dst) {
                self.tab_moved(src, dst, after)
            } else {
                self.same_as(after)
            },
            None => self.same_as(after),
        }
    }

    /// The actions of a frame in the order a dock area applies them: the removals
    /// (giving `m1`), the detaches (`m2`), the new focus (`m3`), then the drop.
    pub open spec fn frame_steps(
        &self,
        removals: Seq<TabRemoval>,
        detaches: Seq<((SurfaceIndex, NodeIndex, TabIndex), Rect)>,
        focus: Option<(SurfaceIndex, NodeIndex)>,
        drop: Option<((SurfaceIndex, NodeIndex, TabIndex), TabDestination)>,
        m1: Self,
        m2: Self,
        m3: Self,
        after: &Self,
    ) -> bool {
        &&& self.removals_applied(removals, &m1)
        &&& m1.detaches_applied(detaches, &m2)
        &&& m2.focus_applied(focus, &m3)
        &&& m3.drop_applied(drop, after)
    }

    /// Applies one removal.
    fn apply_removal(&mut self, removal: TabRemoval)
        requires
            old(self).wf(),
            removal_allowed(removal),
        ensures
            final(self).wf(),
            old(self).removal_applied(removal, final(self)),
    {
        match removal {
            TabRemoval::Node(s, n, t) => {
                if !self.is_surface_valid(s) {
                    return;
                }
                if n.0 < self.tree(s).slots() && self.tree(s).node(n).is_leaf() && t.0 < self.tree(s).node(
                    n,
                ).tabs_count() {
                    self.remove_tab((s, n, t));
                } else {
                    self.clean_surface(s);
                }
            },
            TabRemoval::Window(s) => {
                self.remove_surface(s);
            },
        }
    }

    /// Applies the detach of the tab at `src` into a window over `rect`.
    fn apply_detach(&mut self, src: (SurfaceIndex, NodeIndex, TabIndex), rect: Rect)
        requires
            old(self).wf(),
        ensures
            final(self).wf(),
            old(self).detach_applied(src, rect, final(self)),
            final(self).dock_tabs() == old(self).dock_tabs(),
    {
        let (s, n, t) = src;
        if self.is_surface_valid(s) && n.0 < self.tree(s).slots() && self.tree(s).node(n).is_leaf() && t.0
            < self.tree(s).node(n).tabs_count() {
            let w = self.detach_tab(src, rect);
            proof {
                assert(w == SurfaceIndex(first_empty_surface(old(self).surface_seq(), 1) as usize));
            }
        }
    }

    /// Applies what a dock area collected while it drew a frame, in the order it
    /// applies them: the `removals`, last first (a tab that is no longer there is
    /// skipped); the `detaches`, last first, each taking a tab out into a new window
    /// over the rectangle given with it (skipped when the tab is no longer there);
    /// the new `focus`; and the `drop` of a dragged tab, when
    /// [`move_tab`](Self::move_tab) accepts it.
    pub fn apply_frame_actions(
        &mut self,
        removals: Vec<TabRemoval>,
        detaches: Vec<((SurfaceIndex, NodeIndex, TabIndex), Rect)>,
        focus: Option<(SurfaceIndex, NodeIndex)>,
        drop: Option<((SurfaceIndex, NodeIndex, TabIndex), TabDestination)>,
    )
        requires
            old(self).wf(),
            forall|i: int| 0 <= i < removals@.len() ==> removal_allowed(#[trigger] removals@[i]),
        ensures
            final(self).wf(),
            exists|m1: Self, m2: Self, m3: Self|
                #[trigger] old(self).frame_steps(removals@, detaches@, focus, drop, m1, m2, m3, final(self)),
            removals@.len() == 0 ==> final(self).dock_tabs() == old(self).dock_tabs(),
    {
        let ghost start = *self;
        let mut k = removals.len();
        proof {
            assert(removals@.take(k as int) =~= removals@);
        }
        while k > 0
            invariant
                self.wf(),
                k <= removals@.len(),
                removals@.len() == 0 ==> self.dock_tabs() == start.dock_tabs(),
                forall|i: int| 0 <= i < removals@.len() ==> removal_allowed(#[trigger] removals@[i]),
                forall|a: Self|
                    #[trigger] self.removals_applied(removals@.take(k as int), &a) ==> start.removals_applied(
                        removals@,
                        &a,
                    ),
            decreases k,
        {
            let ghost cur = *self;
            k = k - 1;
            self.apply_removal(removals[k]);
            proof {
                let ghost next = *self;
                let rs = removals@.take(k + 1);
                assert(rs.last() == removals@[k as int]);
                assert(rs.drop_last() =~= removals@.take(k as int));
                assert forall|a: Self| #[trigger] next.removals_applied(removals@.take(k as int), &a) implies start.removals_applied(
                    removals@,
                    &a,
                ) by {
                    assert(cur.removal_applied(rs.last(), &next));
                    assert(cur.removals_applied(rs, &a));
                }
            }
        }
        let ghost m1 = *self;
        proof {
            assert(removals@.take(0) =~= Seq::<TabRemoval>::empty());
            assert(m1.removals_applied(removals@.take(0), &m1));
        }
        let mut j = detaches.len();
        proof {
            assert(detaches@.take(j as int) =~= detaches@);
        }
        while j > 0
            invariant
                self.wf(),
                j <= detaches@.len(),
                self.dock_tabs() == m1.dock_tabs(),
                forall|a: Self|
                    #[trigger] self.detaches_applied(detaches@.take(j as int), &a) ==> m1.detaches_applied(
                        detaches@,
                        &a,
                    ),
            decreases j,
        {
            let ghost cur = *self;
            j = j - 1;
            let (src, rect) = detaches[j];
            self.apply_detach(src, rect);
            proof {
                let ghost next = *self;
                let ds = detaches@.take(j + 1);
                assert(ds.last() == detaches@[j as int]);
                assert(ds.drop_last() =~= detaches@.take(j as int));
                assert forall|a: Self| #[trigger] next.detaches_applied(detaches@.take(j as int), &a) implies m1.detaches_applied(
                    detaches@,
                    &a,
                ) by {
                    assert(cur.detach_applied(ds.last().0, ds.last().1, &next));
                    assert(cur.detaches_applied(ds, &a));
                }
            }
        }
        let ghost m2 = *self;
        proof {
            assert(detaches@.take(0) =~= Seq::<((SurfaceIndex, NodeIndex, TabIndex), Rect)>::empty());
            assert(m2.detaches_applied(detaches@.take(0), &m2));
        }
        if let Some(location) = focus {
            self.set_focused_node_and_surface(location);
        }
        let ghost m3 = *self;
        if let Some((src, dst)) = drop {
            if self.can_move_tab(src, dst) {
                self.move_tab(src, dst);
            }
        }
        proof {
            assert(start.frame_steps(removals@, detaches@, focus, drop, m1, m2, m3, self));
        }
    }

    /// What a request to close the tab at `location` does, once the tab viewer has
    /// answered whether the tab may close (`accepted`): the tab is queued in
    /// `removals`; otherwise it becomes the active tab of its leaf, and that leaf is
    /// to be focused (`focus`).
    pub fn close_tab_request(
        &mut self,
        location: (SurfaceIndex, NodeIndex, TabIndex),
        accepted: bool,
        removals: &mut Vec<TabRemoval>,
        focus: &mut Option<(SurfaceIndex, NodeIndex)>,
    )
        requires
            old(self).wf(),
            old(self).holds_tab(location),
        ensures
            final(self).wf(),
            accepted ==> {
                &&& final(removals)@ == old(removals)@.push(TabRemoval::Node(location.0, location.1, location.2))
                &&& *final(focus) == *old(focus)
                &&& old(self).same_as(final(self))
            },
            !accepted ==> {
                &&& final(removals)@ == old(removals)@
                &&& *final(focus) == Some((location.0, location.1))
                &&& old(self).only_tree_changed(final(self), location.0)
                &&& final(self).focus() == old(self).focus()
                &&& final(self).tree_at(location.0).nodes() == with_active(
                    old(self).tree_at(location.0).nodes(),
                    location.1.0 as int,
                    location.2,
                )
                &&& final(self).tree_at(location.0).focus() == old(self).tree_at(location.0).focus()
            },
    {
        let (s, n, _) = location;
        if accepted {
            removals.push(TabRemoval::from(location));
        } else {
            self.set_active_tab(location);
            *focus = Some((s, n));
        }
    }

    /// Whether the context menu of a tab on `surface` offers to eject it: always on
    /// the main surface, and on a window unless the tab is the only one there.
    pub fn can_eject(&self, surface: SurfaceIndex) -> (r: bool)
        requires
            self.wf(),
            self.valid(surface),
        ensures
            r == (surface.0 == 0 || all_tabs(self.tree_at(surface).nodes()).len() != 1),
    {
        let tree = self.tree(surface);
        // The number of tabs seen so far, counted up to two.
        let mut seen: usize = 0;
        let mut i: usize = 0;
        while i < tree.slots()
            invariant
                i <= tree.nodes().len(),
                seen == (if tabs_upto(tree.nodes(), i as int).len() >= 2 {
                    2
                } else {
                    tabs_upto(tree.nodes(), i as int).len()
                }),
            decreases tree.nodes().len() - i,
        {
            if seen < 2 {
                let c = tree.node(NodeIndex(i)).tabs_count();
                if c >= 2 - seen {
                    seen = 2;
                } else {
                    seen = seen + c;
                }
            }
            i = i + 1;
        }
        surface.is_main() || seen != 1
    }

    /// Whether [`move_tab`](Self::move_tab) accepts moving the tab at `src` to `dst`.
    pub fn can_move_tab(&self, src: (SurfaceIndex, NodeIndex, TabIndex), dst: TabDestination) -> (r: bool)
        requires
            self.wf(),
        ensures
            r == self.move_allowed(src, dst),
    {
        let (ss, sn, st) = src;
        if self.is_surface_valid(ss) && sn.0 < self.tree(ss).slots() && self.tree(ss).node(sn).is_leaf() {
            if let TabDestination::Node(s, n, _) = dst {
                if s == ss && n == sn && self.tree(ss).node(sn).tabs_count() == 1 {
                    return true;
                }
            }
        }
        if !(self.is_surface_valid(ss) && sn.0 < self.tree(ss).slots() && self.tree(ss).node(sn).is_leaf() && st.0
            < self.tree(ss).node(sn).tabs_count()) {
            return false;
        }
        match dst {
            TabDestination::Node(s, n, insert) => {
                if !(self.is_surface_valid(s) && n.0 < self.tree(s).slots() && self.tree(s).node(n).is_leaf()) {
                    return false;
                }
                match insert {
                    TabInsert::Insert(i) => {
                        let count = self.tree(s).node(n).tabs_count();
                        if s == ss && n == sn {
                            i.0 < count
                        } else {
                            i.0 <= count
                        }
                    },
                    TabInsert::Split(_) => self.tree(s).slots() <= usize::MAX / 8,
                    TabInsert::Append => true,
                }
            },
            TabDestination::EmptySurface(s) => self.is_surface_valid(s) && self.tree(s).is_empty(),
            TabDestination::Window(_) => true,
        }
    }
}

} // verus!
