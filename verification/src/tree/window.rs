use vstd::prelude::*;

use crate::geometry::{spec_rect_nothing, Pos2, Rect};

verus! {

/// A window which can display a detached tab.
#[derive(Debug, Clone)]
pub struct TabWindow<Tab> {
    /// The tab shown in the window.
    pub tab: Tab,
    /// The rectangle the window took up when it was last shown.
    pub screen_rect: Rect,
    /// Whether the window was being dragged when it was last shown.
    pub dragged: bool,
    /// Where the window should move the next time it is shown.
    pub next_position: Option<Pos2>,
}

impl<Tab> TabWindow<Tab> {
    /// Create a new window with a given tab shown inside.
    pub fn new(content: Tab) -> (r: Self)
        ensures
            r.tab == content,
            r.screen_rect == spec_rect_nothing(),
            !r.dragged,
            r.next_position is None,
    {
        TabWindow { tab: content, screen_rect: Rect::nothing(), dragged: false, next_position: None }
    }

    /// Destroy the window and get the tab back.
    pub fn into_tab(self) -> (r: Tab)
        ensures
            r == self.tab,
    {
        self.tab
    }

    /// Give the window a new location on the screen.
    pub fn set_position(&mut self, position: Pos2)
        ensures
            *final(self) == (TabWindow { next_position: Some(position), ..*old(self) }),
    {
        self.next_position = Some(position);
    }
}

} // verus!
