use vstd::prelude::*;

use crate::geometry::{spec_rect_nothing, Pos2, Rect, Vec2};

verus! {

/// A size requested for a window, to be applied the next time it is shown.
#[derive(Clone, Copy, Debug, PartialEq, Eq, Structural)]
pub enum WindowSize {
    /// Exactly this size.
    Exact(Vec2),
    /// The size of this rectangle.
    OfRect(Rect),
    /// Four fifths of the size of this rectangle (a tab torn off the main surface
    /// opens a window somewhat smaller than the area it came from).
    ShrunkOfRect(Rect),
}

/// The state of a [`Surface::Window`](crate::Surface::Window).
///
/// Doubles as a handle for the surface, allowing the user to set its size and position.
#[derive(Clone, Copy, Debug, PartialEq, Eq, Structural)]
pub struct WindowState {
    /// The [`Rect`] that this window was last taking up.
    screen_rect: Option<Rect>,
    /// Was this window dragged in the last frame?
    dragged: bool,
    /// The next position this window should be set to next frame.
    next_position: Option<Pos2>,
    /// The next size this window should be set to next frame.
    next_size: Option<WindowSize>,
    /// `true` until the window has been drawn once.
    new: bool,
}

/// What a [`WindowState`] holds.
pub struct WindowStateView {
    /// The rectangle that the window was last taking up.
    pub screen_rect: Option<Rect>,
    /// Whether the window was dragged in the last frame.
    pub dragged: bool,
    /// The position to give the window next.
    pub next_position: Option<Pos2>,
    /// The size to give the window next.
    pub next_size: Option<WindowSize>,
    /// Whether the window has not been drawn yet.
    pub new: bool,
}

impl View for WindowState {
    type V = WindowStateView;

    closed spec fn view(&self) -> WindowStateView {
        WindowStateView {
            screen_rect: self.screen_rect,
            dragged: self.dragged,
            next_position: self.next_position,
            next_size: self.next_size,
            new: self.new,
        }
    }
}

impl WindowState {
    /// The state of a window that has never been shown: no rectangle, not dragged,
    /// no pending position or size.
    pub open spec fn spec_fresh() -> WindowStateView {
        WindowStateView { screen_rect: None, dragged: false, next_position: None, next_size: None, new: true }
    }

    /// Create a default window state.
    pub fn new() -> (r: Self)
        ensures
            r@ == Self::spec_fresh(),
    {
        WindowState { screen_rect: None, dragged: false, next_position: None, next_size: None, new: true }
    }

    /// Set the position for this window in screen coordinates.
    pub fn set_position(&mut self, position: Pos2) -> (r: &mut Self)
        ensures
            (*r)@ == (WindowStateView { next_position: Some(position), ..old(self)@ }),
            *final(self) == *final(r),
    {
        self.next_position = Some(position);
        self
    }

    /// Set the size of this window in egui points.
    pub fn set_size(&mut self, size: Vec2) -> (r: &mut Self)
        ensures
            (*r)@ == (WindowStateView { next_size: Some(WindowSize::Exact(size)), ..old(self)@ }),
            *final(self) == *final(r),
    {
        self.next_size = Some(WindowSize::Exact(size));
        self
    }

    /// Requests a size for this window, to be applied the next time it is shown.
    pub fn request_size(&mut self, size: WindowSize)
        ensures
            final(self)@ == (WindowStateView { next_size: Some(size), ..old(self)@ }),
    {
        self.next_size = Some(size);
    }

    /// Get the [`Rect`] which this window occupies.
    /// If this window hasn't been shown before, this will be [`Rect::nothing`].
    pub fn rect(&self) -> (r: Rect)
        ensures
            r == (match self@.screen_rect {
                Some(rect) => rect,
                None => spec_rect_nothing(),
            }),
    {
        match self.screen_rect {
            Some(rect) => rect,
            None => Rect::nothing(),
        }
    }

    /// Returns if this window is currently being dragged or not.
    pub fn dragged(&self) -> (r: bool)
        ensures
            r == self@.dragged,
    {
        self.dragged
    }

    /// Takes the pending position, leaving none.
    pub fn next_position(&mut self) -> (r: Option<Pos2>)
        ensures
            r == old(self)@.next_position,
            final(self)@ == (WindowStateView { next_position: None, ..old(self)@ }),
    {
        self.next_position.take()
    }

    /// Takes the pending size, leaving none.
    pub fn next_size(&mut self) -> (r: Option<WindowSize>)
        ensures
            r == old(self)@.next_size,
            final(self)@ == (WindowStateView { next_size: None, ..old(self)@ }),
    {
        self.next_size.take()
    }

    /// Prepares the window for drawing: returns whether it is drawn for the first
    /// time, with the pending position and size, which are taken; the window is no
    /// longer new afterwards.
    pub fn prepare_window(&mut self) -> (r: (bool, Option<Pos2>, Option<WindowSize>))
        ensures
            r == (old(self)@.new, old(self)@.next_position, old(self)@.next_size),
            final(self)@ == (WindowStateView {
                next_position: None,
                next_size: None,
                new: false,
                ..old(self)@
            }),
    {
        let new = self.new;
        let position = self.next_position();
        let size = self.next_size();
        self.new = false;
        (new, position, size)
    }
}

impl Default for WindowState {
    fn default() -> (r: Self)
        ensures
            r@ == Self::spec_fresh(),
    {
        Self::new()
    }
}

} // verus!
