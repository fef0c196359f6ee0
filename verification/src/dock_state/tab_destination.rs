use vstd::prelude::*;
use vstd::std_specs::convert::FromSpecImpl;

use super::surface_index::SurfaceIndex;
use crate::geometry::Rect;
use crate::tree::{NodeIndex, TabInsert};

verus! {

/// The destination for a tab which is being moved.
#[derive(Clone, Copy, Debug, PartialEq, Eq, Structural)]
pub enum TabDestination {
    /// Move to a new window with this rect.
    Window(Rect),
    /// Move to an existing node with this insertion.
    Node(SurfaceIndex, NodeIndex, TabInsert),
    /// Move to an empty surface.
    EmptySurface(SurfaceIndex),
}

impl From<(SurfaceIndex, NodeIndex, TabInsert)> for TabDestination {
    fn from(value: (SurfaceIndex, NodeIndex, TabInsert)) -> (r: TabDestination)
        ensures
            r == TabDestination::Node(value.0, value.1, value.2),
    {
        TabDestination::Node(value.0, value.1, value.2)
    }
}

impl FromSpecImpl<(SurfaceIndex, NodeIndex, TabInsert)> for TabDestination {
    open spec fn obeys_from_spec() -> bool {
        true
    }

    open spec fn from_spec(v: (SurfaceIndex, NodeIndex, TabInsert)) -> TabDestination {
        TabDestination::Node(v.0, v.1, v.2)
    }
}

impl From<SurfaceIndex> for TabDestination {
    fn from(value: SurfaceIndex) -> (r: TabDestination)
        ensures
            r == TabDestination::EmptySurface(value),
    {
        TabDestination::EmptySurface(value)
    }
}

impl FromSpecImpl<SurfaceIndex> for TabDestination {
    open spec fn obeys_from_spec() -> bool {
        true
    }

    open spec fn from_spec(v: SurfaceIndex) -> TabDestination {
        TabDestination::EmptySurface(v)
    }
}

impl TabDestination {
    /// Returns if this tab destination is a [`Window`](TabDestination::Window).
    pub fn is_window(&self) -> (r: bool)
        ensures
            r == (self is Window),
    {
        match self {
            TabDestination::Window(_) => true,
            _ => false,
        }
    }
}

} // verus!
