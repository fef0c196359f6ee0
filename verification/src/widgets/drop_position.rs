use vstd::prelude::*;

use crate::dock_state::SurfaceIndex;
use crate::tree::{NodeIndex, TabIndex};

verus! {

/// Specifies the location of a tab on the tree, used when moving tabs: a surface, a
/// node of a surface, or a tab of a node.
#[derive(Clone, Copy, Debug, PartialEq, Eq, Structural)]
pub enum DropPosition {
    /// A whole surface.
    Surface(SurfaceIndex),
    /// A node of a surface.
    Node(SurfaceIndex, NodeIndex),
    /// A tab of a node of a surface.
    Tab(SurfaceIndex, NodeIndex, TabIndex),
}

impl DropPosition {
    /// The surface, and the node if there is one.
    pub fn break_down(&self) -> (r: (SurfaceIndex, Option<NodeIndex>))
        ensures
            r == (match *self {
                DropPosition::Surface(s) => (s, None),
                DropPosition::Node(s, n) => (s, Some(n)),
                DropPosition::Tab(s, n, _) => (s, Some(n)),
            }),
    {
        match self {
            DropPosition::Surface(surface) => (*surface, None),
            DropPosition::Node(surface, node) => (*surface, Some(*node)),
            DropPosition::Tab(surface, node, _) => (*surface, Some(*node)),
        }
    }

    /// The surface.
    pub fn surface_index(&self) -> (r: SurfaceIndex)
        ensures
            r == (match *self {
                DropPosition::Surface(s) => s,
                DropPosition::Node(s, _) => s,
                DropPosition::Tab(s, _, _) => s,
            }),
    {
        match self {
            DropPosition::Surface(surface) => *surface,
            DropPosition::Node(surface, _) => *surface,
            DropPosition::Tab(surface, _, _) => *surface,
        }
    }

    /// Whether this is a whole surface.
    pub fn is_surface(&self) -> (r: bool)
        ensures
            r == (*self is Surface),
    {
        match self {
            DropPosition::Surface(_) => true,
            _ => false,
        }
    }
}

} // verus!
