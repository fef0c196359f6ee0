//! Docking layout for tabbed user interfaces: a collection of surfaces, each
//! holding a binary tree of split nodes and leaves, each leaf holding tabs.

pub mod dock_state;
pub mod geometry;
pub mod tree;
pub mod widgets;

pub use dock_state::{
    DockState, LeafTranslations, Surface, SurfaceIndex, TabContextMenuTranslations, TabDestination,
    TabRemoval, Translations, WindowSize, WindowState, WindowStateView,
};
pub use geometry::{Pos2, Rect, Vec2};
pub use tree::{Node, NodeIndex, Split, TabIndex, TabInsert, TabWindow, Tree, WindowIndex};
pub use widgets::{AllowedSplits, DropPosition, DynamicTabViewer};
