//! The decisions that the dock area widget makes about its layout, apart from
//! drawing.

/// What directions a dock can be split in.
pub mod allowed_splits;
/// Where a dragged tab is or would be dropped.
pub mod drop_position;
/// The tab viewer for tabs that show themselves.
pub mod dynamic_tab_viewer;

pub use allowed_splits::AllowedSplits;
pub use drop_position::DropPosition;
pub use dynamic_tab_viewer::DynamicTabViewer;
