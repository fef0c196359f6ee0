# egui_dock

Docking layout for tabbed user interfaces, verified with Verus.

A `DockState` holds surfaces: the main surface at index 0 and windows. Each
non-empty surface holds a `Tree`: a binary tree of split nodes and leaves stored
in a vector in heap layout (the children of position `n` are at `2n + 1` and
`2n + 2`), and each leaf holds tabs.

The heap layout is a deliberate choice: a node's index is its position, so the
shape of the tree needs no links and no free list, and every proof about the
shape is a statement about positions. It has consequences that a caller sees:

- Splitting a leaf at `n` makes `n` a split node and puts the old leaf and the
  new one at `2n + 1` and `2n + 2` (which one goes where follows the direction).
  Only leaves can be split.
- Removing a leaf moves its sibling's subtree up one level into the parent's
  position, so the indices inside that subtree change; the focus follows a
  focused leaf there. A removed leaf that had the focus leaves no leaf focused.
- `retain_tabs`, `filter_tabs` and `filter_map_tabs` change or copy what leaves
  hold and then remove the leaves left without tabs one by one, as
  `remove_empty_leaf` does.
- `len` counts the nodes; `iter` and `iter_mut` walk every position, empty ones
  included, and `breadth_first_index_iter` lists the positions that hold a node,
  which in heap layout is breadth-first order.

- `src/tree/`: nodes, the tree, its heap layout (`layout.rs`), the shifting of a
  subtree when a leaf is removed (`shift.rs`), and the tabs of a tree as a
  multiset (`contents.rs`).
- `src/dock_state/`: surfaces, window states, translations, the dock state, the
  tabs of all its surfaces (`contents.rs`), and what a dock area does to the dock
  state once a frame is drawn: closing, ejecting, focusing and dropping tabs
  (`frame.rs`).
- `src/widgets/`: the decisions of the dock area that do not involve drawing.
- `src/geometry.rs`: rectangles and positions, each coordinate held as the bit
  pattern of a single-precision number; the layout stores and copies them but
  never computes with them.
- `app/`: the egui side: the `DockArea` widget, styles, the `TabViewer` trait,
  boxed tabs, conversions between the layout's geometry and egui's, and window
  creation.

Every operation keeps the tree well formed, and the contracts state how the tabs
change: moving a tab keeps every tab (within a tree and across surfaces), removing
one takes out exactly that tab, pushing or splitting adds exactly the new tabs.
