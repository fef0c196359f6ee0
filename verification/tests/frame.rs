use egui_dock::{
    DockState, Node, NodeIndex, Pos2, Rect, SurfaceIndex, TabDestination, TabIndex, TabInsert, TabRemoval,
};

fn rect(x0: f32, y0: f32, x1: f32, y1: f32) -> Rect {
    Rect {
        min: Pos2 { x: x0.to_bits(), y: y0.to_bits() },
        max: Pos2 { x: x1.to_bits(), y: y1.to_bits() },
    }
}

fn all_tabs(state: &DockState<i32>) -> Vec<i32> {
    let mut out = Vec::new();
    for s in state.valid_surface_indices() {
        out.extend(state.tree(s).tabs().into_iter().copied());
    }
    out
}

fn main_tab(i: usize) -> (SurfaceIndex, NodeIndex, TabIndex) {
    (SurfaceIndex::main(), NodeIndex::root(), TabIndex(i))
}

#[test]
fn removals_are_applied_last_first() {
    let mut state = DockState::new(vec![1, 2, 3]);
    let removals = vec![TabRemoval::Node(SurfaceIndex(0), NodeIndex(0), TabIndex(0)), TabRemoval::Node(SurfaceIndex(0), NodeIndex(0), TabIndex(1))];
    state.apply_frame_actions(removals, vec![], None, None);
    assert_eq!(all_tabs(&state), vec![3]);
}

#[test]
fn removal_of_a_missing_tab_is_skipped() {
    let mut state = DockState::new(vec![1, 2]);
    let removals = vec![TabRemoval::Node(SurfaceIndex(0), NodeIndex(4), TabIndex(0)), TabRemoval::Node(SurfaceIndex(3), NodeIndex(0), TabIndex(0))];
    state.apply_frame_actions(removals, vec![], None, None);
    assert_eq!(all_tabs(&state), vec![1, 2]);
}

#[test]
fn closing_the_last_tab_of_a_window_removes_the_window() {
    let mut state = DockState::new(vec![1]);
    let w = state.add_window(vec![2]);
    state.apply_frame_actions(vec![TabRemoval::Node(w, NodeIndex(0), TabIndex(0))], vec![], None, None);
    assert!(!state.is_surface_valid(w));
    assert_eq!(all_tabs(&state), vec![1]);
}

#[test]
fn window_removal_removes_the_window() {
    let mut state = DockState::new(vec![1]);
    let w = state.add_window(vec![2, 3]);
    state.apply_frame_actions(vec![TabRemoval::Window(w)], vec![], None, None);
    assert!(!state.is_surface_valid(w));
    assert_eq!(all_tabs(&state), vec![1]);
}

#[test]
fn detach_makes_a_window() {
    let mut state = DockState::new(vec![1, 2]);
    state.apply_frame_actions(vec![], vec![(main_tab(0), rect(0.0, 0.0, 100.0, 150.0))], None, None);
    assert!(state.is_surface_valid(SurfaceIndex(1)));
    assert_eq!(state.tree(SurfaceIndex(1)).tabs(), vec![&1]);
    assert_eq!(state.main_surface().tabs(), vec![&2]);
}

#[test]
fn focus_then_drop() {
    let mut state = DockState::new(vec![1, 2]);
    let w = state.add_window(vec![3]);
    let drop = Some((main_tab(0), TabDestination::Node(w, NodeIndex(0), TabInsert::Append)));
    state.apply_frame_actions(vec![], vec![], Some((SurfaceIndex::main(), NodeIndex::root())), drop);
    assert_eq!(state.tree(w).tabs(), vec![&3, &1]);
    assert_eq!(state.main_surface().tabs(), vec![&2]);
    assert_eq!(state.focused_leaf(), Some((SurfaceIndex::main(), NodeIndex::root())));
}

#[test]
fn refused_drop_changes_nothing() {
    let mut state = DockState::new(vec![1, 2]);
    let drop = Some((main_tab(0), TabDestination::Node(SurfaceIndex(6), NodeIndex(0), TabInsert::Append)));
    assert!(!state.can_move_tab(main_tab(0), TabDestination::Node(SurfaceIndex(6), NodeIndex(0), TabInsert::Append)));
    state.apply_frame_actions(vec![], vec![], None, drop);
    assert_eq!(all_tabs(&state), vec![1, 2]);
    assert!(state.can_move_tab(main_tab(0), TabDestination::Node(SurfaceIndex(0), NodeIndex(0), TabInsert::Insert(TabIndex(1)))));
    assert!(!state.can_move_tab(main_tab(0), TabDestination::Node(SurfaceIndex(0), NodeIndex(0), TabInsert::Insert(TabIndex(2)))));
}

#[test]
fn close_request_accepted_or_refused() {
    let mut state = DockState::new(vec![1, 2, 3]);
    let mut removals = Vec::new();
    let mut focus = None;
    state.close_tab_request(main_tab(0), true, &mut removals, &mut focus);
    assert_eq!(removals, vec![TabRemoval::Node(SurfaceIndex(0), NodeIndex(0), TabIndex(0))]);
    assert_eq!(focus, None);
    state.close_tab_request(main_tab(1), false, &mut removals, &mut focus);
    assert_eq!(removals.len(), 1);
    assert_eq!(focus, Some((SurfaceIndex::main(), NodeIndex::root())));
    match state.main_surface().node(NodeIndex::root()) {
        Node::Leaf { active, .. } => assert_eq!(*active, TabIndex(1)),
        _ => panic!("the root is a leaf"),
    }
}

#[test]
fn eject_is_offered_unless_lonely_in_a_window() {
    let mut state = DockState::new(vec![1]);
    let lonely = state.add_window(vec![2]);
    let crowded = state.add_window(vec![3, 4]);
    assert!(state.can_eject(SurfaceIndex::main()));
    assert!(!state.can_eject(lonely));
    assert!(state.can_eject(crowded));
}

#[test]
fn frame_without_removals_keeps_every_tab() {
    let mut state = DockState::new(vec![1, 2, 3]);
    let w = state.add_window(vec![4, 5]);
    let detaches = vec![(main_tab(2), rect(5.0, 5.0, 50.0, 50.0)), ((w, NodeIndex(0), TabIndex(1)), rect(1.0, 1.0, 2.0, 2.0))];
    let drop = Some((main_tab(0), TabDestination::Window(rect(0.0, 0.0, 10.0, 10.0))));
    state.apply_frame_actions(vec![], detaches, Some((w, NodeIndex(0))), drop);
    let mut tabs = all_tabs(&state);
    tabs.sort();
    assert_eq!(tabs, vec![1, 2, 3, 4, 5]);
    assert_eq!(state.main_surface().tabs(), vec![&2]);
}

#[test]
fn removal_from_a_location() {
    let r: TabRemoval = (SurfaceIndex(1), NodeIndex(2), TabIndex(3)).into();
    assert_eq!(r, TabRemoval::Node(SurfaceIndex(1), NodeIndex(2), TabIndex(3)));
}
