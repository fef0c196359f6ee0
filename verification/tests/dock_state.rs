use egui_dock::{
    DockState, Node, NodeIndex, Pos2, Rect, Split, Surface, SurfaceIndex, TabDestination, TabIndex,
    TabInsert, Translations, WindowSize,
};

fn half() -> u32 {
    0.5f32.to_bits()
}

fn rect(x0: f32, y0: f32, x1: f32, y1: f32) -> Rect {
    Rect {
        min: Pos2 { x: x0.to_bits(), y: y0.to_bits() },
        max: Pos2 { x: x1.to_bits(), y: y1.to_bits() },
    }
}

fn all_tabs(state: &DockState<i32>) -> Vec<i32> {
    let mut out = Vec::new();
    for s in state.valid_surface_indices() {
        out.extend(state.tree(s).tabs().into_iter().copied());
    }
    out.sort();
    out
}

#[test]
fn new_dock_state_has_main_surface() {
    let state = DockState::new(vec![1, 2]);
    assert_eq!(state.surfaces_count(), 1);
    assert!(state.is_surface_valid(SurfaceIndex::main()));
    assert!(!state.is_surface_valid(SurfaceIndex(1)));
    assert_eq!(state.main_surface().num_tabs(), 2);
    assert_eq!(state.focused_leaf(), None);
    assert!(matches!(state.get_surface(SurfaceIndex(0)), Some(Surface::Main(_))));
    assert!(state.get_surface(SurfaceIndex(1)).is_none());
    assert_eq!(state.translations.tab_context_menu.close_button, "Close");
}

#[test]
fn surface_index_main() {
    assert_eq!(SurfaceIndex::main(), SurfaceIndex(0));
    assert!(SurfaceIndex(0).is_main());
    assert!(!SurfaceIndex(3).is_main());
    assert_eq!(SurfaceIndex::from(4usize), SurfaceIndex(4));
}

#[test]
fn add_window_reuses_empty_slots() {
    let mut state = DockState::new(vec![1]);
    let w1 = state.add_window(vec![2]);
    let w2 = state.add_window(vec![3]);
    let w3 = state.add_window(vec![4]);
    assert_eq!((w1, w2, w3), (SurfaceIndex(1), SurfaceIndex(2), SurfaceIndex(3)));
    let removed = state.remove_surface(w2);
    assert!(matches!(removed, Some(Surface::Window(_, _))));
    // The other windows keep their indices.
    assert_eq!(state.surfaces_count(), 4);
    assert!(!state.is_surface_valid(w2));
    assert_eq!(state.tree(w3).tabs(), vec![&4]);
    assert_eq!(state.valid_surface_indices(), vec![SurfaceIndex(0), w1, w3]);
    // The empty slot is used again.
    let w4 = state.add_window(vec![5]);
    assert_eq!(w4, w2);
    // Removing the last surface drops it.
    assert!(state.remove_surface(w3).is_some());
    assert_eq!(state.surfaces_count(), 3);
    assert!(state.remove_surface(SurfaceIndex(10)).is_none());
    assert_eq!(all_tabs(&state), vec![1, 2, 5]);
}

#[test]
fn move_tab_between_surfaces_keeps_tabs() {
    let mut state = DockState::new(vec![1, 2]);
    let w = state.add_window(vec![3]);
    state.move_tab((SurfaceIndex(0), NodeIndex(0), TabIndex(0)), TabDestination::Node(w, NodeIndex(0), TabInsert::Append));
    assert_eq!(state.tree(w).tabs(), vec![&3, &1]);
    assert_eq!(state.main_surface().tabs(), vec![&2]);
    assert_eq!(all_tabs(&state), vec![1, 2, 3]);
    // Moving the last tabs out of the window removes the window.
    state.move_tab((w, NodeIndex(0), TabIndex(0)), (SurfaceIndex(0), NodeIndex(0), TabInsert::Insert(TabIndex(0))).into());
    state.move_tab((w, NodeIndex(0), TabIndex(0)), TabDestination::Node(SurfaceIndex(0), NodeIndex(0), TabInsert::Split(Split::Right)));
    assert!(!state.is_surface_valid(w));
    assert_eq!(all_tabs(&state), vec![1, 2, 3]);
    assert!(state.main_surface().node(NodeIndex(0)).is_horizontal());
}

#[test]
fn move_tab_to_empty_surface() {
    let mut state = DockState::new(vec![1, 2]);
    let w = state.add_window(vec![3]);
    state.remove_tab((w, NodeIndex(0), TabIndex(0)));
    assert!(!state.is_surface_valid(w));
    let w2 = state.add_window(vec![9]);
    state.tree_mut(w2).remove_leaf(NodeIndex(0));
    assert!(state.tree(w2).is_empty());
    state.move_tab((SurfaceIndex(0), NodeIndex(0), TabIndex(1)), TabDestination::from(w2));
    assert_eq!(state.tree(w2).tabs(), vec![&2]);
    assert_eq!(all_tabs(&state), vec![1, 2]);
}

#[test]
fn detach_tab_opens_a_window() {
    let mut state = DockState::new(vec![1, 2]);
    let r = rect(10.0, 20.0, 110.0, 220.0);
    let w = state.detach_tab((SurfaceIndex(0), NodeIndex(0), TabIndex(1)), r);
    assert_eq!(w, SurfaceIndex(1));
    assert_eq!(state.tree(w).tabs(), vec![&2]);
    let ws = state.get_window_state_mut(w).unwrap();
    assert_eq!(ws.next_position(), Some(r.min));
    assert_eq!(ws.next_size(), Some(WindowSize::ShrunkOfRect(r)));
    // Detaching the only tab of a window moves it into a new window and drops the old one.
    let w2 = state.detach_tab((w, NodeIndex(0), TabIndex(0)), r);
    assert_eq!(w2, SurfaceIndex(2));
    assert!(!state.is_surface_valid(w));
    let ws2 = state.get_window_state_mut(w2).unwrap();
    assert_eq!(ws2.next_size(), Some(WindowSize::OfRect(r)));
    assert_eq!(all_tabs(&state), vec![1, 2]);
    assert!(!TabDestination::Node(w2, NodeIndex(0), TabInsert::Append).is_window());
    let mut state2 = DockState::new(vec![5, 6]);
    let dst = TabDestination::Window(r);
    assert!(dst.is_window());
    state2.move_tab((SurfaceIndex(0), NodeIndex(0), TabIndex(0)), dst);
    assert_eq!(state2.tree(SurfaceIndex(1)).tabs(), vec![&5]);
}

#[test]
fn remove_tab_and_find_tab() {
    let mut state = DockState::new(vec![1, 2]);
    let w = state.add_window(vec![3, 4]);
    assert_eq!(state.find_tab(&4), Some((w, NodeIndex(0), TabIndex(1))));
    assert_eq!(state.find_tab(&2), Some((SurfaceIndex(0), NodeIndex(0), TabIndex(1))));
    assert_eq!(state.find_tab(&8), None);
    assert_eq!(state.find_main_surface_tab(&1), Some((NodeIndex(0), TabIndex(0))));
    assert_eq!(state.find_main_surface_tab(&3), None);
    assert_eq!(state.remove_tab((w, NodeIndex(0), TabIndex(0))), Some(3));
    assert_eq!(state.remove_tab((w, NodeIndex(0), TabIndex(0))), Some(4));
    assert!(!state.is_surface_valid(w));
    assert_eq!(state.remove_tab((SurfaceIndex(0), NodeIndex(0), TabIndex(0))), Some(1));
    assert_eq!(state.remove_tab((SurfaceIndex(0), NodeIndex(0), TabIndex(0))), Some(2));
    // The main surface stays, with an empty tree.
    assert!(state.is_surface_valid(SurfaceIndex(0)));
    assert!(state.main_surface().is_empty());
}

#[test]
fn focus_and_push() {
    let mut state = DockState::new(vec![1]);
    let w = state.add_window(vec![2]);
    state.set_focused_node_and_surface((w, NodeIndex(0)));
    assert_eq!(state.focused_leaf(), Some((w, NodeIndex(0))));
    state.push_to_focused_leaf(3);
    assert_eq!(state.tree(w).tabs(), vec![&2, &3]);
    let (_, tab) = state.find_active_focused().unwrap();
    assert_eq!(*tab, 3);
    state.set_focused_node_and_surface((w, NodeIndex(4)));
    assert_eq!(state.focused_leaf(), None);
    assert!(state.find_active_focused().is_none());
    state.push_to_focused_leaf(4);
    assert_eq!(state.main_surface().tabs(), vec![&1, &4]);
    state.push_to_first_leaf(5);
    assert_eq!(state.main_surface().tabs(), vec![&1, &4, &5]);
    state.set_active_tab((SurfaceIndex(0), NodeIndex(0), TabIndex(0)));
    match state.main_surface().node(NodeIndex(0)) {
        Node::Leaf { active, .. } => assert_eq!(*active, TabIndex(0)),
        _ => unreachable!(),
    }
}

#[test]
fn split_focuses_surface() {
    let mut state = DockState::new(vec![1]);
    let [old, new] = state.split((SurfaceIndex(0), NodeIndex(0)), Split::Below, half(), Node::leaf(2));
    assert_eq!((old, new), (NodeIndex(1), NodeIndex(2)));
    assert_eq!(state.focused_leaf(), Some((SurfaceIndex(0), NodeIndex(2))));
    assert_eq!(all_tabs(&state), vec![1, 2]);
}

#[test]
fn translations_and_window_state() {
    let t = Translations::english();
    assert_eq!(t.tab_context_menu.eject_button, "Eject");
    assert_eq!(t.leaf.close_all_button, "Close window");
    assert_eq!(t.leaf.minimize_button, "Minimize window");
    let mut custom = Translations::english();
    custom.leaf.close_all_button = "Fermer".to_string();
    let state = DockState::new(vec![1]).with_translations(custom);
    assert_eq!(state.translations.leaf.close_all_button, "Fermer");

    let mut state = DockState::new(vec![1]);
    let w = state.add_window(vec![2]);
    assert!(state.get_window_state(SurfaceIndex(0)).is_none());
    let ws = state.get_window_state(w).unwrap();
    assert!(!ws.dragged());
    assert_eq!(ws.rect(), Rect::nothing());
    let ws = state.get_window_state_mut(w).unwrap();
    let p = Pos2 { x: 1.0f32.to_bits(), y: 2.0f32.to_bits() };
    ws.set_position(p);
    let (new, pos, size) = ws.prepare_window();
    assert!(new);
    assert_eq!(pos, Some(p));
    assert_eq!(size, None);
    let (new, pos, _) = ws.prepare_window();
    assert!(!new);
    assert_eq!(pos, None);
}

#[test]
fn window_state_of_main_or_missing_surface_is_none() {
    let mut state = DockState::new(vec!["a"]);
    assert!(state.get_window_state_mut(SurfaceIndex::main()).is_none());
    assert!(state.get_window_state_mut(SurfaceIndex(5)).is_none());
    assert!(state.get_window_state(SurfaceIndex(5)).is_none());
    assert_eq!(state.main_surface().num_tabs(), 1);
}

#[test]
fn remove_missing_tab_changes_nothing() {
    let mut state = DockState::new(vec![1, 2]);
    let w = state.add_window(vec![3]);
    let focus = state.focused_leaf();
    assert_eq!(state.remove_tab((SurfaceIndex::main(), NodeIndex(7), TabIndex(0))), None);
    assert_eq!(state.remove_tab((SurfaceIndex::main(), NodeIndex(0), TabIndex(2))), None);
    assert_eq!(state.remove_tab((SurfaceIndex(9), NodeIndex(0), TabIndex(0))), None);
    assert_eq!(all_tabs(&state), vec![1, 2, 3]);
    assert!(state.is_surface_valid(w));
    assert_eq!(state.focused_leaf(), focus);
}

#[test]
fn split_with_one_tab_leaf() {
    let mut state = DockState::new(vec![1]);
    let [old, new] = state.split(
        (SurfaceIndex::main(), NodeIndex::root()),
        Split::Below,
        half(),
        Node::leaf_with(vec![3]),
    );
    assert!(state.tree(SurfaceIndex::main()).node(old).is_leaf());
    assert_eq!(state.tree(SurfaceIndex::main()).node(new).tabs_count(), 1);
    assert_eq!(all_tabs(&state), vec![1, 3]);
}

#[test]
fn mutable_iteration_over_surfaces_and_main_nodes() {
    let mut state = DockState::new(vec![1]);
    state.add_window(vec![2]);
    assert_eq!(state.iter_surfaces_mut().len(), 2);
    for node in state.iter_main_surface_nodes_mut() {
        if let Node::Leaf { tabs, .. } = node {
            tabs.push(3);
        }
    }
    assert_eq!(state.main_surface().tabs(), vec![&1, &3]);
    assert_eq!(all_tabs(&state), vec![1, 2, 3]);
}

#[test]
fn moving_the_only_tab_into_its_leaf_ignores_the_indices() {
    let mut state = DockState::new(vec![1]);
    let src = (SurfaceIndex::main(), NodeIndex::root(), TabIndex(9));
    let dst = TabDestination::Node(SurfaceIndex::main(), NodeIndex::root(), TabInsert::Insert(TabIndex(4)));
    assert!(state.can_move_tab(src, dst));
    state.move_tab(src, TabDestination::Node(SurfaceIndex::main(), NodeIndex::root(), TabInsert::Insert(TabIndex(4))));
    assert_eq!(all_tabs(&state), vec![1]);
}

#[test]
fn english_leaf_labels_match() {
    let t = Translations::english();
    let leaf = egui_dock::LeafTranslations::english();
    assert_eq!(t.leaf.close_all_button, leaf.close_all_button);
    assert_eq!(t.leaf.minimize_button_modifier_menu_hint, leaf.minimize_button_modifier_menu_hint);
    assert_eq!(t.leaf.close_button_disabled_tooltip, leaf.close_button_disabled_tooltip);
    assert_eq!(t.tab_context_menu.close_button, "Close");
}
