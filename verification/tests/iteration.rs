use egui_dock::{DockState, Node, NodeIndex, Surface, SurfaceIndex, TabIndex, Tree};

fn half() -> u32 {
    0.5f32.to_bits()
}

#[test]
fn surface_iterators() {
    let mut tree = Tree::new(vec![1, 2]);
    tree.split_right(NodeIndex::root(), half(), vec![3]);
    let surface = Surface::Main(tree);
    assert_eq!(surface.iter_nodes().len(), 4);
    let tabs: Vec<(NodeIndex, i32)> = surface.iter_all_tabs().into_iter().map(|(n, t)| (n, *t)).collect();
    assert_eq!(tabs, vec![(NodeIndex(1), 1), (NodeIndex(1), 2), (NodeIndex(2), 3)]);
    let empty: Surface<i32> = Surface::Empty;
    assert!(empty.iter_nodes().is_empty());
    assert!(empty.iter_all_tabs().is_empty());
    assert!(empty.is_empty());
    assert!(empty.node_tree().is_none());
}

#[test]
fn dock_state_iterators() {
    let mut state = DockState::new(vec![1, 2]);
    let w = state.add_window(vec![3]);
    assert_eq!(state.iter_surfaces().len(), 2);
    let tabs: Vec<((SurfaceIndex, NodeIndex), i32)> =
        state.iter_all_tabs().into_iter().map(|(k, t)| (k, *t)).collect();
    assert_eq!(
        tabs,
        vec![
            ((SurfaceIndex(0), NodeIndex(0)), 1),
            ((SurfaceIndex(0), NodeIndex(0)), 2),
            ((w, NodeIndex(0)), 3),
        ]
    );
    let nodes = state.iter_all_nodes();
    assert_eq!(nodes.len(), 2);
    assert_eq!(nodes[1].0, w);
    assert_eq!(state.iter_nodes().len(), 2);
    assert_eq!(state.iter_main_surface_nodes().len(), 1);
    state.remove_surface(w);
    assert_eq!(state.iter_all_tabs().len(), 2);
}

#[test]
fn map_tabs_keeps_layout() {
    let mut tree = Tree::new(vec![1, 2]);
    tree.split_below(NodeIndex::root(), half(), vec![3]);
    tree.set_active_tab(NodeIndex(1), TabIndex(1));
    let mapped = tree.map_tabs(|t: &i32| format!("tab {t}"));
    assert_eq!(mapped.len(), tree.len());
    assert!(mapped.node(NodeIndex(0)).is_vertical());
    assert_eq!(mapped.focused_leaf(), tree.focused_leaf());
    let strings: Vec<String> = mapped.tabs().into_iter().cloned().collect();
    assert_eq!(strings, vec!["tab 1", "tab 2", "tab 3"]);
    match mapped.node(NodeIndex(1)) {
        Node::Leaf { active, .. } => assert_eq!(*active, TabIndex(1)),
        _ => unreachable!(),
    }

    let mut state = DockState::new(vec![10, 20]);
    state.add_window(vec![30]);
    let doubled = state.map_tabs(|t: &i32| t * 2);
    assert_eq!(doubled.surfaces_count(), 2);
    let all: Vec<i32> = doubled.iter_all_tabs().into_iter().map(|(_, t)| *t).collect();
    assert_eq!(all, vec![20, 40, 60]);
    assert_eq!(doubled.translations.leaf.close_all_button, "Close window");
    let surface = state.get_surface(SurfaceIndex(1)).unwrap().map_tabs(|t: &i32| *t + 1);
    assert!(matches!(surface, Surface::Window(_, _)));
}

#[test]
fn surface_filters() {
    let mut surface = Surface::Main(Tree::new(vec![1, 2, 3]));
    let kept = surface.filter_tabs(|t: &i32| *t > 1);
    assert_eq!(kept.node_tree().unwrap().tabs(), vec![&2, &3]);
    let mapped = surface.filter_map_tabs(|t: &i32| if *t == 2 { None } else { Some(t.to_string()) });
    let strings: Vec<String> = mapped.node_tree().unwrap().tabs().into_iter().cloned().collect();
    assert_eq!(strings, vec!["1", "3"]);
    surface.retain_tabs(|t: &i32| *t == 3);
    assert_eq!(surface.node_tree().unwrap().tabs(), vec![&3]);
}

#[test]
fn surface_nodes_mut() {
    let mut surface = Surface::Main(Tree::new(vec![1]));
    for node in surface.iter_nodes_mut() {
        if let Node::Leaf { tabs, .. } = node {
            tabs.push(2);
        }
    }
    assert_eq!(surface.node_tree().unwrap().tabs(), vec![&1, &2]);
    let mut empty: Surface<i32> = Surface::Empty;
    assert_eq!(empty.iter_nodes_mut().len(), 0);
}
