use egui_dock::{AllowedSplits, DropPosition, DynamicTabViewer, NodeIndex, Pos2, SurfaceIndex, TabIndex, TabWindow};

#[test]
fn allowed_splits_codes() {
    assert_eq!(AllowedSplits::default(), AllowedSplits::All);
    assert_eq!(AllowedSplits::from_u8(3), AllowedSplits::All);
    assert_eq!(AllowedSplits::from_u8(2), AllowedSplits::LeftRightOnly);
    assert_eq!(AllowedSplits::from_u8(1), AllowedSplits::TopBottomOnly);
    assert_eq!(AllowedSplits::from_u8(0), AllowedSplits::NoSplits);
    assert_eq!(AllowedSplits::LeftRightOnly.to_u8(), 2);
}

#[test]
fn allowed_splits_intersection() {
    assert_eq!((AllowedSplits::All & AllowedSplits::LeftRightOnly), AllowedSplits::LeftRightOnly);
    assert_eq!((AllowedSplits::All & AllowedSplits::TopBottomOnly), AllowedSplits::TopBottomOnly);
    assert_eq!((AllowedSplits::LeftRightOnly & AllowedSplits::TopBottomOnly), AllowedSplits::NoSplits);
    assert_eq!((AllowedSplits::All & AllowedSplits::All), AllowedSplits::All);
    assert_eq!((AllowedSplits::NoSplits & AllowedSplits::All), AllowedSplits::NoSplits);
    assert!(AllowedSplits::All.allows_left_right() && AllowedSplits::All.allows_top_bottom());
    assert!(AllowedSplits::LeftRightOnly.allows_left_right() && !AllowedSplits::LeftRightOnly.allows_top_bottom());
    assert!(!AllowedSplits::TopBottomOnly.allows_left_right() && AllowedSplits::TopBottomOnly.allows_top_bottom());
    assert!(!AllowedSplits::NoSplits.allows_left_right() && !AllowedSplits::NoSplits.allows_top_bottom());
}

#[test]
fn drop_positions() {
    let s = DropPosition::Surface(SurfaceIndex(2));
    let n = DropPosition::Node(SurfaceIndex(1), NodeIndex(3));
    let t = DropPosition::Tab(SurfaceIndex(0), NodeIndex(4), TabIndex(5));
    assert_eq!(s.break_down(), (SurfaceIndex(2), None));
    assert_eq!(n.break_down(), (SurfaceIndex(1), Some(NodeIndex(3))));
    assert_eq!(t.break_down(), (SurfaceIndex(0), Some(NodeIndex(4))));
    assert_eq!(s.surface_index(), SurfaceIndex(2));
    assert_eq!(t.surface_index(), SurfaceIndex(0));
    assert!(s.is_surface());
    assert!(!n.is_surface());
}

#[test]
fn tab_window_holds_its_tab() {
    let mut w = TabWindow::new("tab");
    assert_eq!(w.next_position, None);
    let p = Pos2 { x: 3.0f32.to_bits(), y: 4.0f32.to_bits() };
    w.set_position(p);
    assert_eq!(w.next_position, Some(p));
    assert!(!w.dragged);
    assert_eq!(w.into_tab(), "tab");
    assert_eq!(DynamicTabViewer::default(), DynamicTabViewer {});
}
