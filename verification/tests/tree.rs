use egui_dock::{Node, NodeIndex, Split, TabIndex, TabInsert, Tree};

fn tabs(tree: &Tree<i32>) -> Vec<i32> {
    tree.tabs().into_iter().copied().collect()
}

fn half() -> u32 {
    0.5f32.to_bits()
}

fn sorted(mut v: Vec<i32>) -> Vec<i32> {
    v.sort();
    v
}

#[test]
fn test_tabs_iter() {
    let mut tree = Tree::new(vec![1, 2, 3]);
    assert_eq!(tabs(&tree), vec![1, 2, 3]);

    tree.push_to_first_leaf(4);
    assert_eq!(tabs(&tree), vec![1, 2, 3, 4]);

    tree.push_to_first_leaf(5);
    assert_eq!(tabs(&tree), vec![1, 2, 3, 4, 5]);

    tree.push_to_focused_leaf(6);
    assert_eq!(tabs(&tree), vec![1, 2, 3, 4, 5, 6]);

    assert_eq!(tree.num_tabs(), tree.tabs().len());
}

#[test]
fn node_index_arithmetic() {
    let root = NodeIndex::root();
    assert_eq!(root, NodeIndex(0));
    assert_eq!(root.left(), NodeIndex(1));
    assert_eq!(root.right(), NodeIndex(2));
    assert_eq!(NodeIndex(5).left(), NodeIndex(11));
    assert_eq!(NodeIndex(5).right(), NodeIndex(12));
    assert_eq!(root.parent(), None);
    assert_eq!(NodeIndex(11).parent(), Some(NodeIndex(5)));
    assert_eq!(NodeIndex(12).parent(), Some(NodeIndex(5)));
    assert_eq!(root.level(), 1);
    assert_eq!(NodeIndex(1).level(), 2);
    assert_eq!(NodeIndex(2).level(), 2);
    assert_eq!(NodeIndex(3).level(), 3);
    assert_eq!(NodeIndex(6).level(), 3);
    assert_eq!(NodeIndex(7).level(), 4);
    assert!(NodeIndex(1).is_left());
    assert!(!NodeIndex(1).is_right());
    assert!(NodeIndex(2).is_right());
    assert!(!NodeIndex(2).is_left());
    assert_eq!(NodeIndex::from(9usize), NodeIndex(9));
    assert_eq!(TabIndex::from(3usize), TabIndex(3));
}

#[test]
fn children_are_one_level_down() {
    for n in 0..100usize {
        let node = NodeIndex(n);
        assert_eq!(node.left().parent(), Some(node));
        assert_eq!(node.right().parent(), Some(node));
        assert!(node.left().is_left());
        assert!(node.right().is_right());
        assert_eq!(node.left().level(), node.level() + 1);
        assert_eq!(node.right().level(), node.level() + 1);
    }
}

#[test]
fn split_directions() {
    assert!(Split::Above.is_top_bottom());
    assert!(Split::Below.is_top_bottom());
    assert!(!Split::Left.is_top_bottom());
    assert!(Split::Left.is_left_right());
    assert!(Split::Right.is_left_right());
    assert!(!Split::Below.is_left_right());
}

#[test]
fn node_tab_operations() {
    let mut node = Node::leaf_with(vec![10, 20, 30]);
    assert!(node.is_leaf());
    assert_eq!(node.tabs_count(), 3);
    node.append_tab(40);
    assert_eq!(node.tabs(), Some(&[10, 20, 30, 40][..]));
    match &node {
        Node::Leaf { active, .. } => assert_eq!(*active, TabIndex(3)),
        _ => unreachable!(),
    }
    node.insert_tab(TabIndex(1), 15);
    assert_eq!(node.tabs(), Some(&[10, 15, 20, 30, 40][..]));
    match &node {
        Node::Leaf { active, .. } => assert_eq!(*active, TabIndex(1)),
        _ => unreachable!(),
    }
    // Removing the active tab moves the active index back by one.
    assert_eq!(node.remove_tab(TabIndex(1)), Some(15));
    match &node {
        Node::Leaf { active, .. } => assert_eq!(*active, TabIndex(0)),
        _ => unreachable!(),
    }
    // Removing at index 0 with active 0 keeps it at 0.
    assert_eq!(node.remove_tab(TabIndex(0)), Some(10));
    match &node {
        Node::Leaf { active, .. } => assert_eq!(*active, TabIndex(0)),
        _ => unreachable!(),
    }
    assert_eq!(node.tabs(), Some(&[20, 30, 40][..]));

    let mut empty: Node<i32> = Node::Empty;
    assert!(empty.is_empty());
    assert_eq!(empty.remove_tab(TabIndex(0)), None);
    assert_eq!(empty.tabs_count(), 0);
    assert_eq!(empty.tabs(), None);
    assert_eq!(empty.rect(), None);
}

#[test]
fn node_split_keeps_old_content() {
    let mut node = Node::leaf(7);
    let old = node.split(Split::Left, half());
    assert!(node.is_horizontal());
    assert!(node.is_parent());
    assert!(old.is_leaf());
    assert_eq!(old.tabs(), Some(&[7][..]));
    let mut node2 = Node::leaf(8);
    let _ = node2.split(Split::Below, half());
    assert!(node2.is_vertical());
}

#[test]
fn split_places_old_and_new_nodes() {
    let mut tree = Tree::new(vec![1]);
    let [old, new] = tree.split_left(NodeIndex::root(), half(), vec![2]);
    assert_eq!(old, NodeIndex(2));
    assert_eq!(new, NodeIndex(1));
    assert!(tree.node(NodeIndex(0)).is_horizontal());
    assert_eq!(tree.node(old).tabs(), Some(&[1][..]));
    assert_eq!(tree.node(new).tabs(), Some(&[2][..]));
    assert_eq!(tree.focused_leaf(), Some(new));
    assert_eq!(tree.len(), 3);
    assert_eq!(tree.iter().len(), 4);
    assert_eq!(sorted(tabs(&tree)), vec![1, 2]);

    let [old2, new2] = tree.split_below(NodeIndex(2), half(), vec![3]);
    assert_eq!(old2, NodeIndex(5));
    assert_eq!(new2, NodeIndex(6));
    assert!(tree.node(NodeIndex(2)).is_vertical());
    assert_eq!(tree.len(), 5);
    assert_eq!(tree.iter().len(), 8);
    assert_eq!(tree.left_of(NodeIndex(2)), Some(NodeIndex(5)));
    assert_eq!(tree.right_of(NodeIndex(2)), Some(NodeIndex(6)));
    assert_eq!(tree.left_of(NodeIndex(1)), None);
    assert_eq!(tree.parent(NodeIndex(6)), Some(NodeIndex(2)));
    assert_eq!(tree.parent(NodeIndex(0)), None);
    assert_eq!(tree.breadth_first_index_iter(), vec![NodeIndex(0), NodeIndex(1), NodeIndex(2), NodeIndex(5), NodeIndex(6)]);
    assert_eq!(tree.num_tabs(), 3);
}

#[test]
fn split_above_and_right() {
    let mut tree = Tree::new(vec!["a"]);
    let [old, new] = tree.split_above(NodeIndex::root(), half(), vec!["b"]);
    assert_eq!((old, new), (NodeIndex(2), NodeIndex(1)));
    let [old, new] = tree.split_right(NodeIndex(2), half(), vec!["c"]);
    assert_eq!((old, new), (NodeIndex(5), NodeIndex(6)));
    let [old, new] = tree.split_tabs(NodeIndex(1), Split::Below, half(), vec!["d"]);
    assert_eq!((old, new), (NodeIndex(3), NodeIndex(4)));
    assert_eq!(tree.tabs().len(), 4);
}

#[test]
fn remove_leaf_moves_sibling_subtree_up() {
    let mut tree = Tree::new(vec![1]);
    tree.split_right(NodeIndex::root(), half(), vec![2]);
    tree.split_below(NodeIndex(2), half(), vec![3]);
    // Layout: 0 = split, 1 = [1], 2 = split, 5 = [2], 6 = [3].
    tree.remove_leaf(NodeIndex(1));
    // The subtree at 2 moves to the root.
    assert!(tree.node(NodeIndex(0)).is_vertical());
    assert_eq!(tree.node(NodeIndex(1)).tabs(), Some(&[2][..]));
    assert_eq!(tree.node(NodeIndex(2)).tabs(), Some(&[3][..]));
    assert_eq!(sorted(tabs(&tree)), vec![2, 3]);
}

#[test]
fn remove_root_leaf_empties_tree() {
    let mut tree = Tree::new(vec![1, 2]);
    tree.remove_leaf(NodeIndex::root());
    assert!(tree.is_empty());
    assert_eq!(tree.len(), 0);
    assert_eq!(tree.num_tabs(), 0);
}

#[test]
fn remove_tab_removes_emptied_leaf() {
    let mut tree = Tree::new(vec![1]);
    tree.split_right(NodeIndex::root(), half(), vec![2]);
    assert_eq!(tree.remove_tab((NodeIndex(2), TabIndex(0))), Some(2));
    assert_eq!(tabs(&tree), vec![1]);
    assert!(tree.node(NodeIndex(0)).is_leaf());
    assert_eq!(tree.remove_tab((NodeIndex(0), TabIndex(0))), Some(1));
    assert!(tree.is_empty());
}

#[test]
fn move_tab_keeps_every_tab() {
    let mut tree = Tree::new(vec![1, 2, 3]);
    tree.split_right(NodeIndex::root(), half(), vec![4]);
    let before = sorted(tabs(&tree));
    tree.move_tab((NodeIndex(1), TabIndex(0)), (NodeIndex(2), TabInsert::Append));
    assert_eq!(sorted(tabs(&tree)), before);
    assert_eq!(tree.node(NodeIndex(2)).tabs(), Some(&[4, 1][..]));
    tree.move_tab((NodeIndex(2), TabIndex(0)), (NodeIndex(1), TabInsert::Insert(TabIndex(1))));
    assert_eq!(tree.node(NodeIndex(1)).tabs(), Some(&[2, 4, 3][..]));
    assert_eq!(sorted(tabs(&tree)), before);
    tree.move_tab((NodeIndex(1), TabIndex(0)), (NodeIndex(2), TabInsert::Split(Split::Below)));
    assert_eq!(sorted(tabs(&tree)), before);
    assert_eq!(tree.num_tabs(), 4);
}

#[test]
fn move_last_tab_out_removes_its_leaf() {
    let mut tree = Tree::new(vec![1]);
    tree.split_right(NodeIndex::root(), half(), vec![2]);
    tree.move_tab((NodeIndex(2), TabIndex(0)), (NodeIndex(1), TabInsert::Append));
    assert!(tree.node(NodeIndex(0)).is_leaf());
    assert_eq!(tabs(&tree), vec![1, 2]);
}

#[test]
fn moving_only_tab_to_itself_does_nothing() {
    let mut tree = Tree::new(vec![1]);
    tree.move_tab((NodeIndex(0), TabIndex(0)), (NodeIndex(0), TabInsert::Split(Split::Left)));
    assert_eq!(tree.len(), 1);
    assert_eq!(tabs(&tree), vec![1]);
}

#[test]
fn focus_and_active_tab() {
    let mut tree = Tree::new(vec![1, 2]);
    assert_eq!(tree.focused_leaf(), None);
    tree.set_focused_node(NodeIndex(0));
    assert_eq!(tree.focused_leaf(), Some(NodeIndex(0)));
    tree.set_focused_node(NodeIndex(5));
    assert_eq!(tree.focused_leaf(), None);
    tree.set_active_tab(NodeIndex(0), TabIndex(1));
    match tree.node(NodeIndex(0)) {
        Node::Leaf { active, .. } => assert_eq!(*active, TabIndex(1)),
        _ => unreachable!(),
    }
    tree.set_focused_node(NodeIndex(0));
    let (_, tab) = tree.find_active_focused().unwrap();
    assert_eq!(*tab, 2);
    *tab = 20;
    assert_eq!(tabs(&tree), vec![1, 20]);
    let (_, tab) = tree.find_active().unwrap();
    assert_eq!(*tab, 20);
}

#[test]
fn push_to_focused_leaf_appends_to_focus() {
    let mut tree = Tree::new(vec![1]);
    tree.split_right(NodeIndex::root(), half(), vec![2]);
    assert_eq!(tree.focused_leaf(), Some(NodeIndex(2)));
    tree.push_to_focused_leaf(3);
    assert_eq!(tree.node(NodeIndex(2)).tabs(), Some(&[2, 3][..]));
    let mut empty: Tree<i32> = Tree::default();
    empty.push_to_focused_leaf(9);
    assert_eq!(tabs(&empty), vec![9]);
    assert_eq!(empty.focused_leaf(), Some(NodeIndex(0)));
}

#[test]
fn find_tab_returns_first_match() {
    let mut tree = Tree::new(vec![1, 2]);
    tree.split_below(NodeIndex::root(), half(), vec![3, 2]);
    assert_eq!(tree.find_tab(&2), Some((NodeIndex(1), TabIndex(1))));
    assert_eq!(tree.find_tab(&3), Some((NodeIndex(2), TabIndex(0))));
    assert_eq!(tree.find_tab(&7), None);
}

#[test]
fn remove_empty_leaf_removes_first_empty_one() {
    let mut tree = Tree::new(vec![1]);
    tree.split_right(NodeIndex::root(), half(), vec![2]);
    assert_eq!(tree.len(), 3);
    assert_eq!(tree.node_mut(NodeIndex(2)).remove_tab(TabIndex(0)), Some(2));
    assert_eq!(tree.node(NodeIndex(2)).tabs_count(), 0);
    tree.remove_empty_leaf();
    assert!(tree.node(NodeIndex(0)).is_leaf());
    assert_eq!(tabs(&tree), vec![1]);
    tree.remove_empty_leaf();
    assert_eq!(tabs(&tree), vec![1]);
}

#[test]
fn iter_and_root_node() {
    let mut tree = Tree::new(vec![1]);
    assert_eq!(tree.iter().len(), 1);
    assert!(tree.root_node().unwrap().is_leaf());
    if let Some(Node::Leaf { tabs, .. }) = tree.root_node_mut() {
        tabs.push(2);
    }
    assert_eq!(tabs(&tree), vec![1, 2]);
    let empty: Tree<i32> = Tree::default();
    assert!(empty.root_node().is_none());
}

#[test]
fn pushed_tab_is_found() {
    let mut tree = Tree::new(vec![1, 2]);
    tree.split_left(NodeIndex::root(), half(), vec![3]);
    tree.push_to_focused_leaf(42);
    assert_eq!(tree.find_tab(&42), Some((NodeIndex(1), TabIndex(1))));
    tree.push_to_first_leaf(43);
    assert!(tree.find_tab(&43).is_some());
    assert_eq!(tree.num_tabs(), 5);
}

#[test]
fn split_tabs_adds_the_new_tabs() {
    let mut tree = Tree::new(vec![1]);
    tree.split_tabs(NodeIndex::root(), Split::Above, half(), vec![2, 3]);
    assert_eq!(sorted(tabs(&tree)), vec![1, 2, 3]);
    tree.set_active_tab(NodeIndex(1), TabIndex(1));
    assert_eq!(sorted(tabs(&tree)), vec![1, 2, 3]);
}

#[test]
fn remove_missing_tab_from_tree_changes_nothing() {
    let mut tree = Tree::new(vec![1, 2]);
    assert_eq!(tree.remove_tab((NodeIndex(7), TabIndex(0))), None);
    assert_eq!(tree.remove_tab((NodeIndex(0), TabIndex(5))), None);
    assert_eq!(tabs(&tree), vec![1, 2]);
    assert_eq!(tree.len(), 1);
}

#[test]
fn iter_mut_reaches_every_node() {
    let mut tree = Tree::new(vec![1]);
    tree.split_right(NodeIndex::root(), half(), vec![2]);
    let mut leaves = 0;
    for node in tree.iter_mut() {
        if let Node::Leaf { tabs, .. } = node {
            tabs.push(10);
            leaves += 1;
        }
    }
    assert_eq!(leaves, 2);
    assert_eq!(sorted(tabs(&tree)), vec![1, 2, 10, 10]);
}

#[test]
fn len_counts_the_nodes_left_after_a_removal() {
    let mut tree = Tree::new(vec![1, 2, 3]);
    let [a, _b] = tree.split_left(NodeIndex::root(), half(), vec![4, 5]);
    tree.set_focused_node(a);
    tree.remove_leaf(a);
    assert_eq!(tree.len(), 1);
    assert_eq!(tree.breadth_first_index_iter().len(), 1);
    assert_eq!(tabs(&tree), vec![4, 5]);
    assert_eq!(tree.focused_leaf(), None);
}

#[test]
fn retain_tabs_removes_emptied_leaves() {
    let mut tree = Tree::new(vec![1, 2]);
    tree.split_right(NodeIndex::root(), half(), vec![3]);
    tree.retain_tabs(|t: &i32| *t != 3);
    assert_eq!(tree.len(), 1);
    assert!(tree.node(NodeIndex(0)).is_leaf());
    assert_eq!(tabs(&tree), vec![1, 2]);
}

#[test]
fn filter_tabs_keeps_clones_of_matching_tabs() {
    let mut tree = Tree::new(vec![1, 2]);
    tree.split_below(NodeIndex::root(), half(), vec![3, 4]);
    let odd = tree.filter_tabs(|t: &i32| *t % 2 == 1);
    assert_eq!(tabs(&odd), vec![1, 3]);
    assert_eq!(odd.len(), 3);
    assert_eq!(tabs(&tree), vec![1, 2, 3, 4]);
}

#[test]
fn filter_map_tabs_maps_and_drops() {
    let mut tree = Tree::new(vec![1]);
    tree.split_left(NodeIndex::root(), half(), vec![2, 3]);
    let mapped = tree.filter_map_tabs(|t: &i32| if *t == 1 { None } else { Some(*t * 10) });
    assert_eq!(mapped.len(), 1);
    let out: Vec<i32> = mapped.tabs().into_iter().copied().collect();
    assert_eq!(out, vec![20, 30]);
}
