use rutile::layout::pane_view::PaneView;
use rutile::layout::{Direction, Orientation, SplitTree};

#[test]
fn a_new_view_has_one_focused_pane() {
    let v = PaneView::new(4);
    assert_eq!(v.focused(), 4);
    assert_eq!(v.pane_ids(), vec![4]);
    assert!(v.is_leaf_only());
    assert_eq!(v.maximized(), None);
}

#[test]
fn split_focuses_the_new_pane_and_restores_a_maximized_one() {
    let mut v = PaneView::new(1);
    assert!(v.toggle_maximize(1));
    v.split(Orientation::Horizontal, 2, 3);
    assert_eq!(v.focused(), 2);
    assert_eq!(v.pane_ids(), vec![1, 2]);
    assert_eq!(v.maximized(), None);
    assert!(!v.is_leaf_only());
}

#[test]
fn close_focused_moves_focus_to_the_first_pane() {
    let mut v = PaneView::new(1);
    v.split(Orientation::Horizontal, 2, 3);
    v.split(Orientation::Vertical, 4, 5);
    assert_eq!(v.pane_ids(), vec![1, 2, 4]);
    assert!(v.toggle_maximize(4));
    assert_eq!(v.close_focused(), Some(4));
    assert_eq!(v.pane_ids(), vec![1, 2]);
    assert_eq!(v.focused(), 1);
    assert_eq!(v.maximized(), None);
    assert_eq!(v.close_focused(), Some(1));
    assert_eq!(v.close_focused(), None);
    assert_eq!(v.pane_ids(), vec![2]);
}

#[test]
fn set_focused_refuses_panes_of_other_sessions() {
    let mut v = PaneView::new(1);
    v.split(Orientation::Horizontal, 2, 3);
    assert!(v.set_focused(1));
    assert_eq!(v.focused(), 1);
    assert!(!v.set_focused(3));
    assert_eq!(v.focused(), 1);
    assert!(v.contains_pane(2));
    assert!(!v.contains_pane(3));
}

#[test]
fn navigate_follows_the_layout() {
    let mut v = PaneView::new(1);
    v.split(Orientation::Horizontal, 2, 10);
    v.set_focused(1);
    v.split(Orientation::Vertical, 3, 11);
    // 1 top-left, 3 bottom-left, 2 right.
    v.navigate(Direction::Right);
    assert_eq!(v.focused(), 2);
    v.navigate(Direction::Right);
    assert_eq!(v.focused(), 2);
    v.navigate(Direction::Left);
    assert!(v.focused() == 1 || v.focused() == 3);
}

#[test]
fn resize_moves_the_nearest_divider_by_one_step() {
    let mut v = PaneView::new(1);
    v.split(Orientation::Horizontal, 2, 10);
    v.set_focused(1);
    assert!(v.resize_focused(Direction::Right));
    let tree = v.tree_snapshot();
    assert_eq!(tree.find_resizable_ancestor(1, Orientation::Horizontal), Some((10, true, 5500)));
    assert!(v.resize_focused(Direction::Left));
    assert!(v.resize_focused(Direction::Left));
    let tree = v.tree_snapshot();
    assert_eq!(tree.find_resizable_ancestor(1, Orientation::Horizontal), Some((10, true, 4500)));
    assert!(!v.resize_focused(Direction::Up));
    v.set_focused(2);
    assert!(v.resize_focused(Direction::Right));
    let tree = v.tree_snapshot();
    assert_eq!(tree.find_resizable_ancestor(2, Orientation::Horizontal), Some((10, false, 4000)));
}

#[test]
fn resize_stops_at_the_clamp() {
    let mut v = PaneView::new(1);
    v.split(Orientation::Vertical, 2, 10);
    v.set_focused(1);
    for _ in 0..30 {
        v.resize_focused(Direction::Down);
    }
    let tree = v.tree_snapshot();
    assert_eq!(tree.find_resizable_ancestor(1, Orientation::Vertical), Some((10, true, 9500)));
}

#[test]
fn toggle_maximize_twice_restores() {
    let mut v = PaneView::new(1);
    v.split(Orientation::Horizontal, 2, 10);
    assert!(v.toggle_maximize(1));
    assert!(v.is_maximized(1));
    assert!(!v.is_maximized(2));
    assert!(v.toggle_maximize(2));
    assert!(!v.is_maximized(1));
    assert!(!v.toggle_maximize(2));
    assert_eq!(v.maximized(), None);
    assert!(!v.toggle_maximize(9));
}

#[test]
fn a_restored_tree_is_focused_on_its_first_pane() {
    let mut tree = SplitTree::new_leaf(7);
    tree.split(7, Orientation::Horizontal, 8, 9);
    tree.split(8, Orientation::Vertical, 5, 6);
    let v = PaneView::from_tree(tree);
    assert_eq!(v.focused(), 7);
    assert_eq!(v.pane_ids(), vec![7, 8, 5]);
}

#[test]
fn a_dragged_divider_moves_only_its_split() {
    let mut v = PaneView::new(1);
    v.split(Orientation::Horizontal, 2, 10);
    assert!(v.set_ratio(10, 2500));
    assert!(!v.set_ratio(11, 2500));
    assert_eq!(v.focused(), 2);
    let tree = v.tree_snapshot();
    assert_eq!(tree.find_resizable_ancestor(1, Orientation::Horizontal), Some((10, true, 2500)));
    assert!(v.set_ratio(10, 10));
    let tree = v.tree_snapshot();
    assert_eq!(tree.find_resizable_ancestor(1, Orientation::Horizontal), Some((10, true, 500)));
}

#[test]
fn a_pane_on_the_end_side_grows_towards_left_and_up() {
    let mut tree = SplitTree::new_leaf(1);
    tree.split(1, Orientation::Horizontal, 2, 102);
    tree.split(2, Orientation::Vertical, 3, 103);
    let mut v = PaneView::from_tree(tree);
    assert!(v.set_focused(3));
    assert!(v.resize_focused(Direction::Left));
    let tree = v.tree_snapshot();
    assert_eq!(tree.find_resizable_ancestor(3, Orientation::Horizontal), Some((102, false, 4500)));

    let mut tree = SplitTree::new_leaf(1);
    tree.split(1, Orientation::Horizontal, 2, 102);
    tree.split(2, Orientation::Vertical, 3, 103);
    let mut v = PaneView::from_tree(tree);
    assert!(v.set_focused(3));
    assert!(v.resize_focused(Direction::Up));
    let tree = v.tree_snapshot();
    assert_eq!(tree.find_resizable_ancestor(3, Orientation::Vertical), Some((103, false, 4500)));
    assert_eq!(tree.find_resizable_ancestor(3, Orientation::Horizontal), Some((102, false, 5000)));
}
