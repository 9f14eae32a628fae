use rutile::layout::split_tree::SplitTree;
use rutile::layout::{Direction, Orientation};
use rutile::session::session_view::{default_session_name, PaneClosing, SessionView};
use rutile::terminal::broadcast::BroadcastGroup;

#[test]
fn a_new_window_has_one_session_with_one_pane() {
    let v = SessionView::new();
    assert_eq!(v.pane_ids_for(0), vec![0]);
    assert_eq!(v.focused_pane_id(0), Some(0));
    assert_eq!(v.focused_pane_id(1), None);
    assert_eq!(v.broadcast_group(), BroadcastGroup::Off);
    let d = SessionView::default();
    assert_eq!(d.pane_ids_for(0), vec![0]);
}

#[test]
fn ids_are_never_reused_across_sessions() {
    let mut v = SessionView::new();
    let s1 = v.new_session();
    assert_eq!(s1, 1);
    assert_eq!(v.pane_ids_for(1), vec![1]);
    assert_eq!(v.split_focused(Some(1), Orientation::Horizontal), Some((1, 2)));
    assert_eq!(v.split_focused(Some(0), Orientation::Vertical), Some((0, 4)));
    assert_eq!(v.split_focused(Some(9), Orientation::Vertical), None);
    assert_eq!(v.split_focused(None, Orientation::Vertical), None);
    let s2 = v.new_session();
    assert_eq!(v.pane_ids_for(s2), vec![8]);
    assert_eq!(v.pane_ids_for(0), vec![0, 4]);
    assert_eq!(v.pane_ids_for(1), vec![1, 2]);
}

#[test]
fn broadcast_reaches_the_other_included_panes_of_the_session_only() {
    let mut v = SessionView::new();
    v.split_in_session(0, Orientation::Horizontal);
    v.split_in_session(0, Orientation::Horizontal);
    let other = v.new_session();
    let panes = v.pane_ids_for(0);
    assert_eq!(panes, vec![0, 1, 3]);
    assert!(v.broadcast_targets(0, 0).is_empty());
    v.set_broadcast_group(BroadcastGroup::Session);
    assert_eq!(v.broadcast_targets(0, 0), vec![1, 3]);
    assert!(v.broadcast_targets(other, v.pane_ids_for(other)[0]).is_empty());
    assert!(v.toggle_pane_sync_exclusion(3));
    assert!(v.is_pane_sync_excluded(3));
    assert_eq!(v.broadcast_targets(0, 0), vec![1]);
    assert!(v.broadcast_targets(0, 3).is_empty());
    assert!(!v.toggle_pane_sync_exclusion(3));
    assert_eq!(v.broadcast_targets(0, 1), vec![0, 3]);
}

#[test]
fn closing_a_pane_unregisters_it_from_broadcasting() {
    let mut v = SessionView::new();
    v.split_in_session(0, Orientation::Horizontal);
    v.set_broadcast_group(BroadcastGroup::Session);
    v.toggle_pane_sync_exclusion(1);
    assert!(matches!(v.close_pane(0, 1), PaneClosing::PaneClosed(1)));
    assert!(!v.is_pane_sync_excluded(1));
    assert!(v.broadcast_targets(0, 0).is_empty());
    assert_eq!(v.pane_ids_for(0), vec![0]);
    assert_eq!(v.focused_pane_id(0), Some(0));
}

#[test]
fn closing_the_last_pane_closes_its_session() {
    let mut v = SessionView::new();
    let s = v.new_session();
    assert!(matches!(v.close_focused_pane(Some(s)), PaneClosing::SessionClosed(id) if id == s));
    assert_eq!(v.pane_ids_for(s), Vec::<u64>::new());
    assert!(matches!(v.close_pane(s, 1), PaneClosing::Nothing));
    assert!(matches!(v.close_pane(0, 7), PaneClosing::Nothing));
    assert!(matches!(v.close_focused_pane(None), PaneClosing::Nothing));
    assert_eq!(v.pane_ids_for(0), vec![0]);
}

#[test]
fn close_session_returns_its_panes() {
    let mut v = SessionView::new();
    v.split_in_session(0, Orientation::Vertical);
    v.toggle_pane_sync_exclusion(1);
    assert_eq!(v.close_session(0), vec![0, 1]);
    assert!(!v.is_pane_sync_excluded(1));
    assert_eq!(v.close_session(0), Vec::<u64>::new());
    assert_eq!(v.focused_pane_id(0), None);
}

#[test]
fn split_pane_focuses_the_chosen_pane_first() {
    let mut v = SessionView::new();
    v.split_in_session(0, Orientation::Horizontal);
    assert_eq!(v.focused_pane_id(0), Some(1));
    assert_eq!(v.split_pane(0, 0, Orientation::Vertical), Some((0, 3)));
    assert_eq!(v.pane_ids_for(0), vec![0, 3, 1]);
    assert_eq!(v.split_pane(0, 42, Orientation::Vertical), None);
    assert_eq!(v.split_pane(5, 0, Orientation::Vertical), None);
}

#[test]
fn focus_maximize_navigate_and_resize_act_on_one_session() {
    let mut v = SessionView::new();
    v.split_in_session(0, Orientation::Horizontal);
    v.set_focused_pane(0, 0);
    assert_eq!(v.focused_pane_id(0), Some(0));
    v.navigate_focused(Some(0), Direction::Right);
    assert_eq!(v.focused_pane_id(0), Some(1));
    assert!(v.toggle_maximize(0, 1));
    assert!(v.is_maximized(0, 1));
    assert!(!v.toggle_maximize(3, 1));
    assert!(v.resize_focused(Some(0), Direction::Left));
    assert!(!v.resize_focused(Some(0), Direction::Up));
    assert!(!v.resize_focused(None, Direction::Left));
    let tree = v.pane_view(0).unwrap().tree_snapshot();
    assert_eq!(tree.find_resizable_ancestor(1, Orientation::Horizontal), Some((2, false, 4500)));
}

#[test]
fn a_restored_session_gets_fresh_ids() {
    let mut v = SessionView::new();
    let mut saved = SplitTree::new_leaf(0);
    saved.split(0, Orientation::Horizontal, 1, 2);
    let (sid, map) = v.restore_session(&saved).unwrap();
    assert_eq!(sid, 1);
    assert_eq!(v.pane_ids_for(sid), vec![2, 3]);
    assert_eq!(map[&0], 2);
    assert_eq!(map[&1], 3);
    assert_eq!(v.focused_pane_id(sid), Some(2));
    assert_eq!(v.split_in_session(0, Orientation::Vertical), Some(4));
    v.set_broadcast_group(BroadcastGroup::Session);
    assert_eq!(v.broadcast_targets(sid, 2), vec![3]);
}

#[test]
fn a_tree_with_a_ratio_out_of_range_is_not_restored() {
    let mut v = SessionView::new();
    let bad = SplitTree::Split {
        id: 5,
        orientation: Orientation::Vertical,
        ratio: 20000,
        left: Box::new(SplitTree::Leaf(0)),
        right: Box::new(SplitTree::Leaf(1)),
    };
    assert!(v.restore_session(&bad).is_none());
    assert!(v.ids_available());
    assert_eq!(v.new_session(), 1);
    assert_eq!(v.pane_ids_for(1), vec![1]);
}

#[test]
fn a_dragged_divider_is_written_into_its_session() {
    let mut v = SessionView::new();
    v.split_in_session(0, Orientation::Vertical);
    assert!(v.set_split_ratio(0, 2, 7000));
    assert!(!v.set_split_ratio(0, 9, 7000));
    assert!(!v.set_split_ratio(4, 2, 7000));
    let tree = v.pane_view(0).unwrap().tree_snapshot();
    assert_eq!(tree.find_resizable_ancestor(0, Orientation::Vertical), Some((2, true, 7000)));
}

#[test]
fn sessions_are_named_from_one_until_renamed() {
    assert_eq!(default_session_name(0), "Session 1");
    assert_eq!(default_session_name(41), "Session 42");
}
