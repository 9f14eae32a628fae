use rutile::session::persist::{active_session_index, last_session_path, PaneMeta};

#[test]
fn last_session_lives_under_the_xdg_state_home() {
    assert_eq!(
        last_session_path(Some("/tmp/state"), Some("/home/paul")),
        "/tmp/state/rutile/last-session.toml"
    );
    assert_eq!(
        last_session_path(Some("/tmp/state/"), None),
        "/tmp/state/rutile/last-session.toml"
    );
}

#[test]
fn without_xdg_state_home_it_falls_back_to_home() {
    assert_eq!(
        last_session_path(None, Some("/home/paul")),
        "/home/paul/.local/state/rutile/last-session.toml"
    );
    assert_eq!(last_session_path(None, None), "/.local/state/rutile/last-session.toml");
}

#[test]
fn pane_meta_defaults_to_no_directory() {
    assert_eq!(PaneMeta::default().cwd, None);
}

#[test]
fn the_active_session_is_saved_by_its_tab_position() {
    assert_eq!(active_session_index(&vec![4, 7, 9], Some(9)), 2);
    assert_eq!(active_session_index(&vec![4, 7, 9], Some(5)), 0);
    assert_eq!(active_session_index(&vec![4, 7, 9], None), 0);
    assert_eq!(active_session_index(&Vec::new(), Some(1)), 0);
}

#[test]
fn an_empty_xdg_state_home_counts_as_unset() {
    assert_eq!(
        last_session_path(Some(""), Some("/home/u")),
        "/home/u/.local/state/rutile/last-session.toml"
    );
    assert_eq!(last_session_path(Some(""), None), "/.local/state/rutile/last-session.toml");
}
