use rutile::pane_header::{
    broadcast_menu_label, maximize_icon_name, maximize_tooltip, sync_icon_name, sync_tooltip,
    PaneTitleState,
};
use rutile::terminal::broadcast::BroadcastGroup;
use rutile::terminal::title::{hostname_from, user_from};
use rutile::text::trimmed_text;

#[test]
fn the_title_follows_the_terminal_until_overridden() {
    let mut state = PaneTitleState::new();
    assert_eq!(state.text(3, Some("box"), Some("me")), "Terminal");
    state.raw_title = Some("vim".to_string());
    assert_eq!(state.text(3, None, None), "vim");
    state.set_override("  my pane ");
    assert_eq!(state.text(3, None, None), "  my pane ");
    state.set_override(" \t ");
    assert_eq!(state.override_text, None);
    assert_eq!(state.text(3, None, None), "vim");
}

#[test]
fn header_buttons_reflect_their_state() {
    assert_eq!(maximize_icon_name(true), "view-restore-symbolic");
    assert_eq!(maximize_icon_name(false), "view-fullscreen-symbolic");
    assert_eq!(maximize_tooltip(true), "Restaurer le pane");
    assert_eq!(maximize_tooltip(false), "Maximiser le pane");
    assert_eq!(sync_icon_name(true), "action-unavailable-symbolic");
    assert_eq!(sync_icon_name(false), "input-keyboard-symbolic");
    assert!(sync_tooltip(true).contains("désactivée"));
    assert!(sync_tooltip(false).starts_with("Saisie synchro active"));
}

#[test]
fn the_current_broadcast_group_is_checked_in_the_menu() {
    assert_eq!(
        broadcast_menu_label(BroadcastGroup::Off, BroadcastGroup::Off),
        "✓ Saisie synchro : aucune"
    );
    assert_eq!(
        broadcast_menu_label(BroadcastGroup::Session, BroadcastGroup::Off),
        "Saisie synchro : session"
    );
}

#[test]
fn host_and_user_names_ignore_blank_values() {
    assert_eq!(hostname_from("workstation\n"), Some("workstation".to_string()));
    assert_eq!(hostname_from("  a b  "), Some("a b".to_string()));
    assert_eq!(hostname_from(" \n"), None);
    assert_eq!(user_from(Some("paul")), Some("paul".to_string()));
    assert_eq!(user_from(Some("")), None);
    assert_eq!(user_from(None), None);
}

#[test]
fn trimmed_text_drops_surrounding_whitespace() {
    assert_eq!(trimmed_text("  New name \n"), Some("New name".to_string()));
    assert_eq!(trimmed_text("\t "), None);
    assert_eq!(trimmed_text("x"), Some("x".to_string()));
}
