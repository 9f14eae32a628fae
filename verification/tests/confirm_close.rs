use rutile::dialogs::confirm_close::foreground_pgid_differs;

#[test]
fn no_foreground_child_when_pgid_matches_shell() {
    assert!(!foreground_pgid_differs(1234, 1234));
}

#[test]
fn foreground_child_when_pgid_differs_from_shell() {
    assert!(foreground_pgid_differs(5678, 1234));
}

#[test]
fn no_foreground_child_when_tcgetpgrp_failed() {
    assert!(!foreground_pgid_differs(-1, 1234));
    assert!(!foreground_pgid_differs(0, 1234));
}
