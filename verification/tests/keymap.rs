use rutile::keymap::{
    action_label, format_chord, is_pure_modifier, orientation_for, parse_chord, Action, Keymap,
    ALT_MASK, CONTROL_MASK, CTRL_SHIFT, CTRL_SHIFT_ALT, SHIFT_MASK,
};
use rutile::layout::{Direction, Orientation};

/// Key codes for the key names a table uses: each distinct name gets its
/// own number, the way a toolkit resolves names to key values.
fn resolve(keymap: &Keymap, codes: &mut Vec<String>) -> Vec<Option<u32>> {
    keymap
        .key_names()
        .into_iter()
        .map(|name| {
            name.map(|n| match codes.iter().position(|c| *c == n) {
                Some(i) => i as u32,
                None => {
                    codes.push(n);
                    (codes.len() - 1) as u32
                }
            })
        })
        .collect()
}

fn code_of(codes: &[String], name: &str) -> u32 {
    codes.iter().position(|c| c == name).unwrap() as u32
}

#[test]
fn chords_are_formatted_modifiers_first() {
    assert_eq!(format_chord("O", CTRL_SHIFT), "Ctrl+Shift+O");
    assert_eq!(format_chord("Page_Down", CONTROL_MASK), "Ctrl+Page_Down");
    assert_eq!(format_chord("x", ALT_MASK | SHIFT_MASK), "Shift+Alt+x");
    assert_eq!(format_chord("Up", CTRL_SHIFT_ALT), "Ctrl+Shift+Alt+Up");
    assert_eq!(format_chord("F2", 0), "F2");
}

#[test]
fn chords_parse_back_into_key_and_modifiers() {
    assert_eq!(parse_chord("Ctrl+Shift+O"), (Some("O".to_string()), CTRL_SHIFT));
    assert_eq!(parse_chord("Alt+Left"), (Some("Left".to_string()), ALT_MASK));
    assert_eq!(parse_chord("Ctrl"), (None, CONTROL_MASK));
    assert_eq!(parse_chord("a+b"), (Some("b".to_string()), 0));
    let chord = format_chord("T", CTRL_SHIFT_ALT);
    assert_eq!(parse_chord(&chord), (Some("T".to_string()), CTRL_SHIFT_ALT));
}

#[test]
fn default_table_binds_every_action_once() {
    let keymap = Keymap::default();
    let entries = keymap.entries();
    assert_eq!(entries.len(), 34);
    assert_eq!(keymap.chord_for(Action::SplitHorizontal), Some("Ctrl+Shift+O".to_string()));
    assert_eq!(keymap.chord_for(Action::NextSession), Some("Ctrl+Shift+Page_Down".to_string()));
    assert_eq!(
        keymap.chord_for(Action::ResizePane(Direction::Left)),
        Some("Ctrl+Shift+Alt+Left".to_string())
    );
    for i in 0..entries.len() {
        for j in (i + 1)..entries.len() {
            assert_ne!(entries[i].1, entries[j].1);
        }
    }
}

#[test]
fn lookup_ignores_lock_bits_and_needs_the_exact_modifiers() {
    let keymap = Keymap::default();
    let mut codes = Vec::new();
    let resolved = resolve(&keymap, &mut codes);
    let o = code_of(&codes, "O");
    let up = code_of(&codes, "Up");
    let lock_bits = 2 | 16;
    assert_eq!(keymap.lookup(o, CTRL_SHIFT, &resolved), Some(Action::SplitHorizontal));
    assert_eq!(keymap.lookup(o, CTRL_SHIFT | lock_bits, &resolved), Some(Action::SplitHorizontal));
    assert_eq!(keymap.lookup(o, CONTROL_MASK, &resolved), None);
    assert_eq!(keymap.lookup(up, CTRL_SHIFT, &resolved), Some(Action::Navigate(Direction::Up)));
    assert_eq!(keymap.lookup(up, CTRL_SHIFT_ALT, &resolved), Some(Action::ResizePane(Direction::Up)));
}

#[test]
fn rebind_moves_a_chord_to_one_action_only() {
    let mut keymap = Keymap::default();
    keymap.rebind(Action::Copy, "O", CTRL_SHIFT | 16);
    assert_eq!(keymap.chord_for(Action::Copy), Some("Ctrl+Shift+O".to_string()));
    assert_eq!(keymap.chord_for(Action::SplitHorizontal), None);
    assert_eq!(keymap.entries().len(), 33);
    let mut codes = Vec::new();
    let resolved = resolve(&keymap, &mut codes);
    assert_eq!(keymap.lookup(code_of(&codes, "O"), CTRL_SHIFT, &resolved), Some(Action::Copy));
}

#[test]
fn rebind_of_an_unbound_action_appends_it() {
    let mut keymap = Keymap::from_entries(vec![(Action::Paste, "Ctrl+V".to_string())]);
    keymap.rebind(Action::Copy, "C", CONTROL_MASK);
    assert_eq!(
        keymap.entries(),
        vec![(Action::Paste, "Ctrl+V".to_string()), (Action::Copy, "Ctrl+C".to_string())]
    );
}

#[test]
fn labels_name_actions_for_people() {
    assert_eq!(action_label(Action::Navigate(Direction::Left)), "Navigate Left");
    assert_eq!(action_label(Action::SwitchToSession(7)), "Switch to session 7");
    assert_eq!(action_label(Action::ResizePane(Direction::Down)), "Resize pane Down");
    assert_eq!(action_label(Action::DetachSession), "Detach session into new window");
    assert_eq!(action_label(Action::PrevSession), "Previous session");
}

#[test]
fn only_split_actions_have_an_orientation() {
    assert_eq!(orientation_for(Action::SplitHorizontal), Some(Orientation::Horizontal));
    assert_eq!(orientation_for(Action::SplitVertical), Some(Orientation::Vertical));
    assert_eq!(orientation_for(Action::Copy), None);
}

#[test]
fn modifier_keys_alone_do_not_make_a_chord() {
    assert!(is_pure_modifier("Control_L"));
    assert!(is_pure_modifier("Caps_Lock"));
    assert!(is_pure_modifier("Meta_R"));
    assert!(!is_pure_modifier("O"));
    assert!(!is_pure_modifier("control_l"));
}

fn all_actions() -> Vec<Action> {
    let directions = [Direction::Up, Direction::Down, Direction::Left, Direction::Right];
    let mut all = vec![
        Action::SplitHorizontal,
        Action::SplitVertical,
        Action::ClosePane,
        Action::NewSession,
        Action::CloseSession,
        Action::NextSession,
        Action::PrevSession,
        Action::ToggleSearch,
        Action::Copy,
        Action::Paste,
        Action::ToggleSyncCurrentPane,
        Action::RenameSession,
        Action::RenamePane,
        Action::DetachSession,
        Action::CopyAsHtml,
        Action::PasteAdvanced,
        Action::ToggleMargin,
    ];
    for d in directions {
        all.push(Action::Navigate(d));
        all.push(Action::ResizePane(d));
    }
    for n in 0..=255u8 {
        all.push(Action::SwitchToSession(n));
    }
    all
}

#[test]
fn every_action_has_a_label_of_its_own() {
    let labels: Vec<String> = all_actions().into_iter().map(action_label).collect();
    for i in 0..labels.len() {
        for j in 0..i {
            assert_ne!(labels[i], labels[j]);
        }
    }
}

#[test]
fn rebinding_keeps_actions_and_chords_unique() {
    let mut keymap = Keymap::default();
    keymap.rebind(Action::Copy, "O", CTRL_SHIFT);
    keymap.rebind(Action::SplitHorizontal, "C", CTRL_SHIFT);
    keymap.rebind(Action::ToggleMargin, "M", ALT_MASK);
    let entries = keymap.entries();
    for i in 0..entries.len() {
        for j in 0..i {
            assert_ne!(entries[i].0, entries[j].0);
            assert_ne!(entries[i].1, entries[j].1);
        }
    }
}
