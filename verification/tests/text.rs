use rutile::terminal::title::{hostname_from, user_from};
use rutile::text::is_whitespace;

#[test]
fn whitespace_is_the_unicode_white_space_set() {
    for c in ['\t', '\n', '\u{B}', '\u{C}', '\r', ' ', '\u{85}', '\u{A0}', '\u{1680}', '\u{2000}', '\u{200A}', '\u{2028}', '\u{2029}', '\u{202F}', '\u{205F}', '\u{3000}'] {
        assert!(is_whitespace(c), "{:?}", c);
        assert!(c.is_whitespace());
    }
    for c in ['a', '0', '\u{8}', '\u{E}', '\u{200B}', '\u{FEFF}', '_'] {
        assert!(!is_whitespace(c), "{:?}", c);
        assert!(!c.is_whitespace());
    }
    for n in 0..=0x10FFFFu32 {
        if let Some(c) = char::from_u32(n) {
            assert_eq!(is_whitespace(c), c.is_whitespace(), "{:?}", c);
        }
    }
}

#[test]
fn host_names_are_trimmed_of_tabs_too() {
    assert_eq!(hostname_from("\tbox\r\n"), Some("box".to_string()));
    assert_eq!(hostname_from(" \t\n"), None);
    assert_eq!(user_from(Some("")), None);
}
