use rutile::preferences::Preferences;
use rutile::profile::model::{slug_of_lowercased, slugify, Profile, ProfileStore, DEFAULT_SILENCE_SECONDS};
use rutile::profile::scheme::{ColorScheme, ColorSchemeStore};

fn store() -> ProfileStore {
    ProfileStore::from_loaded(None)
}

fn ids(store: &ProfileStore) -> Vec<String> {
    store.iter().iter().map(|p| p.id.clone()).collect()
}

#[test]
fn a_fresh_store_holds_the_default_profile() {
    let s = store();
    assert_eq!(ids(&s), vec!["default".to_string()]);
    let p = s.get("default").unwrap();
    assert_eq!(p.name, "Default");
    assert_eq!(p.scheme_id, "catppuccin-mocha");
    assert_eq!(p.silence_seconds, DEFAULT_SILENCE_SECONDS);
    assert_eq!(ids(&ProfileStore::from_loaded(Some(Vec::new()))), vec!["default".to_string()]);
}

#[test]
fn loaded_profiles_are_kept_in_order() {
    let loaded = vec![
        Profile { id: "b".to_string(), name: "B".to_string(), scheme_id: "x".to_string(), silence_seconds: 3 },
        Profile { id: "a".to_string(), name: "A".to_string(), scheme_id: "y".to_string(), silence_seconds: 4 },
    ];
    let s = ProfileStore::from_loaded(Some(loaded));
    assert_eq!(ids(&s), vec!["b".to_string(), "a".to_string()]);
    assert_eq!(s.get("a").unwrap().silence_seconds, 4);
    assert!(s.get("c").is_none());
}

#[test]
fn slugs_are_lowercase_dashed_and_never_empty() {
    assert_eq!(slugify("My Profile"), "my-profile");
    assert_eq!(slugify("  Dev / Ops!  "), "dev---ops");
    assert_eq!(slugify("ÉTÉ 2024"), "été-2024");
    assert_eq!(slugify("!!!"), "profile");
    assert_eq!(slugify(""), "profile");
}

#[test]
fn create_derives_a_fresh_id_from_the_name() {
    let mut s = store();
    assert_eq!(s.create("My Profile", "nord"), "my-profile");
    assert_eq!(s.create("My Profile", "nord"), "my-profile-2");
    assert_eq!(s.create("my profile", "nord"), "my-profile-3");
    assert_eq!(s.create("Default", "nord"), "default-2");
    let p = s.get("my-profile-2").unwrap();
    assert_eq!(p.name, "My Profile");
    assert_eq!(p.scheme_id, "nord");
    assert_eq!(p.silence_seconds, DEFAULT_SILENCE_SECONDS);
    assert_eq!(ids(&s).len(), 5);
}

#[test]
fn clone_copies_settings_under_a_new_name() {
    let mut s = store();
    s.set_silence_seconds("default", 42);
    s.set_scheme("default", "dracula");
    assert_eq!(s.clone_profile("default"), Some("default-copy".to_string()));
    assert_eq!(s.clone_profile("default"), Some("default-copy-2".to_string()));
    let c = s.get("default-copy-2").unwrap();
    assert_eq!(c.name, "Default copy 2");
    assert_eq!(s.get("default-copy").unwrap().name, "Default copy");
    assert_eq!(c.scheme_id, "dracula");
    assert_eq!(c.silence_seconds, 42);
    assert_eq!(s.clone_profile("missing"), None);
}

#[test]
fn rename_and_updates_touch_only_the_named_profile() {
    let mut s = store();
    s.create("Work", "nord");
    s.rename("work", "Office");
    s.rename("nobody", "Ghost");
    assert_eq!(s.get("work").unwrap().name, "Office");
    assert_eq!(s.get("default").unwrap().name, "Default");
    if let Some(p) = s.get_mut("work") {
        p.silence_seconds = 1;
    }
    assert_eq!(s.get("work").unwrap().silence_seconds, 1);
}

#[test]
fn delete_never_removes_the_last_profile() {
    let mut s = store();
    assert!(!s.delete("default"));
    s.create("Work", "nord");
    assert!(!s.delete("missing"));
    assert!(s.delete("default"));
    assert_eq!(ids(&s), vec!["work".to_string()]);
    assert!(!s.delete("work"));
}

#[test]
fn deleting_the_default_profile_moves_the_default_to_the_first_one() {
    let mut s = store();
    s.create("Work", "nord");
    let mut prefs = Preferences::default();
    assert!(s.delete("default"));
    assert!(prefs.profile_deleted("default", &s));
    assert_eq!(prefs.default_profile_id, "work");
    assert!(!prefs.profile_deleted("other", &s));
    assert_eq!(prefs.default_profile_id, "work");
}

#[test]
fn default_preferences_match_tilix() {
    let p = Preferences::default();
    assert!(p.focus_follows_mouse);
    assert!(p.close_window_on_last_session_closed);
    assert!(p.copy_on_select);
    assert!(p.enable_hyperlinks);
    assert!(p.enable_notifications);
    assert_eq!(p.default_profile_id, "default");
    assert!(p.prompt_on_close_with_process);
}

fn scheme(id: &str, fg: &str) -> ColorScheme {
    ColorScheme {
        id: id.to_string(),
        name: id.to_uppercase(),
        foreground: fg.to_string(),
        background: "#000000".to_string(),
        palette: std::array::from_fn(|i| format!("#0000{:02x}", i)),
    }
}

#[test]
fn user_schemes_override_bundled_ones_by_id() {
    let store = ColorSchemeStore::from_parts(
        vec![scheme("catppuccin-mocha", "#cdd6f4"), scheme("nord", "#d8dee9")],
        vec![scheme("nord", "#ffffff"), scheme("mine", "#123456")],
    );
    let all: Vec<&str> = store.iter().iter().map(|s| s.id.as_str()).collect();
    assert_eq!(all, vec!["catppuccin-mocha", "nord", "mine"]);
    assert_eq!(store.get("nord").unwrap().foreground, "#ffffff");
    assert!(store.get("gone").is_none());
    assert_eq!(store.get_or_default("gone").id, "catppuccin-mocha");
    assert_eq!(store.get_or_default("mine").foreground, "#123456");
}

#[test]
fn a_third_copy_takes_the_next_free_name() {
    let mut s = store();
    s.clone_profile("default");
    s.clone_profile("default");
    assert_eq!(s.clone_profile("default"), Some("default-copy-3".to_string()));
    assert_eq!(s.get("default-copy-3").unwrap().name, "Default copy 3");
    s.rename("default-copy", "Other");
    assert_eq!(s.clone_profile("default"), Some("default-copy-4".to_string()));
    assert_eq!(s.get("default-copy").unwrap().name, "Other");
    assert_eq!(s.get("default-copy-4").unwrap().name, "Default copy");
}

#[test]
fn the_last_user_scheme_of_an_id_wins_and_new_ids_keep_their_first_order() {
    let store = ColorSchemeStore::from_parts(
        vec![scheme("a", "#000001"), scheme("b", "#000002")],
        vec![
            scheme("z", "#000003"),
            scheme("b", "#000004"),
            scheme("y", "#000005"),
            scheme("z", "#000006"),
            scheme("b", "#000007"),
        ],
    );
    let all: Vec<&str> = store.iter().iter().map(|s| s.id.as_str()).collect();
    assert_eq!(all, vec!["a", "b", "z", "y"]);
    assert_eq!(store.get("a").unwrap().foreground, "#000001");
    assert_eq!(store.get("b").unwrap().foreground, "#000007");
    assert_eq!(store.get("z").unwrap().foreground, "#000006");
    assert_eq!(store.get("y").unwrap().foreground, "#000005");
}

#[test]
fn slugs_of_lowercase_text_dash_everything_but_letters_and_digits() {
    assert_eq!(slug_of_lowercased("my profile!"), "my-profile");
    assert_eq!(slug_of_lowercased("--a\tb--"), "a-b");
    assert_eq!(slug_of_lowercased("!!"), "profile");
    assert_eq!(slugify("My Profile"), "my-profile");
}

#[test]
fn ascii_names_make_ascii_slugs() {
    let mut s = store();
    assert_eq!(s.create("My Profile", "tango"), "my-profile");
    assert_eq!(s.create("My Profile", "tango"), "my-profile-2");
    assert_eq!(ids(&s), vec!["default", "my-profile", "my-profile-2"]);
    assert_eq!(s.clone_profile("missing"), None);
    assert_eq!(slugify("  Über Dev!"), "über-dev");
}
