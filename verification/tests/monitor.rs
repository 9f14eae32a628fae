use rutile::terminal::monitor::{
    checked_cpu_ticks, notification_title, parse_cpu_ticks, read_tick_fields, ActivityWatch,
};

#[test]
fn parses_utime_stime_from_a_realistic_proc_stat_line() {
    // Real-world example (truncated after the fields this cares about),
    // including a `comm` field that itself contains a space and parens
    // to exercise the "anchor on the last `)`" parsing.
    let stat =
        "1234 (some (weird) comm) S 1 1234 1234 0 -1 4194560 100 0 0 0 42 17 0 0 20 0 1 0";
    assert_eq!(parse_cpu_ticks(stat), Some(42 + 17));
}

#[test]
fn rejects_malformed_input() {
    assert_eq!(parse_cpu_ticks("not a stat line"), None);
    assert_eq!(parse_cpu_ticks("1234 (sh) S 1 1234"), None);
}

#[test]
fn the_command_name_does_not_change_the_ticks() {
    let rest = ") S 1 1 1 0 -1 0 0 0 0 0 5 6 0 0";
    let a = format!("9 (a b ( c{}", rest);
    let b = format!("9 (sh{}", rest);
    assert_eq!(parse_cpu_ticks(&a), Some(11));
    assert_eq!(parse_cpu_ticks(&a), parse_cpu_ticks(&b));
}

#[test]
fn tick_fields_are_split_on_any_whitespace() {
    let stat = "1 (x)\tS 1 1 1 0 -1 0 0 0\n0 0  7\t8 0";
    assert_eq!(read_tick_fields(stat), Some((7, 8)));
}

#[test]
fn tick_fields_follow_u64_parsing() {
    assert_eq!(read_tick_fields("1 (x) S 1 1 1 0 -1 0 0 0 0 0 +7 8 0"), Some((7, 8)));
    assert_eq!(read_tick_fields("1 (x) S 1 1 1 0 -1 0 0 0 0 0 -7 8 0"), None);
    assert_eq!(read_tick_fields("1 (x) S 1 1 1 0 -1 0 0 0 0 0 + 8 0"), None);
    assert_eq!(read_tick_fields("1 (x) S 1 1 1 0 -1 0 0 0 0 0 7x 8 0"), None);
    assert_eq!(read_tick_fields("1 (x) S 1 1 1 0 -1 0 0 0 0 0 18446744073709551616 8 0"), None);
    assert_eq!(
        read_tick_fields("1 (x) S 1 1 1 0 -1 0 0 0 0 0 18446744073709551615 8 0"),
        Some((18446744073709551615, 8))
    );
    assert_eq!(read_tick_fields("1 (x) S 1 1 1 0 -1 0 0 0 0 0 7"), None);
}

#[test]
fn checked_ticks_refuse_a_sum_that_overflows() {
    assert_eq!(
        checked_cpu_ticks("1 (x) S 1 1 1 0 -1 0 0 0 0 0 18446744073709551615 1 0"),
        None
    );
    assert_eq!(checked_cpu_ticks("1 (x) S 1 1 1 0 -1 0 0 0 0 0 2 3 0"), Some(5));
    assert_eq!(checked_cpu_ticks("no paren here"), None);
}

#[test]
fn a_busy_period_is_notified_once_after_the_silence() {
    let mut watch = ActivityWatch::new();
    assert!(!watch.observe(100, 0, 10, false));
    assert!(!watch.was_busy);
    assert!(!watch.observe(150, 0, 10, false));
    assert!(watch.was_busy);
    // Quiet, but not for long enough yet.
    assert!(!watch.observe(150, 5, 10, false));
    assert!(watch.observe(150, 10, 10, false));
    assert!(!watch.was_busy);
    assert!(!watch.observe(150, 60, 10, false));
    assert_eq!(watch.last_ticks, Some(150));
}

#[test]
fn the_pane_being_looked_at_is_not_notified() {
    let mut watch = ActivityWatch::new();
    watch.observe(1, 0, 0, false);
    watch.observe(2, 0, 0, false);
    assert!(!watch.observe(2, 100, 0, true));
    assert!(watch.was_busy);
    assert!(watch.observe(2, 100, 0, false));
}

#[test]
fn notification_title_falls_back_on_blank_titles() {
    assert_eq!(notification_title(Some("vim")), "vim");
    assert_eq!(notification_title(Some("  \t")), "Rutile");
    assert_eq!(notification_title(Some("")), "Rutile");
    assert_eq!(notification_title(None), "Rutile");
}
