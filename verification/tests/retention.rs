use resource_monitor::dates::{list_dates, sort_texts, text_not_after};
use resource_monitor::retention::{
    is_expired, is_log_file, log_file_name, retention_cutoff, should_evict, NANOS_PER_DAY,
    NANOS_PER_SECOND, RETENTION_DAYS,
};

fn lines_of(items: &[&str]) -> Vec<String> {
    items.iter().map(|s| s.to_string()).collect()
}

fn chars(s: &str) -> Vec<char> {
    s.chars().collect()
}

#[test]
fn day_logs_are_told_by_their_names() {
    assert!(is_log_file("2024-01-15.log"));
    assert!(is_log_file("notes.log"));
    assert!(is_log_file(".log"));
    assert!(is_log_file("Launchd.log"));
    assert!(!is_log_file("launchd.log"));
    assert!(!is_log_file("launchd-stderr.log"));
    assert!(!is_log_file("2024-01-15.txt"));
    assert!(!is_log_file("2024-01-15.log.gz"));
    assert!(!is_log_file("2024-01-15.LOG"));
    assert!(!is_log_file("log"));
    assert!(!is_log_file(""));
}

#[test]
fn log_of_a_day_is_named_by_its_date() {
    assert_eq!(log_file_name("2024-01-15"), "2024-01-15.log");
    assert!(is_log_file(&log_file_name("2024-01-15")));
}

#[test]
fn cutoff_is_the_window_before_now() {
    assert_eq!(RETENTION_DAYS, 90);
    assert_eq!(NANOS_PER_DAY, 86_400 * NANOS_PER_SECOND);
    let now = 100 * NANOS_PER_DAY + 17;
    assert_eq!(retention_cutoff(now, 90), 10 * NANOS_PER_DAY + 17);
    assert_eq!(retention_cutoff(now, 0), now);
    assert_eq!(retention_cutoff(0, 1), -NANOS_PER_DAY);
    assert_eq!(retention_cutoff(1_705_312_800 * NANOS_PER_SECOND, 90), 1_697_536_800 * NANOS_PER_SECOND);
}

#[test]
fn cutoff_that_cannot_be_held_is_the_epoch() {
    assert_eq!(retention_cutoff(i128::MIN, 1), 0);
    assert_eq!(retention_cutoff(i128::MIN + NANOS_PER_DAY - 1, 1), 0);
    assert_eq!(retention_cutoff(i128::MIN + NANOS_PER_DAY, 1), i128::MIN);
    assert_eq!(
        retention_cutoff(0, u64::MAX),
        -(u64::MAX as i128) * NANOS_PER_DAY
    );
}

#[test]
fn write_at_the_cutoff_is_kept_and_one_second_earlier_is_evicted() {
    let now = 1_705_312_800 * NANOS_PER_SECOND;
    let cutoff = retention_cutoff(now, RETENTION_DAYS);
    assert!(!is_expired(cutoff, cutoff));
    assert!(is_expired(cutoff - NANOS_PER_SECOND, cutoff));
    assert!(is_expired(cutoff - 1, cutoff));
    assert!(!is_expired(cutoff + 1, cutoff));
    assert!(!is_expired(now, cutoff));
    assert!(!should_evict("2023-10-17.log", cutoff, now, RETENTION_DAYS));
    assert!(should_evict("2023-10-17.log", cutoff - NANOS_PER_SECOND, now, RETENTION_DAYS));
}

#[test]
fn only_day_logs_are_evicted() {
    let now = 1_705_312_800 * NANOS_PER_SECOND;
    assert!(should_evict("old.log", 0, now, 90));
    assert!(!should_evict("old.txt", 0, now, 90));
    assert!(!should_evict("launchd.log", 0, now, 90));
    assert!(!should_evict("fresh.log", now, now, 90));
    assert!(should_evict("before-the-epoch.log", -5, 0, 0));
}

#[test]
fn texts_are_ordered_as_strings_are() {
    let samples = ["", "a", "ab", "b", "B", "2024-01-15", "2024-01-2", "\u{e9}", "z", "a\u{10000}", "a\u{ffff}"];
    for a in samples {
        for b in samples {
            assert_eq!(text_not_after(&chars(a), &chars(b)), a <= b);
        }
    }
}

#[test]
fn texts_are_sorted_ascending() {
    let list: Vec<Vec<char>> = ["b", "a", "", "ab", "a"].iter().map(|s| chars(s)).collect();
    let expected: Vec<Vec<char>> = ["", "a", "a", "ab", "b"].iter().map(|s| chars(s)).collect();
    assert_eq!(sort_texts(&list), expected);
    assert_eq!(sort_texts(&Vec::new()), Vec::<Vec<char>>::new());
}

#[test]
fn dates_are_listed_in_ascending_order() {
    let names = lines_of(&[
        "2024-02-01.log",
        "launchd.log",
        "2023-12-31.log",
        "readme.md",
        "2024-01-15.log",
        "2024-01-15.log.log",
        "2024-01-02.log",
    ]);
    assert_eq!(
        list_dates(&names),
        lines_of(&["2023-12-31", "2024-01-02", "2024-01-15", "2024-01-15.log", "2024-02-01"])
    );
}

#[test]
fn listed_date_names_its_log_again() {
    for name in ["2024-01-15.log", "2024-01-15.log.log", ".log", "a.b.log"] {
        let dates = list_dates(&lines_of(&[name]));
        assert_eq!(dates.len(), 1);
        assert_eq!(log_file_name(&dates[0]), name);
    }
}

#[test]
fn directory_without_logs_has_no_dates() {
    assert_eq!(list_dates(&Vec::new()), Vec::<String>::new());
    assert_eq!(list_dates(&lines_of(&["a.txt", "launchd.log"])), Vec::<String>::new());
    assert_eq!(list_dates(&lines_of(&[".log"])), lines_of(&[""]));
}
