use resource_monitor::cli::Args;
use resource_monitor::query::{
    answer_query, missing_log_report, render_day, render_found, render_last,
};
use resource_monitor::snapshot::{parse_snapshots, Snapshot};

const LOG: &str = "=== 2024-01-15 10:00:00 ===\n-- CPU --\nPID %CPU\n1 9.0\n2 8.0\n\n=== 2024-01-15 10:30:00\n-- CPU --\nPID %CPU\n3 7.0\n4 6.0\n\n=== 2024-01-15 11:00:00 ===\n-- CPU --\nPID %CPU\n5 5.0\n6 4.0\n\n";

fn lines_of(items: &[&str]) -> Vec<String> {
    items.iter().map(|s| s.to_string()).collect()
}

fn args(date_provided: bool, time: Option<&str>, top_n: usize) -> Args {
    Args {
        date: "2024-01-15".to_string(),
        date_provided,
        time: time.map(|t| t.to_string()),
        top_n,
    }
}

#[test]
fn day_shows_every_snapshot_with_an_empty_line_between() {
    let snapshots = parse_snapshots(LOG);
    assert_eq!(
        render_day(&snapshots, "2024-01-15", 1),
        "=== 2024-01-15 10:00:00 ===\n-- CPU --\nPID %CPU\n1 9.0\n\n=== 2024-01-15 10:30:00\n-- CPU --\nPID %CPU\n3 7.0\n\n=== 2024-01-15 11:00:00 ===\n-- CPU --\nPID %CPU\n5 5.0"
    );
    assert_eq!(render_day(&snapshots[..1].to_vec(), "2024-01-15", 9), "=== 2024-01-15 10:00:00 ===\n-- CPU --\nPID %CPU\n1 9.0\n2 8.0");
}

#[test]
fn last_snapshot_or_a_message() {
    let snapshots = parse_snapshots(LOG);
    assert_eq!(
        render_last(&snapshots, 2),
        "=== 2024-01-15 11:00:00 ===\n-- CPU --\nPID %CPU\n5 5.0\n6 4.0"
    );
    assert_eq!(render_last(&Vec::new(), 2), "No snapshots found in today's log");
    let broken_last = parse_snapshots("=== 2024-01-15 10:00:00 ===\na\n=== broken\nb\n");
    assert_eq!(render_last(&broken_last, 2), "=== broken\nb");
}

#[test]
fn found_snapshot_or_a_message() {
    let snapshots: Vec<Snapshot> = parse_snapshots(LOG);
    assert_eq!(
        render_found(Some(&snapshots[0]), "2024-01-15", 1),
        "=== 2024-01-15 10:00:00 ===\n-- CPU --\nPID %CPU\n1 9.0"
    );
    assert_eq!(render_found(None, "2024-01-15", 1), "No snapshots found for 2024-01-15");
}

#[test]
fn day_without_a_log_is_reported_with_the_days_that_have_one() {
    assert_eq!(
        missing_log_report("2024-03-01", &Vec::new()),
        lines_of(&["No log file found for 2024-03-01"])
    );
    assert_eq!(
        missing_log_report("2024-03-01", &lines_of(&["2024-01-15", "2024-02-01"])),
        lines_of(&[
            "No log file found for 2024-03-01",
            "Available dates:",
            "  2024-01-15",
            "  2024-02-01",
        ])
    );
}

#[test]
fn query_without_positionals_shows_the_last_snapshot() {
    assert_eq!(
        answer_query(LOG, &args(false, None, 1)),
        "=== 2024-01-15 11:00:00 ===\n-- CPU --\nPID %CPU\n5 5.0"
    );
    assert_eq!(answer_query("", &args(false, None, 1)), "No snapshots found in today's log");
}

#[test]
fn query_with_a_date_shows_the_whole_day() {
    let shown = answer_query(LOG, &args(true, None, 2));
    assert_eq!(
        shown,
        "=== 2024-01-15 10:00:00 ===\n-- CPU --\nPID %CPU\n1 9.0\n2 8.0\n\n=== 2024-01-15 10:30:00\n-- CPU --\nPID %CPU\n3 7.0\n4 6.0\n\n=== 2024-01-15 11:00:00 ===\n-- CPU --\nPID %CPU\n5 5.0\n6 4.0"
    );
}

#[test]
fn day_without_snapshots_is_reported() {
    assert_eq!(render_day(&Vec::new(), "2024-01-15", 1), "No snapshots found for 2024-01-15");
    assert_eq!(answer_query("", &args(true, None, 2)), "No snapshots found for 2024-01-15");
}

#[test]
fn query_with_a_time_shows_the_nearest_readable_snapshot() {
    assert_eq!(
        answer_query(LOG, &args(true, Some("10:31"), 1)),
        "=== 2024-01-15 11:00:00 ===\n-- CPU --\nPID %CPU\n5 5.0"
    );
    assert_eq!(
        answer_query(LOG, &args(true, Some("10:30"), 1)),
        "=== 2024-01-15 10:00:00 ===\n-- CPU --\nPID %CPU\n1 9.0"
    );
    assert_eq!(
        answer_query("", &args(true, Some("10:30"), 1)),
        "No snapshots found for 2024-01-15"
    );
    assert_eq!(
        answer_query(LOG, &args(true, Some("late"), 1)),
        "No snapshots found for 2024-01-15"
    );
}
