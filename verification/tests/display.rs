use resource_monitor::display::{
    cap_lines, classify_line, trim_snapshot, truncate_snapshot, LineKind,
};
use resource_monitor::snapshot::{parse_snapshots, snapshot_from_lines, Snapshot};

fn lines_of(items: &[&str]) -> Vec<String> {
    items.iter().map(|s| s.to_string()).collect()
}

fn sample() -> Snapshot {
    snapshot_from_lines(lines_of(&[
        "=== 2024-01-15 10:00:00 ===",
        "-- CPU --",
        "  PID %CPU %MEM RSS COMM",
        "1 9.0 1.0 10 a",
        "2 8.0 1.0 10 b",
        "3 7.0 1.0 10 c",
        "-- MEM --",
        "  PID %CPU %MEM RSS COMM",
        "3 7.0 5.0 10 c",
        "",
        "1 9.0 4.0 10 a",
        "2 8.0 3.0 10 b",
        "",
    ]))
}

fn kind(line: &str) -> LineKind {
    classify_line(&line.chars().collect())
}

#[test]
fn lines_are_classified() {
    assert_eq!(kind("=== 2024-01-15 10:00:00 ==="), LineKind::Fixed);
    assert_eq!(kind("=== "), LineKind::Fixed);
    assert_eq!(kind("PID %CPU"), LineKind::Fixed);
    assert_eq!(kind(" \t PID"), LineKind::Fixed);
    assert_eq!(kind("PIDGIN 1 2"), LineKind::Fixed);
    assert_eq!(kind("-- CPU --"), LineKind::Marker);
    assert_eq!(kind("-- "), LineKind::Marker);
    assert_eq!(kind("-- PID"), LineKind::Marker);
    assert_eq!(kind("1 2.0 3.0 4 sh"), LineKind::Row);
    assert_eq!(kind("==="), LineKind::Row);
    assert_eq!(kind("--"), LineKind::Row);
    assert_eq!(kind(" === x ==="), LineKind::Row);
    assert_eq!(kind("pid"), LineKind::Row);
    assert_eq!(kind(""), LineKind::Blank);
    assert_eq!(kind(" \t\r"), LineKind::Blank);
    assert_eq!(kind("\u{a0}\u{2003}\u{3000}"), LineKind::Blank);
    assert_eq!(kind("\u{200b}"), LineKind::Row);
}

#[test]
fn each_section_is_capped() {
    assert_eq!(
        trim_snapshot(&sample(), 2),
        "=== 2024-01-15 10:00:00 ===\n-- CPU --\n  PID %CPU %MEM RSS COMM\n1 9.0 1.0 10 a\n2 8.0 1.0 10 b\n-- MEM --\n  PID %CPU %MEM RSS COMM\n3 7.0 5.0 10 c\n\n1 9.0 4.0 10 a"
    );
}

#[test]
fn a_looser_limit_shows_what_was_captured_and_no_more() {
    assert_eq!(
        trim_snapshot(&sample(), 50),
        "=== 2024-01-15 10:00:00 ===\n-- CPU --\n  PID %CPU %MEM RSS COMM\n1 9.0 1.0 10 a\n2 8.0 1.0 10 b\n3 7.0 1.0 10 c\n-- MEM --\n  PID %CPU %MEM RSS COMM\n3 7.0 5.0 10 c\n\n1 9.0 4.0 10 a\n2 8.0 3.0 10 b"
    );
    assert_eq!(trim_snapshot(&sample(), usize::MAX), trim_snapshot(&sample(), 3));
}

#[test]
fn limit_zero_shows_no_data_row() {
    assert_eq!(
        trim_snapshot(&sample(), 0),
        "=== 2024-01-15 10:00:00 ===\n-- CPU --\n  PID %CPU %MEM RSS COMM\n-- MEM --\n  PID %CPU %MEM RSS COMM"
    );
}

#[test]
fn rows_without_a_marker_count_as_one_section() {
    let s = snapshot_from_lines(lines_of(&["a", "b", "PID", "c", "d"]));
    assert_eq!(cap_lines(&s.lines, 3), lines_of(&["a", "b", "PID", "c"]));
}

#[test]
fn trailing_whitespace_is_trimmed_from_the_block() {
    let s = snapshot_from_lines(lines_of(&["=== t ===", "row  ", "", "  ", ""]));
    assert_eq!(trim_snapshot(&s, 5), "=== t ===\nrow");
    let s = snapshot_from_lines(lines_of(&["", " "]));
    assert_eq!(trim_snapshot(&s, 5), "");
    assert_eq!(trim_snapshot(&snapshot_from_lines(Vec::new()), 5), "");
}

#[test]
fn leading_whitespace_of_the_block_stays() {
    let s = snapshot_from_lines(lines_of(&["", "  row"]));
    assert_eq!(trim_snapshot(&s, 5), "\n  row");
}

#[test]
fn truncation_keeps_the_timestamp_and_caps_the_lines() {
    let t = truncate_snapshot(&sample(), 1);
    assert_eq!(t.timestamp, "2024-01-15 10:00:00");
    assert_eq!(
        t.lines,
        lines_of(&[
            "=== 2024-01-15 10:00:00 ===",
            "-- CPU --",
            "  PID %CPU %MEM RSS COMM",
            "1 9.0 1.0 10 a",
            "-- MEM --",
            "  PID %CPU %MEM RSS COMM",
            "3 7.0 5.0 10 c",
            "",
            "",
        ])
    );
}

#[test]
fn truncating_twice_is_truncating_once() {
    for n in [0usize, 1, 2, 3, 10] {
        let once = truncate_snapshot(&sample(), n);
        let twice = truncate_snapshot(&once, n);
        assert_eq!(once, twice);
        assert_eq!(trim_snapshot(&once, n), trim_snapshot(&sample(), n));
    }
}

#[test]
fn rendering_a_rendered_block_again_changes_nothing() {
    for n in [1usize, 2, 3, 10] {
        let once = trim_snapshot(&sample(), n);
        let again = parse_snapshots(&once);
        assert_eq!(again.len(), 1);
        assert_eq!(trim_snapshot(&again[0], n), once);
    }
}

#[test]
fn a_stricter_limit_after_a_looser_one_is_the_stricter_one() {
    let loose = truncate_snapshot(&sample(), 3);
    assert_eq!(truncate_snapshot(&loose, 1), truncate_snapshot(&sample(), 1));
}

#[test]
fn marker_and_banner_need_their_trailing_space() {
    let s = snapshot_from_lines(lines_of(&["-- CPU --", "a", "-- "]));
    assert_eq!(trim_snapshot(&s, 1), "-- CPU --\na\n--");
    let again = parse_snapshots("-- CPU --\na\n--");
    assert_eq!(trim_snapshot(&again[0], 1), "-- CPU --\na");
    let s = snapshot_from_lines(lines_of(&["=== "]));
    assert_eq!(trim_snapshot(&s, 0), "===");
    assert_eq!(trim_snapshot(&parse_snapshots("===")[0], 0), "");
}
