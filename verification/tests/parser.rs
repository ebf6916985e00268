use resource_monitor::capture::format_snapshot;
use resource_monitor::snapshot::{parse_snapshots, snapshot_from_lines, Snapshot};
use resource_monitor::text::chars_of;

fn strings(items: &[&str]) -> Vec<String> {
    items.iter().map(|s| s.to_string()).collect()
}

#[test]
fn chars_of_keeps_every_character() {
    assert_eq!(chars_of("a\u{e9}\n"), vec!['a', '\u{e9}', '\n']);
    assert_eq!(chars_of(""), Vec::<char>::new());
}

#[test]
fn empty_log_has_no_snapshot() {
    assert_eq!(parse_snapshots(""), Vec::<Snapshot>::new());
}

#[test]
fn log_without_banner_is_one_anonymous_block() {
    let found = parse_snapshots("first\nsecond\n");
    assert_eq!(found.len(), 1);
    assert_eq!(found[0].timestamp, "");
    assert_eq!(found[0].lines, strings(&["first", "second"]));
}

#[test]
fn blocks_begin_at_each_banner() {
    let log = "=== 2024-01-15 10:00:00 ===\n-- CPU --\nPID %CPU\n1 2.0\n\n=== 2024-01-15 10:30:00 ===\n-- CPU --\nPID %CPU\n7 9.0\n";
    let found = parse_snapshots(log);
    assert_eq!(found.len(), 2);
    assert_eq!(found[0].timestamp, "2024-01-15 10:00:00");
    assert_eq!(
        found[0].lines,
        strings(&["=== 2024-01-15 10:00:00 ===", "-- CPU --", "PID %CPU", "1 2.0", ""])
    );
    assert_eq!(found[1].timestamp, "2024-01-15 10:30:00");
    assert_eq!(
        found[1].lines,
        strings(&["=== 2024-01-15 10:30:00 ===", "-- CPU --", "PID %CPU", "7 9.0"])
    );
}

#[test]
fn lines_before_the_first_banner_are_a_block_of_their_own() {
    let found = parse_snapshots("stray\n=== t ===\nrow");
    assert_eq!(found.len(), 2);
    assert_eq!(found[0].timestamp, "");
    assert_eq!(found[0].lines, strings(&["stray"]));
    assert_eq!(found[1].timestamp, "t");
    assert_eq!(found[1].lines, strings(&["=== t ===", "row"]));
}

#[test]
fn trailing_block_without_final_line_feed_is_flushed() {
    let found = parse_snapshots("=== a ===\nx\n=== b ===\ny");
    assert_eq!(found.len(), 2);
    assert_eq!(found[1].lines, strings(&["=== b ===", "y"]));
}

#[test]
fn banner_without_suffix_gives_empty_timestamp_and_keeps_the_block() {
    let found = parse_snapshots("=== 2024-01-15 10:00:00\nrow one\n=== 2024-01-15 10:30:00 ===\nrow two\n");
    assert_eq!(found.len(), 2);
    assert_eq!(found[0].timestamp, "");
    assert_eq!(found[0].lines, strings(&["=== 2024-01-15 10:00:00", "row one"]));
    assert_eq!(found[1].timestamp, "2024-01-15 10:30:00");
}

#[test]
fn carriage_return_before_line_feed_is_dropped() {
    let found = parse_snapshots("=== t ===\r\nrow\r\n");
    assert_eq!(found.len(), 1);
    assert_eq!(found[0].timestamp, "t");
    assert_eq!(found[0].lines, strings(&["=== t ===", "row"]));
}

#[test]
fn bare_carriage_return_at_the_end_is_kept() {
    let found = parse_snapshots("a\r\rb\r");
    assert_eq!(found[0].lines, strings(&["a\r\rb\r"]));
    let found = parse_snapshots("one\ntwo\r");
    assert_eq!(found[0].lines, strings(&["one", "two\r"]));
}

#[test]
fn empty_lines_are_lines() {
    let found = parse_snapshots("\n\nx\n\n");
    assert_eq!(found.len(), 1);
    assert_eq!(found[0].lines, strings(&["", "", "x", ""]));
}

#[test]
fn snapshot_from_lines_reads_the_banner() {
    let s = snapshot_from_lines(strings(&["=== 2024-01-15 10:00:00 ===", "row"]));
    assert_eq!(s.timestamp, "2024-01-15 10:00:00");
    assert_eq!(s.lines, strings(&["=== 2024-01-15 10:00:00 ===", "row"]));
}

#[test]
fn snapshot_from_lines_defaults_to_empty_timestamp() {
    assert_eq!(snapshot_from_lines(Vec::new()).timestamp, "");
    assert_eq!(snapshot_from_lines(strings(&["row"])).timestamp, "");
    assert_eq!(snapshot_from_lines(strings(&["=== "])).timestamp, "");
    assert_eq!(snapshot_from_lines(strings(&["=== ==="])).timestamp, "");
    assert_eq!(snapshot_from_lines(strings(&["===  ==="])).timestamp, "");
    assert_eq!(snapshot_from_lines(strings(&["=== x"])).timestamp, "");
    assert_eq!(snapshot_from_lines(strings(&["x ==="])).timestamp, "");
    assert_eq!(snapshot_from_lines(strings(&[" === x ==="])).timestamp, "");
}

#[test]
fn snapshot_from_lines_takes_what_stands_between_the_markers() {
    assert_eq!(snapshot_from_lines(strings(&["=== x ==="])).timestamp, "x");
    assert_eq!(snapshot_from_lines(strings(&["===   ==="])).timestamp, " ");
    assert_eq!(snapshot_from_lines(strings(&["=== a === b ==="])).timestamp, "a === b");
    assert_eq!(snapshot_from_lines(strings(&["=== \u{e9}t\u{e9} ==="])).timestamp, "\u{e9}t\u{e9}");
}

#[test]
fn formatted_snapshot_is_parsed_back() {
    let cpu = strings(&["  12  9.5  1.0  2048 firefox", "   3  1.0  0.2   512 sh"]);
    let mem = strings(&["  40  0.1  7.5 90000 chrome"]);
    let text = format_snapshot("2024-01-15 10:00:00", "PID %CPU %MEM RSS COMM", &cpu, &mem);
    let found = parse_snapshots(&text);
    assert_eq!(found.len(), 1);
    assert_eq!(found[0].timestamp, "2024-01-15 10:00:00");
    assert_eq!(
        found[0].lines,
        strings(&[
            "=== 2024-01-15 10:00:00 ===",
            "-- CPU --",
            "PID %CPU %MEM RSS COMM",
            "  12  9.5  1.0  2048 firefox",
            "   3  1.0  0.2   512 sh",
            "-- MEM --",
            "PID %CPU %MEM RSS COMM",
            "  40  0.1  7.5 90000 chrome",
            "",
        ])
    );
}

#[test]
fn formatted_snapshot_without_rows_is_parsed_back() {
    let none: Vec<String> = Vec::new();
    let text = format_snapshot("2024-01-15 10:00:00", "PID", &none, &none);
    let found = parse_snapshots(&text);
    assert_eq!(found.len(), 1);
    assert_eq!(found[0].timestamp, "2024-01-15 10:00:00");
    assert_eq!(
        found[0].lines,
        strings(&["=== 2024-01-15 10:00:00 ===", "-- CPU --", "PID", "", "-- MEM --", "PID", "", ""])
    );
}

#[test]
fn appended_snapshots_are_parsed_in_write_order() {
    let a = format_snapshot("2024-01-15 10:00:00", "PID", &strings(&["1 a"]), &strings(&["2 b"]));
    let b = format_snapshot("2024-01-15 10:30:00", "PID", &strings(&["3 c"]), &strings(&["4 d"]));
    let log = format!("{a}{b}");
    let found = parse_snapshots(&log);
    assert_eq!(found.len(), 2);
    assert_eq!(found[0], parse_snapshots(&a)[0]);
    assert_eq!(found[1], parse_snapshots(&b)[0]);
    assert_eq!(found[0].timestamp, "2024-01-15 10:00:00");
    assert_eq!(found[1].timestamp, "2024-01-15 10:30:00");
    assert_eq!(found[1].lines[3], "3 c");
    assert_eq!(found[1].lines[6], "4 d");
}
