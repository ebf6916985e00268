use resource_monitor::capture::{format_snapshot, snapshot_block, split_table};

fn lines_of(items: &[&str]) -> Vec<String> {
    items.iter().map(|s| s.to_string()).collect()
}

#[test]
fn table_is_split_into_header_and_rows() {
    let text = "  PID %CPU %MEM   RSS COMM\n    1  0.0  0.1  1234 init\n   22  3.5  1.0 20480 firefox\n";
    let (header, rows) = split_table(text);
    assert_eq!(header, "  PID %CPU %MEM   RSS COMM");
    assert_eq!(rows, lines_of(&["    1  0.0  0.1  1234 init", "   22  3.5  1.0 20480 firefox"]));
}

#[test]
fn header_is_kept_as_it_stands() {
    let (header, rows) = split_table("  PID %CPU\n    1  0.0\n\n   22  1.5\n");
    assert_eq!(header, "  PID %CPU");
    assert_eq!(rows, lines_of(&["    1  0.0", "   22  1.5"]));
    let (header, rows) = split_table("PID %CPU  \t\r\n 1 a");
    assert_eq!(header, "PID %CPU  \t");
    assert_eq!(rows, lines_of(&[" 1 a"]));
}

#[test]
fn blank_table_gives_the_default_header_and_no_rows() {
    for text in ["", "\n", "  \n\t \n", " \r\n\u{a0}"] {
        let (header, rows) = split_table(text);
        assert_eq!(header, "PID  %CPU %MEM    RSS COMM");
        assert_eq!(rows, Vec::<String>::new());
    }
}

#[test]
fn header_alone_gives_no_rows() {
    let (header, rows) = split_table("PID %CPU\n");
    assert_eq!(header, "PID %CPU");
    assert_eq!(rows, Vec::<String>::new());
    let (header, rows) = split_table("PID %CPU");
    assert_eq!(header, "PID %CPU");
    assert_eq!(rows, Vec::<String>::new());
}

#[test]
fn blank_lines_are_no_rows() {
    let (header, rows) = split_table("PID\n\n 1 a\n   \n 2 b\r\n\t\n 3 c   \n\n");
    assert_eq!(header, "PID");
    assert_eq!(rows, lines_of(&[" 1 a", " 2 b", " 3 c   "]));
}

#[test]
fn first_line_is_the_header_even_where_it_is_empty() {
    let (header, rows) = split_table("\nPID\n 1 a\n");
    assert_eq!(header, "");
    assert_eq!(rows, lines_of(&["PID", " 1 a"]));
}

#[test]
fn snapshot_is_written_in_the_log_format() {
    let text = format_snapshot(
        "2024-01-15 10:00:00",
        "PID %CPU %MEM RSS COMM",
        &lines_of(&["2 9.0 1.0 10 b", "1 8.0 2.0 10 a"]),
        &lines_of(&["1 8.0 2.0 10 a", "2 9.0 1.0 10 b"]),
    );
    assert_eq!(
        text,
        "=== 2024-01-15 10:00:00 ===\n-- CPU --\nPID %CPU %MEM RSS COMM\n2 9.0 1.0 10 b\n1 8.0 2.0 10 a\n-- MEM --\nPID %CPU %MEM RSS COMM\n1 8.0 2.0 10 a\n2 9.0 1.0 10 b\n\n"
    );
}

#[test]
fn snapshot_without_rows_has_empty_sections() {
    let none: Vec<String> = Vec::new();
    let text = format_snapshot("t", "PID  %CPU %MEM    RSS COMM", &none, &none);
    assert_eq!(
        text,
        "=== t ===\n-- CPU --\nPID  %CPU %MEM    RSS COMM\n\n-- MEM --\nPID  %CPU %MEM    RSS COMM\n\n\n"
    );
}

#[test]
fn block_holds_the_rows_ranked_by_each_metric() {
    let rows = lines_of(&["1 1.0 9.0 10 a", "2 5.0 2.0 10 b", "3 3.0 2.0 10 c"]);
    let cpu_keys = vec![Some(10), Some(50), Some(30)];
    let mem_keys = vec![Some(90), Some(20), Some(20)];
    assert_eq!(
        snapshot_block("2024-01-15 10:00:00", "  PID %CPU %MEM RSS COMM", &rows, &cpu_keys, &mem_keys),
        "=== 2024-01-15 10:00:00 ===\n-- CPU --\n  PID %CPU %MEM RSS COMM\n2 5.0 2.0 10 b\n3 3.0 2.0 10 c\n1 1.0 9.0 10 a\n-- MEM --\n  PID %CPU %MEM RSS COMM\n1 1.0 9.0 10 a\n2 5.0 2.0 10 b\n3 3.0 2.0 10 c\n\n"
    );
}

#[test]
fn block_holds_ten_rows_to_a_section() {
    let rows: Vec<String> = (0..12).map(|i| format!("row {i}")).collect();
    let up: Vec<Option<i64>> = (0..12).map(|i| Some(i as i64)).collect();
    let down: Vec<Option<i64>> = (0..12).map(|i| Some(-(i as i64))).collect();
    let block = snapshot_block("t", "PID", &rows, &up, &down);
    let cpu: Vec<String> = (2..12).rev().map(|i| format!("row {i}")).collect();
    let mem: Vec<String> = (0..10).map(|i| format!("row {i}")).collect();
    assert_eq!(
        block,
        format!("=== t ===\n-- CPU --\nPID\n{}\n-- MEM --\nPID\n{}\n\n", cpu.join("\n"), mem.join("\n"))
    );
}

#[test]
fn block_of_an_empty_table_has_empty_sections() {
    let block = snapshot_block("t", "PID  %CPU %MEM    RSS COMM", &Vec::new(), &Vec::new(), &Vec::new());
    assert_eq!(
        block,
        "=== t ===\n-- CPU --\nPID  %CPU %MEM    RSS COMM\n\n-- MEM --\nPID  %CPU %MEM    RSS COMM\n\n\n"
    );
}
