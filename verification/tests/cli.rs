use resource_monitor::cli::{parse_cli, parse_count, parse_top, Args, Command, DEFAULT_TOP};

fn lines_of(items: &[&str]) -> Vec<String> {
    items.iter().map(|s| s.to_string()).collect()
}

fn query(date: &str, date_provided: bool, time: Option<&str>, top_n: usize) -> Result<Command, String> {
    Ok(Command::Query(Args {
        date: date.to_string(),
        date_provided,
        time: time.map(|t| t.to_string()),
        top_n,
    }))
}

fn count(s: &str) -> Option<usize> {
    parse_count(&s.chars().collect())
}

#[test]
fn counts_are_decimal_digits_after_an_optional_plus() {
    assert_eq!(count("0"), Some(0));
    assert_eq!(count("42"), Some(42));
    assert_eq!(count("+42"), Some(42));
    assert_eq!(count("007"), Some(7));
    assert_eq!(count(&usize::MAX.to_string()), Some(usize::MAX));
    assert_eq!(count(""), None);
    assert_eq!(count("+"), None);
    assert_eq!(count("++1"), None);
    assert_eq!(count("-1"), None);
    assert_eq!(count("1 "), None);
    assert_eq!(count(" 1"), None);
    assert_eq!(count("1.0"), None);
    assert_eq!(count("1e3"), None);
    assert_eq!(count("\u{663}"), None);
    assert_eq!(count(&format!("{}0", usize::MAX)), None);
    assert_eq!(count("18446744073709551616"), "18446744073709551616".parse::<usize>().ok());
    assert_eq!(count("99999999999999999999999999999999999999999"), None);
}

#[test]
fn top_is_a_positive_count() {
    assert_eq!(parse_top("5"), Ok(5));
    assert_eq!(parse_top("+7"), Ok(7));
    assert_eq!(parse_top("010"), Ok(10));
    assert_eq!(parse_top("1"), Ok(1));
}

#[test]
fn top_zero_is_refused() {
    let message = "invalid value for --top: expected a positive integer.".to_string();
    assert_eq!(parse_top("0"), Err(message.clone()));
    assert_eq!(parse_top("+0"), Err(message.clone()));
    assert_eq!(parse_top("000"), Err(message));
}

#[test]
fn top_that_is_no_count_is_refused_with_its_text() {
    assert_eq!(
        parse_top("many"),
        Err("invalid value for --top: many. Expected a positive integer.".to_string())
    );
    assert_eq!(
        parse_top(""),
        Err("invalid value for --top: . Expected a positive integer.".to_string())
    );
    assert_eq!(
        parse_top("-3"),
        Err("invalid value for --top: -3. Expected a positive integer.".to_string())
    );
    assert_eq!(
        parse_top("99999999999999999999999"),
        Err("invalid value for --top: 99999999999999999999999. Expected a positive integer."
            .to_string())
    );
}

#[test]
fn no_argument_asks_for_today() {
    assert_eq!(DEFAULT_TOP, 10);
    assert_eq!(parse_cli(&Vec::new(), "2024-01-15"), query("2024-01-15", false, None, 10));
}

#[test]
fn positionals_are_date_and_time() {
    assert_eq!(
        parse_cli(&lines_of(&["2024-01-02"]), "2024-01-15"),
        query("2024-01-02", true, None, 10)
    );
    assert_eq!(
        parse_cli(&lines_of(&["2024-01-02", "10:40"]), "2024-01-15"),
        query("2024-01-02", true, Some("10:40"), 10)
    );
    assert_eq!(parse_cli(&lines_of(&[""]), "2024-01-15"), query("", true, None, 10));
}

#[test]
fn top_is_given_in_either_form() {
    assert_eq!(parse_cli(&lines_of(&["--top", "5"]), "d"), query("d", false, None, 5));
    assert_eq!(parse_cli(&lines_of(&["--top=5"]), "d"), query("d", false, None, 5));
    assert_eq!(parse_cli(&lines_of(&["--top=+5"]), "d"), query("d", false, None, 5));
    assert_eq!(
        parse_cli(&lines_of(&["2024-01-02", "--top", "3", "10:40"]), "d"),
        query("2024-01-02", true, Some("10:40"), 3)
    );
    assert_eq!(
        parse_cli(&lines_of(&["--top=2", "--top", "7"]), "d"),
        query("d", false, None, 7)
    );
    assert_eq!(parse_cli(&lines_of(&["--top", "--top=4"]), "d"),
        Err("invalid value for --top: --top=4. Expected a positive integer.".to_string()));
}

#[test]
fn malformed_arguments_are_refused() {
    assert_eq!(parse_cli(&lines_of(&["--top"]), "d"), Err("missing value for --top".to_string()));
    assert_eq!(
        parse_cli(&lines_of(&["2024-01-02", "--top"]), "d"),
        Err("missing value for --top".to_string())
    );
    assert_eq!(
        parse_cli(&lines_of(&["--top", "0"]), "d"),
        Err("invalid value for --top: expected a positive integer.".to_string())
    );
    assert_eq!(
        parse_cli(&lines_of(&["--top="]), "d"),
        Err("invalid value for --top: . Expected a positive integer.".to_string())
    );
    assert_eq!(
        parse_cli(&lines_of(&["--top=x"]), "d"),
        Err("invalid value for --top: x. Expected a positive integer.".to_string())
    );
    assert_eq!(
        parse_cli(&lines_of(&["--top=--top=5"]), "d"),
        Err("invalid value for --top: --top=5. Expected a positive integer.".to_string())
    );
    assert_eq!(
        parse_cli(&lines_of(&["--top=0"]), "d"),
        Err("invalid value for --top: expected a positive integer.".to_string())
    );
    assert_eq!(parse_cli(&lines_of(&["-x"]), "d"), Err("unknown flag: -x".to_string()));
    assert_eq!(parse_cli(&lines_of(&["--topmost"]), "d"), Err("unknown flag: --topmost".to_string()));
    assert_eq!(parse_cli(&lines_of(&["-"]), "d"), Err("unknown flag: -".to_string()));
    assert_eq!(
        parse_cli(&lines_of(&["a", "b", "c"]), "d"),
        Err("too many positional arguments".to_string())
    );
}

#[test]
fn help_ends_the_scan_where_it_stands() {
    assert_eq!(parse_cli(&lines_of(&["-h"]), "d"), Ok(Command::Help));
    assert_eq!(parse_cli(&lines_of(&["--help"]), "d"), Ok(Command::Help));
    assert_eq!(parse_cli(&lines_of(&["a", "b", "c", "--help"]), "d"), Ok(Command::Help));
    assert_eq!(parse_cli(&lines_of(&["--help", "-x"]), "d"), Ok(Command::Help));
    assert_eq!(parse_cli(&lines_of(&["-x", "--help"]), "d"), Err("unknown flag: -x".to_string()));
    assert_eq!(parse_cli(&lines_of(&["--top", "-h"]), "d"),
        Err("invalid value for --top: -h. Expected a positive integer.".to_string()));
}
