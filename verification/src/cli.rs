//! The retriever's command line: an optional date, an optional time of day,
//! and the number of rows to show in each section.

use crate::text::{chars_of, code_point, has_prefix_at, slice_chars, string_of, texts};
use vstd::prelude::*;

verus! {

/// Number of rows shown in each section where the command line names none.
pub const DEFAULT_TOP: usize = 10;

/// What the retriever was asked for.
#[derive(Debug, Clone, PartialEq, Eq)]
pub struct Args {
    /// The day whose log is read: the one given, or today.
    pub date: String,
    /// Whether the command line named the day.
    pub date_provided: bool,
    /// The time of day to look up, where one was given.
    pub time: Option<String>,
    /// The number of rows to show in each section; never 0.
    pub top_n: usize,
}

/// What a command line asks for.
#[derive(Debug, Clone, PartialEq, Eq)]
pub enum Command {
    /// The usage text.
    Help,
    /// A query of the logs.
    Query(Args),
}

/// What an `Args` holds, as plain values.
pub ghost struct ArgsView {
    pub date: Seq<char>,
    pub date_provided: bool,
    pub time: Option<Seq<char>>,
    pub top_n: nat,
}

/// What a `Command` holds, as plain values.
pub ghost enum CommandView {
    Help,
    Query(ArgsView),
}

impl View for Args {
    type V = ArgsView;

    open spec fn view(&self) -> ArgsView {
        ArgsView {
            date: self.date@,
            date_provided: self.date_provided,
            time: match self.time {
                Some(t) => Some(t@),
                None => None,
            },
            top_n: self.top_n as nat,
        }
    }
}

impl View for Command {
    type V = CommandView;

    open spec fn view(&self) -> CommandView {
        match self {
            Command::Help => CommandView::Help,
            Command::Query(args) => CommandView::Query(args@),
        }
    }
}

/// A decimal digit.
pub open spec fn is_digit(c: char) -> bool {
    0x30 <= c as int <= 0x39
}

/// Every character of `s` is a decimal digit.
pub open spec fn all_digits(s: Seq<char>) -> bool {
    forall|i: int| 0 <= i < s.len() ==> is_digit(#[trigger] s[i])
}

/// The number that a run of decimal digits writes.
pub open spec fn digits_value(s: Seq<char>) -> nat
    decreases s.len(),
{
    if s.len() == 0 {
        0
    } else {
        digits_value(s.drop_last()) * 10 + (s.last() as int - 0x30) as nat
    }
}

/// The digits of a count: the text itself, less one leading `+`.
pub open spec fn count_digits(s: Seq<char>) -> Seq<char> {
    if s.len() > 0 && s[0] == '+' {
        s.skip(1)
    } else {
        s
    }
}

/// The count that a text writes: one or more decimal digits, after an
/// optional `+`, whose value fits a `usize`. `None` for any other text.
pub open spec fn parsed_count(s: Seq<char>) -> Option<nat> {
    let digits = count_digits(s);
    if digits.len() > 0 && all_digits(digits) && digits_value(digits) <= usize::MAX {
        Some(digits_value(digits))
    } else {
        None
    }
}

/// The value of `--top`: the count that the text writes, which must not be
/// 0; else the message that says what is wrong.
pub open spec fn top_value(value: Seq<char>) -> Result<nat, Seq<char>> {
    match parsed_count(value) {
        None => Err("invalid value for --top: "@ + value + ". Expected a positive integer."@),
        Some(n) => if n == 0 {
            Err("invalid value for --top: expected a positive integer."@)
        } else {
            Ok(n)
        },
    }
}

/// Where a scan of the arguments stands, or how it ended.
pub ghost enum Scan {
    Help,
    Done { top_n: nat, positionals: Seq<Seq<char>> },
    Failed(Seq<char>),
}

/// Reads the arguments from left to right. `-h` and `--help` end the scan
/// at once. `--top` takes the next argument as its value, `--top=` all that
/// follows it in the same argument; a later value replaces an earlier one. Any other argument that
/// begins with `-` is an unknown flag. The rest are positional.
pub open spec fn scan_args(args: Seq<Seq<char>>, top_n: nat, positionals: Seq<Seq<char>>) -> Scan
    decreases args.len(),
{
    if args.len() == 0 {
        Scan::Done { top_n, positionals }
    } else {
        let arg = args[0];
        if arg == "-h"@ || arg == "--help"@ {
            Scan::Help
        } else if arg == "--top"@ {
            if args.len() < 2 {
                Scan::Failed("missing value for --top"@)
            } else {
                match top_value(args[1]) {
                    Ok(n) => scan_args(args.skip(2), n, positionals),
                    Err(m) => Scan::Failed(m),
                }
            }
        } else if "--top="@.is_prefix_of(arg) {
            match top_value(arg.skip(6)) {
                Ok(n) => scan_args(args.skip(1), n, positionals),
                Err(m) => Scan::Failed(m),
            }
        } else if arg.len() > 0 && arg[0] == '-' {
            Scan::Failed("unknown flag: "@ + arg)
        } else {
            scan_args(args.skip(1), top_n, positionals.push(arg))
        }
    }
}

/// What a command line asks for, or the message that says what is wrong
/// with it. Of the positional arguments the first is the date and the second
/// the time of day; more than two are an error. Without a date the day is
/// `today`.
pub open spec fn parse_args(args: Seq<Seq<char>>, today: Seq<char>) -> Result<
    CommandView,
    Seq<char>,
> {
    match scan_args(args, DEFAULT_TOP as nat, Seq::empty()) {
        Scan::Help => Ok(CommandView::Help),
        Scan::Failed(m) => Err(m),
        Scan::Done { top_n, positionals } => if positionals.len() > 2 {
            Err("too many positional arguments"@)
        } else {
            Ok(
                CommandView::Query(
                    ArgsView {
                        date: if positionals.len() > 0 {
                            positionals[0]
                        } else {
                            today
                        },
                        date_provided: positionals.len() > 0,
                        time: if positionals.len() > 1 {
                            Some(positionals[1])
                        } else {
                            None
                        },
                        top_n,
                    },
                ),
            )
        },
    }
}

/// The value of a run of digits is no less than that of any run it begins
/// with.
pub proof fn lemma_digits_value_monotone(s: Seq<char>, i: int)
    requires
        0 <= i <= s.len(),
    ensures
        digits_value(s.take(i)) <= digits_value(s),
    decreases s.len(),
{
    if i == s.len() {
        assert(s.take(i) == s);
    } else {
        lemma_digits_value_monotone(s.drop_last(), i);
        assert(s.drop_last().take(i) == s.take(i));
    }
}

/// Reads a count: one or more decimal digits after an optional `+`.
pub fn parse_count(value: &Vec<char>) -> (count: Option<usize>)
    ensures
        count matches Some(n) ==> parsed_count(value@) == Some(n as nat),
        count is None ==> parsed_count(value@) is None,
{
    let n: usize = value.len();
    let start: usize = if n > 0 && value[0] == '+' {
        1
    } else {
        0
    };
    let ghost digits = count_digits(value@);
    proof {
        assert(digits == value@.skip(start as int));
    }
    if start == n {
        return None;
    }
    let mut acc: usize = 0;
    let mut i: usize = start;
    while i < n
        invariant
            start <= i <= n,
            n == value.len(),
            digits == value@.skip(start as int),
            digits == count_digits(value@),
            all_digits(digits.take(i - start)),
            acc == digits_value(digits.take(i - start)),
        decreases n - i,
    {
        let c: char = value[i];
        let code: u32 = code_point(c);
        let ghost seen = digits.take(i - start);
        let ghost next = digits.take(i - start + 1);
        proof {
            assert(next.drop_last() == seen);
            assert(next.last() == c);
            assert(digits[i - start] == c);
        }
        if code < 0x30 || code > 0x39 {
            proof {
                assert(!is_digit(digits[i - start]));
            }
            return None;
        }
        let digit: usize = (code - 0x30) as usize;
        proof {
            lemma_digits_value_monotone(digits, i - start + 1);
        }
        let scaled: usize = match acc.checked_mul(10) {
            Some(v) => v,
            None => {
                return None;
            },
        };
        acc = match scaled.checked_add(digit) {
            Some(v) => v,
            None => {
                return None;
            },
        };
        proof {
            assert forall|j: int| 0 <= j < next.len() implies is_digit(#[trigger] next[j]) by {
                if j < seen.len() {
                    assert(next[j] == seen[j]);
                }
            }
        }
        i += 1;
    }
    proof {
        assert(digits.take(n - start) == digits);
    }
    Some(acc)
}

/// Reads the value of `--top`: a count that is not 0. The error is the
/// message for the user.
pub fn parse_top(value: &str) -> (top: Result<usize, String>)
    ensures
        top matches Ok(n) ==> top_value(value@) == Ok::<nat, Seq<char>>(n as nat),
        top matches Err(e) ==> top_value(value@) == Err::<nat, Seq<char>>(e@),
{
    let chars = chars_of(value);
    match parse_count(&chars) {
        None => {
            let mut message = String::from_str("invalid value for --top: ");
            message.append(value);
            message.append(". Expected a positive integer.");
            Err(message)
        },
        Some(n) => {
            if n == 0 {
                Err(String::from_str("invalid value for --top: expected a positive integer."))
            } else {
                Ok(n)
            }
        },
    }
}

/// Whether two rows of characters are the same text.
pub fn chars_equal(a: &Vec<char>, b: &Vec<char>) -> (same: bool)
    ensures
        same == (a@ == b@),
{
    if a.len() != b.len() {
        return false;
    }
    let mut i: usize = 0;
    while i < a.len()
        invariant
            a.len() == b.len(),
            i <= a.len(),
            forall|j: int| 0 <= j < i ==> a@[j] == b@[j],
        decreases a.len() - i,
    {
        if a[i] != b[i] {
            return false;
        }
        i += 1;
    }
    assert(a@ =~= b@);
    true
}

/// Reads the retriever's command line, the program's name left out.
/// `today` is the day that a query without a date is about. The error is the
/// message for the user.
pub fn parse_cli(args: &Vec<String>, today: &str) -> (parsed: Result<Command, String>)
    ensures
        parsed matches Ok(c) ==> parse_args(texts(args@), today@) == Ok::<CommandView, Seq<char>>(
            c@,
        ),
        parsed matches Err(e) ==> parse_args(texts(args@), today@) == Err::<
            CommandView,
            Seq<char>,
        >(e@),
{
    let short_help = chars_of("-h");
    let long_help = chars_of("--help");
    let top_flag = chars_of("--top");
    let top_assign = chars_of("--top=");
    let mut positionals: Vec<String> = Vec::new();
    let mut top_n: usize = DEFAULT_TOP;
    let ghost all = texts(args@);
    let mut i: usize = 0;
    assert(all.skip(0) == all);
    assert(texts(positionals@) == Seq::<Seq<char>>::empty());
    while i < args.len()
        invariant
            i <= args.len(),
            all == texts(args@),
            short_help@ == "-h"@,
            long_help@ == "--help"@,
            top_flag@ == "--top"@,
            top_assign@ == "--top="@,
            scan_args(all, DEFAULT_TOP as nat, Seq::empty()) == scan_args(
                all.skip(i as int),
                top_n as nat,
                texts(positionals@),
            ),
        decreases args.len() - i,
    {
        let arg = chars_of(args[i].as_str());
        let ghost rest = all.skip(i as int);
        proof {
            assert(rest[0] == arg@);
            assert(arg@.skip(0) == arg@);
            assert(rest.skip(1) == all.skip(i + 1));
        }
        if chars_equal(&arg, &short_help) || chars_equal(&arg, &long_help) {
            return Ok(Command::Help);
        } else if chars_equal(&arg, &top_flag) {
            if i + 1 >= args.len() {
                return Err(String::from_str("missing value for --top"));
            }
            proof {
                assert(rest[1] == args@[i + 1]@);
                assert(rest.skip(2) == all.skip(i + 2));
            }
            match parse_top(args[i + 1].as_str()) {
                Ok(n) => {
                    top_n = n;
                },
                Err(message) => {
                    return Err(message);
                },
            }
            i += 2;
        } else if has_prefix_at(&arg, 0, &top_assign) {
            proof {
                reveal_strlit("--top=");
                assert(arg@.skip(6) == arg@.subrange(6, arg.len() as int));
            }
            let value = slice_chars(&arg, 6, arg.len());
            let text = string_of(&value);
            match parse_top(text.as_str()) {
                Ok(n) => {
                    top_n = n;
                },
                Err(message) => {
                    return Err(message);
                },
            }
            i += 1;
        } else if arg.len() > 0 && arg[0] == '-' {
            let mut message = String::from_str("unknown flag: ");
            message.append(args[i].as_str());
            return Err(message);
        } else {
            let ghost before = texts(positionals@);
            positionals.push(args[i].clone());
            proof {
                assert(texts(positionals@) == before.push(arg@));
            }
            i += 1;
        }
    }
    if positionals.len() > 2 {
        return Err(String::from_str("too many positional arguments"));
    }
    let date_provided = positionals.len() > 0;
    let date = if positionals.len() > 0 {
        positionals[0].clone()
    } else {
        String::from_str(today)
    };
    let time = if positionals.len() > 1 {
        Some(positionals[1].clone())
    } else {
        None
    };
    Ok(Command::Query(Args { date, date_provided, time, top_n }))
}

} // verus!
