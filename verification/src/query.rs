//! What the retriever shows for a query, given the text of the day's log.

use crate::cli::Args;
use crate::closest::{find_closest, target_text, timestamp_parses};
use crate::display::{render_lines, trim_snapshot};
use crate::snapshot::{parse_log, parse_snapshots, snapshot_views, Snapshot, SnapshotView};
use crate::text::{append_chars, chars_of, string_of, texts};
use vstd::prelude::*;

verus! {

/// Texts joined with one empty line between them.
pub open spec fn join_blocks(parts: Seq<Seq<char>>) -> Seq<char>
    decreases parts.len(),
{
    if parts.len() == 0 {
        Seq::empty()
    } else if parts.len() == 1 {
        parts[0]
    } else {
        join_blocks(parts.drop_last()) + seq!['\n', '\n'] + parts.last()
    }
}

/// What is shown for a day: every snapshot of it, rendered under the limit
/// `n`, in order, with an empty line between them; a message where the day
/// has no snapshot.
pub open spec fn day_text(snapshots: Seq<SnapshotView>, date: Seq<char>, n: nat) -> Seq<char> {
    if snapshots.len() == 0 {
        found_text(None, date, n)
    } else {
        join_blocks(snapshots.map_values(|s: SnapshotView| render_lines(s.lines, n)))
    }
}

/// What is shown for today without a time: the last snapshot, or a message
/// where there is none.
pub open spec fn last_text(snapshots: Seq<SnapshotView>, n: nat) -> Seq<char> {
    if snapshots.len() > 0 {
        render_lines(snapshots.last().lines, n)
    } else {
        "No snapshots found in today's log"@
    }
}

/// What is shown for a time of day: the snapshot found for it, or a message
/// where none was found.
pub open spec fn found_text(found: Option<SnapshotView>, date: Seq<char>, n: nat) -> Seq<char> {
    match found {
        Some(s) => render_lines(s.lines, n),
        None => "No snapshots found for "@ + date,
    }
}

/// The lines shown where the day has no log: a message, and the days that
/// have one, where there are any.
pub open spec fn missing_report(date: Seq<char>, dates: Seq<Seq<char>>) -> Seq<Seq<char>> {
    if dates.len() == 0 {
        seq!["No log file found for "@ + date]
    } else {
        seq!["No log file found for "@ + date, "Available dates:"@] + dates.map_values(
            |d: Seq<char>| "  "@ + d,
        )
    }
}

/// Renders every snapshot of the day `date` under the limit `top_n`, with an
/// empty line between them, or says that none was found for that day. A
/// snapshot without a readable banner is shown like any other.
pub fn render_day(snapshots: &Vec<Snapshot>, date: &str, top_n: usize) -> (out: String)
    ensures
        out@ == day_text(snapshot_views(snapshots@), date@, top_n as nat),
{
    if snapshots.len() == 0 {
        return render_found(None, date, top_n);
    }
    let ghost parts = snapshot_views(snapshots@).map_values(
        |s: SnapshotView| render_lines(s.lines, top_n as nat),
    );
    let mut out: Vec<char> = Vec::new();
    let mut i: usize = 0;
    while i < snapshots.len()
        invariant
            i <= snapshots.len(),
            parts == snapshot_views(snapshots@).map_values(
                |s: SnapshotView| render_lines(s.lines, top_n as nat),
            ),
            out@ == join_blocks(parts.take(i as int)),
        decreases snapshots.len() - i,
    {
        let ghost before = parts.take(i as int);
        let ghost after = parts.take(i + 1);
        let shown = trim_snapshot(&snapshots[i], top_n);
        proof {
            assert(after.drop_last() == before);
            assert(after.last() == shown@);
        }
        if i > 0 {
            out.push('\n');
            out.push('\n');
        }
        let chars = chars_of(shown.as_str());
        append_chars(&mut out, &chars);
        proof {
            if i > 0 {
                assert(out@ == join_blocks(before) + seq!['\n', '\n'] + shown@);
            } else {
                assert(before.len() == 0);
                assert(out@ == shown@);
            }
        }
        i += 1;
    }
    proof {
        assert(parts.take(snapshots.len() as int) == parts);
    }
    string_of(&out)
}

/// Renders the last snapshot under the limit `top_n`, or says that today's
/// log holds none.
pub fn render_last(snapshots: &Vec<Snapshot>, top_n: usize) -> (out: String)
    ensures
        out@ == last_text(snapshot_views(snapshots@), top_n as nat),
{
    if snapshots.len() > 0 {
        trim_snapshot(&snapshots[snapshots.len() - 1], top_n)
    } else {
        String::from_str("No snapshots found in today's log")
    }
}

/// Renders the snapshot that was found for a time of day under the limit
/// `top_n`, or says that none was found for `date`.
pub fn render_found(found: Option<&Snapshot>, date: &str, top_n: usize) -> (out: String)
    ensures
        out@ == found_text(
            match found {
                Some(s) => Some(s@),
                None => None,
            },
            date@,
            top_n as nat,
        ),
{
    match found {
        Some(snapshot) => trim_snapshot(snapshot, top_n),
        None => {
            let mut out = String::from_str("No snapshots found for ");
            out.append(date);
            out
        },
    }
}

/// The lines to show where the day `date` has no log; `dates` are the days
/// that have one.
pub fn missing_log_report(date: &str, dates: &Vec<String>) -> (lines: Vec<String>)
    ensures
        texts(lines@) == missing_report(date@, texts(dates@)),
{
    let mut lines: Vec<String> = Vec::new();
    let mut first = String::from_str("No log file found for ");
    first.append(date);
    lines.push(first);
    if dates.len() == 0 {
        proof {
            assert(texts(lines@) == missing_report(date@, texts(dates@)));
        }
        return lines;
    }
    lines.push(String::from_str("Available dates:"));
    let ghost head = seq!["No log file found for "@ + date@, "Available dates:"@];
    let ghost listed = texts(dates@).map_values(|d: Seq<char>| "  "@ + d);
    let mut i: usize = 0;
    proof {
        assert(texts(lines@) == head + listed.take(0));
    }
    while i < dates.len()
        invariant
            i <= dates.len(),
            head == seq!["No log file found for "@ + date@, "Available dates:"@],
            listed == texts(dates@).map_values(|d: Seq<char>| "  "@ + d),
            texts(lines@) == head + listed.take(i as int),
        decreases dates.len() - i,
    {
        let ghost before = texts(lines@);
        let mut line = String::from_str("  ");
        line.append(dates[i].as_str());
        lines.push(line);
        proof {
            assert(texts(lines@) == before.push("  "@ + dates@[i as int]@));
            assert(listed.take(i + 1) == listed.take(i as int).push(listed[i as int]));
            assert(head + listed.take(i + 1) == (head + listed.take(i as int)).push(
                listed[i as int],
            ));
        }
        i += 1;
    }
    proof {
        assert(listed.take(dates.len() as int) == listed);
    }
    lines
}

/// What the retriever shows for a query, given the text of the log of the
/// day asked for. With a time of day: the snapshot nearest to it, or a
/// message where none is found. With a date alone: every snapshot of the
/// day, or a message where it has none. With neither: the last snapshot, or
/// a message where there is none.
pub fn answer_query(content: &str, args: &Args) -> (out: String)
    ensures
        args@.time is None && args@.date_provided ==> out@ == day_text(
            parse_log(content@),
            args@.date,
            args@.top_n,
        ),
        args@.time is None && !args@.date_provided ==> out@ == last_text(
            parse_log(content@),
            args@.top_n,
        ),
        args@.time is Some && !timestamp_parses(target_text(args@.date, args@.time->0)) ==> out@
            == found_text(None, args@.date, args@.top_n),
        args@.time is Some && parse_log(content@).len() == 0 ==> out@ == found_text(
            None,
            args@.date,
            args@.top_n,
        ),
        args@.time is Some ==> out@ == found_text(None, args@.date, args@.top_n) || exists|i: int|
            0 <= i < parse_log(content@).len() && timestamp_parses(
                (#[trigger] parse_log(content@)[i]).timestamp,
            ) && out@ == found_text(Some(parse_log(content@)[i]), args@.date, args@.top_n),
{
    let snapshots = parse_snapshots(content);
    match &args.time {
        Some(time) => {
            let found = find_closest(&snapshots, args.date.as_str(), time.as_str());
            proof {
                if let Some(s) = found {
                    let i = choose|i: int| 0 <= i < snapshots.len() && #[trigger] snapshots@[i] == *s;
                    assert(snapshot_views(snapshots@)[i] == s@);
                }
            }
            render_found(found, args.date.as_str(), args.top_n)
        },
        None => {
            if args.date_provided {
                render_day(&snapshots, args.date.as_str(), args.top_n)
            } else {
                render_last(&snapshots, args.top_n)
            }
        },
    }
}

} // verus!
