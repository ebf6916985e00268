//! Names of the day logs, and the retention policy: a log is evicted once
//! its last write is older than the retention window.
//!
//! Instants are whole nanoseconds since the Unix epoch, negative before it.

use crate::text::{chars_of, has_prefix_at, slice_chars};
use vstd::prelude::*;

verus! {

/// Days that a log is kept after its last write, unless told otherwise.
pub const RETENTION_DAYS: u64 = 90;

/// Nanoseconds in a day.
pub const NANOS_PER_DAY: i128 = 86_400_000_000_000;

/// Nanoseconds in a second.
pub const NANOS_PER_SECOND: i128 = 1_000_000_000;

/// A file name that follows the naming of day logs: it ends in `.log` and
/// does not begin with `launchd`.
pub open spec fn is_log_name(name: Seq<char>) -> bool {
    ".log"@.is_suffix_of(name) && !"launchd"@.is_prefix_of(name)
}

/// The date that a log's file name stands for: the name without the `.log`
/// at its end.
pub open spec fn log_date(name: Seq<char>) -> Seq<char> {
    if ".log"@.is_suffix_of(name) {
        name.take(name.len() - ".log"@.len())
    } else {
        name
    }
}

/// The date of a log's file name, followed by `.log`, is that file name.
pub proof fn lemma_log_name_of_date(name: Seq<char>)
    requires
        is_log_name(name),
    ensures
        log_date(name) + ".log"@ == name,
{
    let suffix = ".log"@;
    assert(suffix == name.subrange(name.len() - suffix.len(), name.len() as int));
    assert(log_date(name) + suffix =~= name);
}

/// The instant before which a last write is too old, `days` days before
/// `now`; the epoch where that instant cannot be held.
pub open spec fn retention_cutoff_of(now: i128, days: u64) -> int {
    if now - days * NANOS_PER_DAY >= i128::MIN {
        now - days * NANOS_PER_DAY
    } else {
        0
    }
}

/// A last write at `modified` is older than the cutoff. A write at the
/// cutoff itself is not.
pub open spec fn is_stale(modified: int, cutoff: int) -> bool {
    modified < cutoff
}

/// A log last written exactly at the cutoff is kept, and one written a
/// second before it, or at any instant before it, is evicted.
pub proof fn lemma_retention_boundary(now: i128, days: u64)
    ensures
        !is_stale(retention_cutoff_of(now, days), retention_cutoff_of(now, days)),
        is_stale(retention_cutoff_of(now, days) - NANOS_PER_SECOND, retention_cutoff_of(now, days)),
        forall|modified: int|
            modified < retention_cutoff_of(now, days) ==> #[trigger] is_stale(
                modified,
                retention_cutoff_of(now, days),
            ),
{
}

/// Whether `pattern` stands at the end of `name`.
pub fn has_suffix(name: &Vec<char>, pattern: &Vec<char>) -> (r: bool)
    ensures
        r == pattern@.is_suffix_of(name@),
{
    if pattern.len() > name.len() {
        return false;
    }
    let from: usize = name.len() - pattern.len();
    proof {
        let tail = name@.skip(from as int);
        assert(tail == name@.subrange(from as int, name.len() as int));
        assert(tail.subrange(0, pattern.len() as int) == tail);
    }
    has_prefix_at(name, from, pattern)
}

/// Whether a file name follows the naming of day logs.
pub fn is_log_file(name: &str) -> (r: bool)
    ensures
        r == is_log_name(name@),
{
    let chars = chars_of(name);
    let suffix = chars_of(".log");
    let other = chars_of("launchd");
    assert(chars@.skip(0) == chars@);
    has_suffix(&chars, &suffix) && !has_prefix_at(&chars, 0, &other)
}

/// The date that a log's file name stands for.
pub fn date_of_log(name: &Vec<char>) -> (date: Vec<char>)
    ensures
        date@ == log_date(name@),
{
    let suffix = chars_of(".log");
    let end: usize = if has_suffix(name, &suffix) {
        name.len() - suffix.len()
    } else {
        name.len()
    };
    proof {
        assert(name@.take(end as int) == name@.subrange(0, end as int));
        assert(name@.take(name.len() as int) == name@);
    }
    slice_chars(name, 0, end)
}

/// The file name of the log of a day: the date and `.log`.
pub fn log_file_name(date: &str) -> (name: String)
    ensures
        name@ == date@ + ".log"@,
{
    let mut name = String::from_str(date);
    name.append(".log");
    name
}

/// The instant before which a last write is too old.
pub fn retention_cutoff(now: i128, days: u64) -> (cutoff: i128)
    ensures
        cutoff == retention_cutoff_of(now, days),
{
    let window: i128 = (days as i128) * NANOS_PER_DAY;
    match now.checked_sub(window) {
        Some(cutoff) => cutoff,
        None => 0,
    }
}

/// Whether a last write at `modified` is older than `cutoff`.
pub fn is_expired(modified: i128, cutoff: i128) -> (r: bool)
    ensures
        r == is_stale(modified as int, cutoff as int),
{
    modified < cutoff
}

/// Whether the file `name`, last written at `modified`, is to be removed at
/// `now` under a retention of `days` days: it is named like a day log, and
/// its last write is older than the cutoff.
pub fn should_evict(name: &str, modified: i128, now: i128, days: u64) -> (r: bool)
    ensures
        r == (is_log_name(name@) && is_stale(modified as int, retention_cutoff_of(now, days))),
{
    is_log_file(name) && is_expired(modified, retention_cutoff(now, days))
}

} // verus!
