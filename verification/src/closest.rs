//! Closest-timestamp retrieval: which snapshot of a day lies nearest to a
//! requested time of day.

use crate::snapshot::Snapshot;
use crate::text::{append_chars, chars_of, string_of};
use chrono::TimeZone;
use vstd::prelude::*;

verus! {

/// A calendar date and time of day without a time zone, as chrono holds it.
#[verifier::external_type_specification]
#[verifier::external_body]
pub struct ExNaiveDateTime(chrono::NaiveDateTime);

/// The format of the timestamp in a banner: year, month, day, hour, minute
/// and second, in chrono's notation.
pub open spec fn banner_format() -> Seq<char> {
    "%Y-%m-%d %H:%M:%S"@
}

/// Whether chrono reads `ts` as a date and time written in `format`.
pub uninterp spec fn parses_as(ts: Seq<char>, format: Seq<char>) -> bool;

/// Whether chrono reads `ts` as a date and time in the banner's format.
pub open spec fn timestamp_parses(ts: Seq<char>) -> bool {
    parses_as(ts, banner_format())
}

/// `chrono::NaiveDateTime::parse_from_str`, for the banner's format.
/// Trusted: whether the text is read depends on the text and the format
/// alone, and an empty text is never read (the year needs a digit).
#[verifier::external_body]
fn parse_naive(ts: &str, format: &str) -> (naive: Option<chrono::NaiveDateTime>)
    requires
        format@ == banner_format(),
    ensures
        naive is Some <==> parses_as(ts@, format@),
        naive is Some ==> ts@.len() > 0,
{
    chrono::NaiveDateTime::parse_from_str(ts, format).ok()
}

/// `chrono::Local.from_local_datetime(..).single()`, then
/// `DateTime::timestamp`: the seconds since the epoch at which the machine's
/// time zone shows `naive`, or `None` where no instant or more than one does.
/// Trusted, with nothing claimed of the result: it depends on the time zone.
#[verifier::external_body]
fn local_timestamp(naive: &chrono::NaiveDateTime) -> (epoch: Option<i64>) {
    match chrono::Local.from_local_datetime(naive).single() {
        Some(instant) => Some(instant.timestamp()),
        None => None,
    }
}

/// The seconds since the epoch of a timestamp text, read in the banner's
/// format and in the local time zone. `None` where the text is not in that
/// format, and where the time zone has no single instant for it.
pub fn to_epoch(ts: &str) -> (epoch: Option<i64>)
    ensures
        epoch is Some ==> timestamp_parses(ts@) && ts@.len() > 0,
{
    match parse_naive(ts, "%Y-%m-%d %H:%M:%S") {
        Some(naive) => local_timestamp(&naive),
        None => None,
    }
}

/// The full timestamp text of a query: date, a space, time of day, and `:00`
/// for the seconds.
pub open spec fn target_text(date: Seq<char>, time: Seq<char>) -> Seq<char> {
    date + seq![' '] + time + seq![':', '0', '0']
}

/// Builds the timestamp text of a query from its date and its time of day.
pub fn target_timestamp(date: &str, time: &str) -> (text: String)
    ensures
        text@ == target_text(date@, time@),
{
    let mut out: Vec<char> = chars_of(date);
    out.push(' ');
    let time_chars = chars_of(time);
    append_chars(&mut out, &time_chars);
    out.push(':');
    out.push('0');
    out.push('0');
    proof {
        assert(out@ == target_text(date@, time@));
    }
    string_of(&out)
}

/// Whole seconds between two instants.
pub open spec fn distance(epoch: i64, target: i64) -> int {
    if epoch >= target {
        epoch - target
    } else {
        target - epoch
    }
}

/// Candidate `i` is the closest to `target`: it has an instant, no candidate
/// is nearer, and every candidate before it is farther.
pub open spec fn is_closest(epochs: Seq<Option<i64>>, target: i64, i: int) -> bool {
    &&& 0 <= i < epochs.len()
    &&& epochs[i] is Some
    &&& forall|j: int|
        0 <= j < epochs.len() && (#[trigger] epochs[j]) is Some ==> distance(epochs[i]->0, target)
            <= distance(epochs[j]->0, target)
    &&& forall|j: int|
        0 <= j < i && (#[trigger] epochs[j]) is Some ==> distance(epochs[i]->0, target) < distance(
            epochs[j]->0,
            target,
        )
}

/// No entry of `epochs` has an instant.
pub open spec fn no_candidate(epochs: Seq<Option<i64>>) -> bool {
    forall|j: int| 0 <= j < epochs.len() ==> (#[trigger] epochs[j]) is None
}

/// At most one candidate is the closest.
pub proof fn lemma_closest_unique(epochs: Seq<Option<i64>>, target: i64, i: int, j: int)
    requires
        is_closest(epochs, target, i),
        is_closest(epochs, target, j),
    ensures
        i == j,
{
}

/// The closest candidate stays the closest when an entry is added that is
/// no candidate, or is a candidate that is not nearer.
proof fn lemma_closest_kept(
    seen: Seq<Option<i64>>,
    entry: Option<i64>,
    target: i64,
    b: int,
)
    requires
        is_closest(seen, target, b),
        entry matches Some(e) ==> distance(seen[b]->0, target) <= distance(e, target),
    ensures
        is_closest(seen.push(entry), target, b),
{
    let next = seen.push(entry);
    assert(next[b] == seen[b]);
    assert forall|j: int| 0 <= j < next.len() && (#[trigger] next[j]) is Some implies distance(
        next[b]->0,
        target,
    ) <= distance(next[j]->0, target) by {
        if j < seen.len() {
            assert(seen[j] is Some);
        }
    }
    assert forall|j: int| 0 <= j < b && (#[trigger] next[j]) is Some implies distance(
        next[b]->0,
        target,
    ) < distance(next[j]->0, target) by {
        assert(seen[j] is Some);
    }
}

/// A candidate that is nearer than the closest so far, or the first one
/// there is, is the closest once it is added.
proof fn lemma_closest_replaced(seen: Seq<Option<i64>>, epoch: i64, target: i64)
    requires
        no_candidate(seen) || exists|b: int|
            is_closest(seen, target, b) && distance(epoch, target) < distance(
                (#[trigger] seen[b])->0,
                target,
            ),
    ensures
        is_closest(seen.push(Some(epoch)), target, seen.len() as int),
{
    let next = seen.push(Some(epoch));
    assert forall|j: int| 0 <= j < seen.len() && (#[trigger] next[j]) is Some implies distance(
        epoch,
        target,
    ) < distance(next[j]->0, target) by {
        assert(seen[j] is Some);
    }
}

/// The index of the candidate nearest to `target`, the first of them where
/// several are equally near. An entry that is `None` is no candidate. `None`
/// where there is no candidate at all.
pub fn closest_index(epochs: &Vec<Option<i64>>, target: i64) -> (found: Option<usize>)
    ensures
        found is None <==> no_candidate(epochs@),
        found matches Some(i) ==> is_closest(epochs@, target, i as int),
{
    let mut best: Option<usize> = None;
    let mut best_distance: i128 = 0;
    let mut i: usize = 0;
    while i < epochs.len()
        invariant
            i <= epochs.len(),
            best is None <==> no_candidate(epochs@.take(i as int)),
            best matches Some(b) ==> b < i && is_closest(epochs@.take(i as int), target, b as int)
                && best_distance == distance(epochs@[b as int]->0, target),
        decreases epochs.len() - i,
    {
        let ghost seen = epochs@.take(i as int);
        proof {
            assert(epochs@.take(i + 1) == seen.push(epochs@[i as int]));
        }
        match epochs[i] {
            Some(epoch) => {
                let wide: i128 = epoch as i128 - target as i128;
                let d: i128 = if wide < 0 {
                    -wide
                } else {
                    wide
                };
                let nearer = match best {
                    Some(_) => d < best_distance,
                    None => true,
                };
                proof {
                    assert(seen.push(Some(epoch))[i as int] is Some);
                    if nearer {
                        lemma_closest_replaced(seen, epoch, target);
                    } else {
                        lemma_closest_kept(seen, Some(epoch), target, best->0 as int);
                    }
                }
                if nearer {
                    best = Some(i);
                    best_distance = d;
                }
            },
            None => {
                proof {
                    if let Some(b) = best {
                        lemma_closest_kept(seen, None, target, b as int);
                        assert(seen.push(None)[b as int] is Some);
                    } else {
                        assert forall|j: int| 0 <= j < i + 1 implies (#[trigger] seen.push(
                            None,
                        )[j]) is None by {
                            if j < i {
                                assert(seen[j] is None);
                            }
                        }
                    }
                }
            },
        }
        i += 1;
    }
    proof {
        assert(epochs@.take(epochs.len() as int) == epochs@);
    }
    best
}

/// The instant of each snapshot's timestamp in the local time zone; `None`
/// for a snapshot whose timestamp is not read, an empty one among them.
pub fn snapshot_epochs(snapshots: &Vec<Snapshot>) -> (epochs: Vec<Option<i64>>)
    ensures
        epochs.len() == snapshots.len(),
        forall|k: int|
            0 <= k < epochs.len() && (#[trigger] epochs@[k]) is Some ==> timestamp_parses(
                snapshots@[k].timestamp@,
            ) && snapshots@[k].timestamp@.len() > 0,
{
    let mut epochs: Vec<Option<i64>> = Vec::new();
    let mut i: usize = 0;
    while i < snapshots.len()
        invariant
            i <= snapshots.len(),
            epochs.len() == i,
            forall|k: int|
                0 <= k < i && (#[trigger] epochs@[k]) is Some ==> timestamp_parses(
                    snapshots@[k].timestamp@,
                ) && snapshots@[k].timestamp@.len() > 0,
        decreases snapshots.len() - i,
    {
        let epoch = to_epoch(snapshots[i].timestamp.as_str());
        epochs.push(epoch);
        i += 1;
    }
    epochs
}

/// The instants that count for `n` snapshots: one for each snapshot, as far
/// as `epochs` has them.
pub open spec fn candidates(epochs: Seq<Option<i64>>, n: nat) -> Seq<Option<i64>> {
    if epochs.len() <= n {
        epochs
    } else {
        epochs.take(n as int)
    }
}

/// The snapshot nearest to `target`, given the instant of each snapshot:
/// `epochs[i]` is the instant of `snapshots[i]`, and `None`, or no entry at
/// all, makes that snapshot no candidate. Of several that are equally near
/// the first is returned. `None` where there is no target or no candidate.
pub fn select_closest<'a>(
    snapshots: &'a Vec<Snapshot>,
    epochs: &Vec<Option<i64>>,
    target: Option<i64>,
) -> (found: Option<&'a Snapshot>)
    ensures
        found is None <==> target is None || no_candidate(
            candidates(epochs@, snapshots.len() as nat),
        ),
        found matches Some(s) ==> exists|i: int|
            is_closest(candidates(epochs@, snapshots.len() as nat), target->0, i)
                && #[trigger] snapshots@[i] == *s,
{
    let instant: i64 = match target {
        Some(t) => t,
        None => {
            return None;
        },
    };
    let mut counted: Vec<Option<i64>> = Vec::new();
    let mut k: usize = 0;
    while k < epochs.len() && k < snapshots.len()
        invariant
            k <= epochs.len(),
            k <= snapshots.len(),
            counted@ == epochs@.take(k as int),
        decreases epochs.len() - k,
    {
        counted.push(epochs[k]);
        assert(epochs@.take(k + 1) == epochs@.take(k as int).push(epochs@[k as int]));
        k += 1;
    }
    proof {
        assert(epochs@.take(epochs.len() as int) == epochs@);
        assert(counted@ == candidates(epochs@, snapshots.len() as nat));
    }
    match closest_index(&counted, instant) {
        Some(i) => Some(&snapshots[i]),
        None => None,
    }
}

/// The snapshot whose timestamp is nearest to `time` on `date`, the first of
/// them where several are equally near. Timestamps are read in the local time
/// zone. A snapshot whose timestamp is not read is no candidate. `None`
/// where the requested time itself is not read, and where no snapshot is a
/// candidate.
pub fn find_closest<'a>(snapshots: &'a Vec<Snapshot>, date: &str, time: &str) -> (found: Option<
    &'a Snapshot,
>)
    ensures
        !timestamp_parses(target_text(date@, time@)) ==> found is None,
        snapshots.len() == 0 ==> found is None,
        found matches Some(s) ==> timestamp_parses(s.timestamp@) && s.timestamp@.len() > 0
            && exists|i: int| 0 <= i < snapshots.len() && #[trigger] snapshots@[i] == *s,
{
    let text = target_timestamp(date, time);
    let target = to_epoch(text.as_str());
    let epochs = snapshot_epochs(snapshots);
    let found = select_closest(snapshots, &epochs, target);
    proof {
        if let Some(s) = found {
            let i = choose|i: int|
                is_closest(candidates(epochs@, snapshots.len() as nat), target->0, i)
                    && #[trigger] snapshots@[i] == *s;
            assert(epochs@[i] is Some);
        }
        if snapshots.len() == 0 {
            assert(no_candidate(candidates(epochs@, 0)));
        }
    }
    found
}

} // verus!
