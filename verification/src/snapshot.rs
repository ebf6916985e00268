//! Snapshot blocks and the parser of a day's log.

use crate::text::{
    chars_of, has_prefix_at, lines_of, rows, slice_chars, split_lines, string_of, texts,
};
use vstd::prelude::*;

verus! {

/// One capture event as it stands in a log: the lines of its block, banner
/// first, and the timestamp text taken from that banner.
#[derive(Debug, Clone, PartialEq, Eq)]
pub struct Snapshot {
    pub timestamp: String,
    pub lines: Vec<String>,
}

/// What a `Snapshot` holds, as plain sequences of characters.
pub ghost struct SnapshotView {
    pub timestamp: Seq<char>,
    pub lines: Seq<Seq<char>>,
}

impl View for Snapshot {
    type V = SnapshotView;

    open spec fn view(&self) -> SnapshotView {
        SnapshotView { timestamp: self.timestamp@, lines: texts(self.lines@) }
    }
}

/// The views of a vector of snapshots.
pub open spec fn snapshot_views(v: Seq<Snapshot>) -> Seq<SnapshotView> {
    v.map_values(|s: Snapshot| s@)
}

/// `=== `, which opens a banner line.
pub open spec fn banner_prefix() -> Seq<char> {
    seq!['=', '=', '=', ' ']
}

/// ` ===`, which closes a banner line.
pub open spec fn banner_suffix() -> Seq<char> {
    seq![' ', '=', '=', '=']
}

/// A line that opens a new block.
pub open spec fn is_banner(line: Seq<char>) -> bool {
    banner_prefix().is_prefix_of(line)
}

/// The timestamp text of a banner line: what stands between `=== ` and ` ===`.
/// A line that lacks either marker gives the empty text.
pub open spec fn banner_timestamp(line: Seq<char>) -> Seq<char> {
    if is_banner(line) && banner_suffix().is_suffix_of(line.skip(4)) {
        line.subrange(4, line.len() - 4)
    } else {
        Seq::empty()
    }
}

/// The snapshot made of the lines of one block.
pub open spec fn snapshot_of(lines: Seq<Seq<char>>) -> SnapshotView {
    SnapshotView {
        timestamp: if lines.len() > 0 {
            banner_timestamp(lines[0])
        } else {
            Seq::empty()
        },
        lines,
    }
}

/// The blocks of a sequence of lines: a block begins at the first line and
/// at every later banner line, and runs up to the next banner.
pub open spec fn group_blocks(lines: Seq<Seq<char>>) -> Seq<Seq<Seq<char>>>
    decreases lines.len(),
{
    if lines.len() == 0 {
        Seq::empty()
    } else {
        let before = group_blocks(lines.drop_last());
        if before.len() == 0 || is_banner(lines.last()) {
            before.push(seq![lines.last()])
        } else {
            before.drop_last().push(before.last().push(lines.last()))
        }
    }
}

/// The blocks divide the lines: laid end to end they are the lines again,
/// no block is empty, every block after the first begins with a banner, and
/// no other line of a block is a banner.
pub proof fn lemma_blocks_partition(lines: Seq<Seq<char>>)
    ensures
        group_blocks(lines).flatten() == lines,
        forall|b: int|
            0 <= b < group_blocks(lines).len() ==> (#[trigger] group_blocks(lines)[b]).len() > 0,
        forall|b: int|
            1 <= b < group_blocks(lines).len() ==> is_banner((#[trigger] group_blocks(lines)[b])[0]),
        forall|b: int, i: int|
            0 <= b < group_blocks(lines).len() && 1 <= i < group_blocks(lines)[b].len()
                ==> !is_banner(#[trigger] group_blocks(lines)[b][i]),
    decreases lines.len(),
{
    let blocks = group_blocks(lines);
    if lines.len() == 0 {
        assert(blocks.flatten() == lines);
    } else {
        let before = group_blocks(lines.drop_last());
        let line = lines.last();
        lemma_blocks_partition(lines.drop_last());
        assert(lines.drop_last().push(line) == lines);
        if before.len() == 0 || is_banner(line) {
            before.lemma_flatten_push(seq![line]);
            assert(before.flatten() + seq![line] == lines);
            assert forall|b: int| 0 <= b < blocks.len() implies (#[trigger] blocks[b]).len() > 0 by {
                if b < before.len() {
                    assert(blocks[b] == before[b]);
                }
            }
            assert forall|b: int| 1 <= b < blocks.len() implies is_banner(
                (#[trigger] blocks[b])[0],
            ) by {
                if b < before.len() {
                    assert(blocks[b] == before[b]);
                }
            }
            assert forall|b: int, i: int|
                0 <= b < blocks.len() && 1 <= i < blocks[b].len() implies !is_banner(
                #[trigger] blocks[b][i],
            ) by {
                if b < before.len() {
                    assert(blocks[b] == before[b]);
                }
            }
        } else {
            let head = before.drop_last();
            let open = before.last();
            assert(head.push(open) == before);
            head.lemma_flatten_push(open);
            head.lemma_flatten_push(open.push(line));
            assert(head.flatten() + open.push(line) == (head.flatten() + open).push(line));
            assert forall|b: int| 0 <= b < blocks.len() implies (#[trigger] blocks[b]).len() > 0 by {
                if b < head.len() {
                    assert(blocks[b] == before[b]);
                }
            }
            assert forall|b: int| 1 <= b < blocks.len() implies is_banner(
                (#[trigger] blocks[b])[0],
            ) by {
                if b < head.len() {
                    assert(blocks[b] == before[b]);
                } else {
                    assert(blocks[b][0] == before[b][0]);
                }
            }
            assert forall|b: int, i: int|
                0 <= b < blocks.len() && 1 <= i < blocks[b].len() implies !is_banner(
                #[trigger] blocks[b][i],
            ) by {
                if b < head.len() {
                    assert(blocks[b] == before[b]);
                } else if i < open.len() {
                    assert(blocks[b][i] == before[b][i]);
                }
            }
        }
    }
}

/// A block whose first line lacks the opening or the closing marker of a
/// banner has the empty timestamp, and still holds all its lines.
pub proof fn lemma_unreadable_banner(lines: Seq<Seq<char>>)
    requires
        lines.len() > 0,
        !is_banner(lines[0]) || !banner_suffix().is_suffix_of(lines[0].skip(4)),
    ensures
        snapshot_of(lines).timestamp == Seq::<char>::empty(),
        snapshot_of(lines).lines == lines,
{
}

/// The snapshots that the text of a log holds, in order.
pub open spec fn parse_log(text: Seq<char>) -> Seq<SnapshotView> {
    group_blocks(split_lines(text)).map_values(|b: Seq<Seq<char>>| snapshot_of(b))
}

/// The characters of `=== `.
pub fn banner_prefix_chars() -> (p: Vec<char>)
    ensures
        p@ == banner_prefix(),
{
    let mut p: Vec<char> = Vec::new();
    p.push('=');
    p.push('=');
    p.push('=');
    p.push(' ');
    p
}

/// The characters of ` ===`.
pub fn banner_suffix_chars() -> (p: Vec<char>)
    ensures
        p@ == banner_suffix(),
{
    let mut p: Vec<char> = Vec::new();
    p.push(' ');
    p.push('=');
    p.push('=');
    p.push('=');
    p
}

/// Reads the timestamp text off a banner line.
pub fn timestamp_of_banner(line: &Vec<char>) -> (out: Vec<char>)
    ensures
        out@ == banner_timestamp(line@),
{
    let n: usize = line.len();
    let prefix = banner_prefix_chars();
    let suffix = banner_suffix_chars();
    if n >= 8 && has_prefix_at(line, 0, &prefix) && has_prefix_at(line, n - 4, &suffix) {
        proof {
            assert(line@.skip(0) == line@);
            let rest = line@.skip(4);
            assert(rest.subrange(rest.len() - 4, rest.len() as int) == line@.skip(n - 4));
            assert(line@.skip(n - 4).subrange(0, 4) == line@.skip(n - 4));
        }
        slice_chars(line, 4, n - 4)
    } else {
        proof {
            assert(line@.skip(0) == line@);
            if n >= 8 {
                let rest = line@.skip(4);
                assert(rest.subrange(rest.len() - 4, rest.len() as int) == line@.skip(n - 4));
                assert(line@.skip(n - 4).subrange(0, 4) == line@.skip(n - 4));
            }
        }
        Vec::new()
    }
}

/// Makes the snapshot of one block from its lines. The timestamp is read off
/// the first line; it is empty where that line is no well-formed banner, and
/// where there is no line at all.
pub fn snapshot_from_lines(lines: Vec<String>) -> (snapshot: Snapshot)
    ensures
        snapshot@ == snapshot_of(texts(lines@)),
        snapshot.lines == lines,
{
    let timestamp = if lines.len() > 0 {
        let first = chars_of(lines[0].as_str());
        let stamp = timestamp_of_banner(&first);
        string_of(&stamp)
    } else {
        String::new()
    };
    Snapshot { timestamp, lines }
}

/// The line lists of a vector of snapshots.
pub open spec fn blocks_of(v: Seq<Snapshot>) -> Seq<Seq<Seq<char>>> {
    v.map_values(|s: Snapshot| texts(s.lines@))
}

/// Splits the text of a log into its snapshot blocks, in order. A text
/// without any banner is one block; an empty text has none.
pub fn parse_snapshots(content: &str) -> (snapshots: Vec<Snapshot>)
    ensures
        snapshot_views(snapshots@) == parse_log(content@),
{
    let text = chars_of(content);
    let lines = lines_of(&text);
    let prefix = banner_prefix_chars();
    let mut snapshots: Vec<Snapshot> = Vec::new();
    let mut current: Vec<String> = Vec::new();
    let ghost all = rows(lines@);
    let mut i: usize = 0;
    while i < lines.len()
        invariant
            i <= lines.len(),
            all == rows(lines@),
            prefix@ == banner_prefix(),
            i == 0 ==> current.len() == 0 && snapshots.len() == 0,
            i > 0 ==> current.len() > 0,
            i > 0 ==> group_blocks(all.take(i as int)) == blocks_of(snapshots@).push(
                texts(current@),
            ),
            forall|k: int|
                0 <= k < snapshots.len() ==> (#[trigger] snapshots@[k])@ == snapshot_of(
                    texts(snapshots@[k].lines@),
                ),
        decreases lines.len() - i,
    {
        let line = &lines[i];
        let ghost before = all.take(i as int);
        let ghost after = all.take(i + 1);
        let ghost old_blocks = blocks_of(snapshots@);
        let ghost old_current = texts(current@);
        proof {
            assert(after.drop_last() == before);
            assert(after.last() == line@);
            assert(line@.skip(0) == line@);
        }
        let banner = has_prefix_at(line, 0, &prefix);
        if banner && current.len() > 0 {
            let block = current;
            current = Vec::new();
            let snapshot = snapshot_from_lines(block);
            snapshots.push(snapshot);
            proof {
                assert(blocks_of(snapshots@) == old_blocks.push(old_current));
            }
        }
        let ghost mid_current = texts(current@);
        current.push(string_of(line));
        proof {
            assert(texts(current@) == mid_current.push(line@));
            if i == 0 {
                assert(group_blocks(before).len() == 0);
                assert(mid_current.push(line@) == seq![line@]);
                assert(blocks_of(snapshots@).len() == 0);
                assert(group_blocks(after) == Seq::<Seq<Seq<char>>>::empty().push(seq![line@]));
                assert(blocks_of(snapshots@) == Seq::<Seq<Seq<char>>>::empty());
            } else if banner {
                assert(mid_current.push(line@) == seq![line@]);
                assert(group_blocks(after) == group_blocks(before).push(seq![line@]));
            } else {
                assert(group_blocks(before).drop_last() == old_blocks);
                assert(group_blocks(before).last() == old_current);
                assert(group_blocks(after) == old_blocks.push(old_current.push(line@)));
            }
        }
        i += 1;
    }
    proof {
        assert(all.take(lines.len() as int) == all);
    }
    if current.len() > 0 {
        let ghost old_views = snapshot_views(snapshots@);
        let ghost old_blocks = blocks_of(snapshots@);
        let ghost last_block = texts(current@);
        let snapshot = snapshot_from_lines(current);
        snapshots.push(snapshot);
        proof {
            assert(snapshot_views(snapshots@) == old_views.push(snapshot_of(last_block)));
            assert(old_views == old_blocks.map_values(|b: Seq<Seq<char>>| snapshot_of(b)));
            assert(parse_log(content@) == old_blocks.map_values(
                |b: Seq<Seq<char>>| snapshot_of(b),
            ).push(snapshot_of(last_block)));
        }
    } else {
        proof {
            assert(lines.len() == 0);
            assert(snapshot_views(snapshots@) == parse_log(content@));
        }
    }
    snapshots
}

} // verus!
