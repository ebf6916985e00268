//! What the writer and the parser of the log format owe each other: a
//! snapshot that is appended to a log is the snapshot that the parser finds
//! at its end.

use crate::capture::{cpu_marker, mem_marker, snapshot_text};
use crate::snapshot::{
    banner_prefix, banner_suffix, banner_timestamp, group_blocks, is_banner, parse_log,
    snapshot_of, SnapshotView,
};
use crate::text::{
    first_newline, is_plain_line, is_run, join_lines, lemma_run_length, no_line_feed, split_lines,
    strip_cr,
};
use vstd::prelude::*;

verus! {

/// Every line of `lines` is plain, and none of them is a banner.
pub open spec fn are_plain_rows(lines: Seq<Seq<char>>) -> bool {
    forall|i: int|
        0 <= i < lines.len() ==> is_plain_line(#[trigger] lines[i]) && !is_banner(lines[i])
}

/// The lines that a section's rows take up in a block: the rows, or one
/// empty line where there are none.
pub open spec fn rows_or_blank(rows: Seq<Seq<char>>) -> Seq<Seq<char>> {
    if rows.len() == 0 {
        seq![Seq::empty()]
    } else {
        rows
    }
}

/// The banner line of a timestamp.
pub open spec fn banner_line(timestamp: Seq<char>) -> Seq<char> {
    banner_prefix() + timestamp + banner_suffix()
}

/// The lines of the block that `snapshot_text` writes.
pub open spec fn block_lines(
    timestamp: Seq<char>,
    header: Seq<char>,
    cpu: Seq<Seq<char>>,
    mem: Seq<Seq<char>>,
) -> Seq<Seq<char>> {
    seq![banner_line(timestamp), cpu_marker(), header] + rows_or_blank(cpu) + seq![
        mem_marker(),
        header,
    ] + rows_or_blank(mem) + seq![Seq::empty()]
}

/// The lines of a text that ends in a line feed, followed by more text, are
/// the lines of the one and then the lines of the other.
pub proof fn lemma_split_lines_concat(a: Seq<char>, b: Seq<char>)
    requires
        a.len() == 0 || a.last() == '\n',
    ensures
        split_lines(a + b) == split_lines(a) + split_lines(b),
    decreases a.len(),
{
    if a.len() == 0 {
        assert(a + b == b);
        assert(split_lines(a) + split_lines(b) == split_lines(b));
    } else {
        let p = |c: char| c != '\n';
        let k = first_newline(a) as int;
        lemma_run_length(a, p, k);
        if k >= a.len() {
            assert(p(a[a.len() - 1]));
        }
        let ab = a + b;
        assert(is_run(ab, p, k)) by {
            assert forall|j: int| 0 <= j < k implies p(#[trigger] ab[j]) by {
                assert(ab[j] == a[j]);
            }
            assert(ab[k] == a[k]);
        }
        lemma_run_length(ab, p, k);
        assert(ab.take(k) == a.take(k));
        let rest = a.skip(k + 1);
        assert(ab.skip(k + 1) == rest + b);
        if rest.len() > 0 {
            assert(rest.last() == a.last());
        }
        lemma_split_lines_concat(rest, b);
        let head = seq![strip_cr(a.take(k))];
        assert(split_lines(ab) == head + split_lines(rest + b));
        assert(split_lines(a) == head + split_lines(rest));
        assert(head + (split_lines(rest) + split_lines(b)) == (head + split_lines(rest))
            + split_lines(b));
    }
}

/// A line without a line feed, followed by one, is read back as that line,
/// less a carriage return at its end.
pub proof fn lemma_split_single_line(line: Seq<char>)
    requires
        no_line_feed(line),
    ensures
        split_lines(line + seq!['\n']) == seq![strip_cr(line)],
{
    let p = |c: char| c != '\n';
    let text = line + seq!['\n'];
    let k = line.len() as int;
    assert(is_run(text, p, k)) by {
        assert forall|j: int| 0 <= j < k implies p(#[trigger] text[j]) by {
            assert(text[j] == line[j]);
        }
        assert(text[k] == '\n');
    }
    lemma_run_length(text, p, k);
    assert(text.take(k) == line);
    assert(text.skip(k + 1).len() == 0);
    assert(split_lines(text.skip(k + 1)) == Seq::<Seq<char>>::empty());
    assert(seq![strip_cr(line)] + Seq::<Seq<char>>::empty() == seq![strip_cr(line)]);
}

/// Plain lines that are joined and closed by a line feed are read back as
/// they were.
pub proof fn lemma_split_joined(lines: Seq<Seq<char>>)
    requires
        lines.len() > 0,
        forall|i: int| 0 <= i < lines.len() ==> is_plain_line(#[trigger] lines[i]),
    ensures
        split_lines(join_lines(lines) + seq!['\n']) == lines,
    decreases lines.len(),
{
    let last = lines.last();
    assert(is_plain_line(last));
    lemma_split_single_line(last);
    if lines.len() == 1 {
        assert(lines == seq![last]);
    } else {
        let before = lines.drop_last();
        assert forall|i: int| 0 <= i < before.len() implies is_plain_line(
            #[trigger] before[i],
        ) by {
            assert(before[i] == lines[i]);
        }
        lemma_split_joined(before);
        let a = join_lines(before) + seq!['\n'];
        let b = last + seq!['\n'];
        assert(join_lines(lines) + seq!['\n'] == a + b);
        lemma_split_lines_concat(a, b);
        assert(before + seq![last] == lines);
    }
}

/// Joining two lists of lines, one after the other, joins what each gives
/// with a line feed.
pub proof fn lemma_join_concat(x: Seq<Seq<char>>, y: Seq<Seq<char>>)
    requires
        x.len() > 0,
        y.len() > 0,
    ensures
        join_lines(x + y) == join_lines(x) + seq!['\n'] + join_lines(y),
    decreases y.len(),
{
    let all = x + y;
    assert(all.last() == y.last());
    if y.len() == 1 {
        assert(all.drop_last() == x);
    } else {
        assert(all.drop_last() == x + y.drop_last());
        lemma_join_concat(x, y.drop_last());
        assert(join_lines(all) == join_lines(x) + seq!['\n'] + join_lines(y.drop_last()) + seq![
            '\n',
        ] + y.last());
        assert(join_lines(y) == join_lines(y.drop_last()) + seq!['\n'] + y.last());
        assert(join_lines(x) + seq!['\n'] + join_lines(y.drop_last()) + seq!['\n'] + y.last()
            == join_lines(x) + seq!['\n'] + (join_lines(y.drop_last()) + seq!['\n'] + y.last()));
    }
}

/// The text of a snapshot is the lines of its block, joined, and closed by a
/// line feed.
pub proof fn lemma_snapshot_text_lines(
    timestamp: Seq<char>,
    header: Seq<char>,
    cpu: Seq<Seq<char>>,
    mem: Seq<Seq<char>>,
)
    ensures
        snapshot_text(timestamp, header, cpu, mem) == join_lines(
            block_lines(timestamp, header, cpu, mem),
        ) + seq!['\n'],
{
    let nl = seq!['\n'];
    let top = seq![banner_line(timestamp), cpu_marker(), header];
    let mid = seq![mem_marker(), header];
    let end = seq![Seq::<char>::empty()];
    let c = rows_or_blank(cpu);
    let m = rows_or_blank(mem);
    assert(join_lines(top) == banner_line(timestamp) + nl + cpu_marker() + nl + header) by {
        assert(top.drop_last() == seq![banner_line(timestamp), cpu_marker()]);
        assert(top.drop_last().drop_last() == seq![banner_line(timestamp)]);
        reveal_with_fuel(join_lines, 3);
    }
    assert(join_lines(mid) == mem_marker() + nl + header) by {
        assert(mid.drop_last() == seq![mem_marker()]);
        reveal_with_fuel(join_lines, 2);
    }
    assert(join_lines(end) == Seq::<char>::empty());
    assert(join_lines(c) == join_lines(cpu)) by {
        reveal_with_fuel(join_lines, 2);
    }
    assert(join_lines(m) == join_lines(mem)) by {
        reveal_with_fuel(join_lines, 2);
    }
    lemma_join_concat(top, c);
    lemma_join_concat(top + c, mid);
    lemma_join_concat(top + c + mid, m);
    lemma_join_concat(top + c + mid + m, end);
    let joined = join_lines(block_lines(timestamp, header, cpu, mem));
    assert(joined == join_lines(top) + nl + join_lines(c) + nl + join_lines(mid) + nl + join_lines(
        m,
    ) + nl + join_lines(end));
    assert(snapshot_text(timestamp, header, cpu, mem) =~= joined + nl);
}

/// Lines have blocks exactly where there are lines.
pub proof fn lemma_group_blocks_len(lines: Seq<Seq<char>>)
    ensures
        group_blocks(lines).len() > 0 <==> lines.len() > 0,
    decreases lines.len(),
{
    if lines.len() > 0 {
        lemma_group_blocks_len(lines.drop_last());
    }
}

/// Lines of which none but the first may be a banner are one block.
pub proof fn lemma_group_single_block(lines: Seq<Seq<char>>)
    requires
        lines.len() > 0,
        forall|i: int| 1 <= i < lines.len() ==> !is_banner(#[trigger] lines[i]),
    ensures
        group_blocks(lines) == seq![lines],
    decreases lines.len(),
{
    let before = lines.drop_last();
    if before.len() == 0 {
        assert(group_blocks(before).len() == 0);
        assert(lines == seq![lines.last()]);
    } else {
        assert forall|i: int| 1 <= i < before.len() implies !is_banner(#[trigger] before[i]) by {
            assert(before[i] == lines[i]);
        }
        lemma_group_single_block(before);
        assert(!is_banner(lines[lines.len() - 1]));
        assert(seq![before].drop_last().push(before.push(lines.last())) == seq![lines]) by {
            assert(before.push(lines.last()) == lines);
        }
    }
}

/// The blocks of lines that are followed by a banner and more lines are the
/// blocks of the one and then the blocks of the other.
pub proof fn lemma_group_concat(a: Seq<Seq<char>>, b: Seq<Seq<char>>)
    requires
        b.len() > 0 ==> is_banner(b[0]),
    ensures
        group_blocks(a + b) == group_blocks(a) + group_blocks(b),
    decreases b.len(),
{
    if b.len() == 0 {
        assert(a + b == a);
        assert(group_blocks(a) + group_blocks(b) == group_blocks(a));
    } else {
        let all = a + b;
        let rest = b.drop_last();
        assert(all.drop_last() == a + rest);
        assert(all.last() == b.last());
        if rest.len() > 0 {
            assert(rest[0] == b[0]);
        }
        lemma_group_concat(a, rest);
        lemma_group_blocks_len(rest);
        let ga = group_blocks(a);
        let gr = group_blocks(rest);
        if rest.len() == 0 {
            assert(b.last() == b[0]);
            assert(group_blocks(b) == seq![seq![b.last()]]);
            assert(group_blocks(all) == (ga + gr).push(seq![b.last()]));
            assert((ga + gr).push(seq![b.last()]) == ga + seq![seq![b.last()]]);
        } else if is_banner(b.last()) {
            assert((ga + gr).push(seq![b.last()]) == ga + gr.push(seq![b.last()]));
        } else {
            assert((ga + gr).drop_last() == ga + gr.drop_last());
            assert((ga + gr).last() == gr.last());
            assert((ga + gr.drop_last()).push(gr.last().push(b.last())) == ga
                + gr.drop_last().push(gr.last().push(b.last())));
        }
    }
}

/// The banner of a timestamp gives that timestamp back.
pub proof fn lemma_banner_round_trip(timestamp: Seq<char>)
    ensures
        is_banner(banner_line(timestamp)),
        banner_timestamp(banner_line(timestamp)) == timestamp,
{
    let line = banner_line(timestamp);
    assert(line.subrange(0, 4) == banner_prefix());
    let rest = line.skip(4);
    assert(rest == timestamp + banner_suffix());
    assert(rest.subrange(rest.len() - 4, rest.len() as int) == banner_suffix());
    assert(line.subrange(4, line.len() - 4) == timestamp);
}

/// Appending the text of a snapshot to a log that is empty or
/// ends in a line feed adds one snapshot to what the parser finds: the one
/// with the timestamp that was written and the lines of its block, header
/// and rows of each section in the order in which they were given. The
/// timestamp must hold no line feed; the header and the rows must be plain
/// lines and no banners.
pub proof fn lemma_append_round_trip(
    log: Seq<char>,
    timestamp: Seq<char>,
    header: Seq<char>,
    cpu: Seq<Seq<char>>,
    mem: Seq<Seq<char>>,
)
    requires
        log.len() == 0 || log.last() == '\n',
        no_line_feed(timestamp),
        is_plain_line(header),
        !is_banner(header),
        are_plain_rows(cpu),
        are_plain_rows(mem),
    ensures
        parse_log(log + snapshot_text(timestamp, header, cpu, mem)) == parse_log(log).push(
            SnapshotView {
                timestamp,
                lines: block_lines(timestamp, header, cpu, mem),
            },
        ),
{
    let block = block_lines(timestamp, header, cpu, mem);
    let text = snapshot_text(timestamp, header, cpu, mem);
    let banner = banner_line(timestamp);
    let empty = Seq::<char>::empty();
    let top = seq![banner, cpu_marker(), header];
    let mid = seq![mem_marker(), header];
    let c = rows_or_blank(cpu);
    let m = rows_or_blank(mem);
    lemma_banner_round_trip(timestamp);
    assert(!is_banner(cpu_marker())) by {
        assert(cpu_marker().subrange(0, 4)[0] == '-');
    }
    assert(!is_banner(mem_marker())) by {
        assert(mem_marker().subrange(0, 4)[0] == '-');
    }
    assert(!is_banner(empty));
    assert(is_plain_line(banner)) by {
        assert forall|i: int| 0 <= i < banner.len() implies #[trigger] banner[i] != '\n' by {
            if 4 <= i < 4 + timestamp.len() {
                assert(banner[i] == timestamp[i - 4]);
            }
        }
        assert(banner.last() == '=');
    }
    assert(is_plain_line(cpu_marker()) && is_plain_line(mem_marker()) && is_plain_line(empty));
    assert(block[0] == banner);
    assert forall|i: int| 0 <= i < block.len() implies is_plain_line(#[trigger] block[i]) && (i
        >= 1 ==> !is_banner(block[i])) by {
        let a = top.len() as int;
        let b = a + c.len();
        let d = b + mid.len();
        let e = d + m.len();
        if i < a {
            assert(block[i] == top[i]);
        } else if i < b {
            assert(block[i] == c[i - a]);
            if cpu.len() > 0 {
                assert(is_plain_line(cpu[i - a]));
            }
        } else if i < d {
            assert(block[i] == mid[i - b]);
        } else if i < e {
            assert(block[i] == m[i - d]);
            if mem.len() > 0 {
                assert(is_plain_line(mem[i - d]));
            }
        } else {
            assert(block[i] == empty);
        }
    }
    lemma_snapshot_text_lines(timestamp, header, cpu, mem);
    lemma_split_joined(block);
    lemma_split_lines_concat(log, text);
    lemma_group_single_block(block);
    lemma_group_concat(split_lines(log), block);
    let done = group_blocks(split_lines(log));
    assert(group_blocks(split_lines(log + text)) == done + seq![block]);
    assert(snapshot_of(block) == SnapshotView { timestamp, lines: block });
    assert(parse_log(log + text) =~= parse_log(log).push(snapshot_of(block)));
}

/// The text of one snapshot is parsed as that one snapshot, with its
/// timestamp and the lines of its block.
pub proof fn lemma_round_trip(
    timestamp: Seq<char>,
    header: Seq<char>,
    cpu: Seq<Seq<char>>,
    mem: Seq<Seq<char>>,
)
    requires
        no_line_feed(timestamp),
        is_plain_line(header),
        !is_banner(header),
        are_plain_rows(cpu),
        are_plain_rows(mem),
    ensures
        parse_log(snapshot_text(timestamp, header, cpu, mem)) == seq![
            SnapshotView { timestamp, lines: block_lines(timestamp, header, cpu, mem) },
        ],
{
    let text = snapshot_text(timestamp, header, cpu, mem);
    lemma_append_round_trip(Seq::empty(), timestamp, header, cpu, mem);
    assert(Seq::<char>::empty() + text == text);
    assert(parse_log(Seq::empty()) == Seq::<SnapshotView>::empty());
}

} // verus!
