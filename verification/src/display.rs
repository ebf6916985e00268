//! Display truncation: capping each ranked section of a snapshot to a number
//! of data rows, and rendering the result.

use crate::snapshot::{banner_prefix_chars, is_banner, Snapshot};
use crate::text::{
    chars_of, has_prefix_at, is_blank, is_whitespace, join_lines, join_texts, leading_whitespace,
    string_of, texts, trailing_whitespace, trim_end, trim_start,
};
use vstd::prelude::*;

verus! {

/// What a line of a block is, for the purpose of truncation.
#[derive(Debug, Clone, Copy, PartialEq, Eq)]
pub enum LineKind {
    /// A banner or a table header: always shown, never counted.
    Fixed,
    /// A section marker: always shown, and the count of rows starts anew.
    Marker,
    /// A data row: shown while its section has room.
    Row,
    /// A line of whitespace only: always shown, never counted.
    Blank,
}

/// `PID`, with which a table header begins once leading whitespace is gone.
pub open spec fn header_tag() -> Seq<char> {
    seq!['P', 'I', 'D']
}

/// `-- `, which opens a section marker.
pub open spec fn marker_prefix() -> Seq<char> {
    seq!['-', '-', ' ']
}

/// A table header line.
pub open spec fn is_header(line: Seq<char>) -> bool {
    header_tag().is_prefix_of(trim_start(line))
}

/// A section marker line.
pub open spec fn is_marker(line: Seq<char>) -> bool {
    marker_prefix().is_prefix_of(line)
}

/// The kind of a line. Banner and header come first, then marker; of the
/// rest, a line that is not blank is a data row.
pub open spec fn line_kind(line: Seq<char>) -> LineKind {
    if is_banner(line) || is_header(line) {
        LineKind::Fixed
    } else if is_marker(line) {
        LineKind::Marker
    } else if !is_blank(line) {
        LineKind::Row
    } else {
        LineKind::Blank
    }
}

/// Number of data rows that follow the last section marker of `lines`
/// (all of them where there is no marker).
pub open spec fn rows_in_section(lines: Seq<Seq<char>>) -> nat
    decreases lines.len(),
{
    if lines.len() == 0 {
        0
    } else {
        match line_kind(lines.last()) {
            LineKind::Marker => 0,
            LineKind::Row => rows_in_section(lines.drop_last()) + 1,
            _ => rows_in_section(lines.drop_last()),
        }
    }
}

/// Whether line `i` of `lines` is shown under the limit `n`: every line is,
/// but a data row that has `n` or more data rows before it in its section.
pub open spec fn is_shown(lines: Seq<Seq<char>>, i: int, n: nat) -> bool {
    line_kind(lines[i]) == LineKind::Row ==> rows_in_section(lines.take(i)) < n
}

/// The lines of a block that are shown under the limit `n`, in order.
pub open spec fn cap_sections(lines: Seq<Seq<char>>, n: nat) -> Seq<Seq<char>>
    decreases lines.len(),
{
    if lines.len() == 0 {
        Seq::empty()
    } else {
        let before = cap_sections(lines.drop_last(), n);
        if is_shown(lines, lines.len() - 1, n) {
            before.push(lines.last())
        } else {
            before
        }
    }
}

/// The text shown for a block under the limit `n`: the shown lines, joined
/// by line feeds, without trailing whitespace.
pub open spec fn render_lines(lines: Seq<Seq<char>>, n: nat) -> Seq<char> {
    trim_end(join_lines(cap_sections(lines, n)))
}

/// After capping, the rows counted in the last section are those counted
/// before, but no more than `n`.
pub proof fn lemma_capped_rows_in_section(lines: Seq<Seq<char>>, n: nat)
    ensures
        rows_in_section(cap_sections(lines, n)) == if rows_in_section(lines) < n {
            rows_in_section(lines)
        } else {
            n
        },
    decreases lines.len(),
{
    if lines.len() > 0 {
        let before = lines.drop_last();
        let shown = cap_sections(before, n);
        lemma_capped_rows_in_section(before, n);
        assert(lines.take(lines.len() - 1) == before);
        if is_shown(lines, lines.len() - 1, n) {
            assert(shown.push(lines.last()).drop_last() == shown);
        }
    }
}

/// Capping is idempotent: capping what has been capped under the same limit
/// changes nothing.
pub proof fn lemma_cap_idempotent(lines: Seq<Seq<char>>, n: nat)
    ensures
        cap_sections(cap_sections(lines, n), n) == cap_sections(lines, n),
    decreases lines.len(),
{
    if lines.len() > 0 {
        let before = lines.drop_last();
        let shown = cap_sections(before, n);
        lemma_cap_idempotent(before, n);
        lemma_capped_rows_in_section(before, n);
        assert(lines.take(lines.len() - 1) == before);
        if is_shown(lines, lines.len() - 1, n) {
            let all = shown.push(lines.last());
            assert(all.drop_last() == shown);
            assert(all.take(all.len() - 1) == shown);
            assert(is_shown(all, all.len() - 1, n));
        }
    }
}

/// Rendering is idempotent on the structure: a block that has been capped
/// under `n` renders under `n` as the block it came from.
pub proof fn lemma_render_idempotent(lines: Seq<Seq<char>>, n: nat)
    ensures
        render_lines(cap_sections(lines, n), n) == render_lines(lines, n),
{
    lemma_cap_idempotent(lines, n);
}

/// Capping only leaves lines out: what is shown of a longer block begins
/// with what is shown of a block that it extends, and no section shown holds
/// more than `n` data rows at any point.
pub proof fn lemma_cap_prefix(lines: Seq<Seq<char>>, k: int, n: nat)
    requires
        0 <= k <= lines.len(),
    ensures
        cap_sections(lines.take(k), n).is_prefix_of(cap_sections(lines, n)),
        rows_in_section(cap_sections(lines.take(k), n)) <= n,
    decreases lines.len() - k,
{
    lemma_capped_rows_in_section(lines.take(k), n);
    if k < lines.len() {
        lemma_cap_prefix(lines, k + 1, n);
        let longer = lines.take(k + 1);
        assert(longer.drop_last() == lines.take(k));
        let a = cap_sections(lines.take(k), n);
        let b = cap_sections(longer, n);
        let c = cap_sections(lines, n);
        assert(a.is_prefix_of(b)) by {
            if is_shown(longer, k, n) {
                assert(b.subrange(0, a.len() as int) == a);
            } else {
                assert(b.subrange(0, a.len() as int) == a);
            }
        }
        assert(a == c.subrange(0, a.len() as int)) by {
            assert(b == c.subrange(0, b.len() as int));
            assert(a == b.subrange(0, a.len() as int));
        }
    } else {
        assert(lines.take(k) == lines);
        let c = cap_sections(lines, n);
        assert(c.subrange(0, c.len() as int) == c);
    }
}

/// The characters of `PID`.
pub fn header_tag_chars() -> (p: Vec<char>)
    ensures
        p@ == header_tag(),
{
    let mut p: Vec<char> = Vec::new();
    p.push('P');
    p.push('I');
    p.push('D');
    p
}

/// The characters of `-- `.
pub fn marker_prefix_chars() -> (p: Vec<char>)
    ensures
        p@ == marker_prefix(),
{
    let mut p: Vec<char> = Vec::new();
    p.push('-');
    p.push('-');
    p.push(' ');
    p
}

/// Tells what kind of line `line` is.
pub fn classify_line(line: &Vec<char>) -> (kind: LineKind)
    ensures
        kind == line_kind(line@),
{
    let banner = banner_prefix_chars();
    let header = header_tag_chars();
    let marker = marker_prefix_chars();
    let lead: usize = leading_whitespace(line);
    proof {
        assert(line@.skip(0) == line@);
        crate::text::lemma_run_length(line@, |c: char| is_whitespace(c), lead as int);
    }
    if has_prefix_at(line, 0, &banner) || has_prefix_at(line, lead, &header) {
        LineKind::Fixed
    } else if has_prefix_at(line, 0, &marker) {
        LineKind::Marker
    } else if lead < line.len() {
        LineKind::Row
    } else {
        LineKind::Blank
    }
}

/// Caps each section of a block to at most `top_n` data rows. Banner, header,
/// marker and blank lines all stay; the data rows of a section stay in order,
/// the first `top_n` of them.
pub fn cap_lines(lines: &Vec<String>, top_n: usize) -> (out: Vec<String>)
    ensures
        texts(out@) == cap_sections(texts(lines@), top_n as nat),
{
    let mut out: Vec<String> = Vec::new();
    let mut count: usize = 0;
    let ghost all = texts(lines@);
    let mut i: usize = 0;
    while i < lines.len()
        invariant
            i <= lines.len(),
            all == texts(lines@),
            count <= top_n,
            count == if rows_in_section(all.take(i as int)) < top_n {
                rows_in_section(all.take(i as int))
            } else {
                top_n as nat
            },
            texts(out@) == cap_sections(all.take(i as int), top_n as nat),
        decreases lines.len() - i,
    {
        let chars = chars_of(lines[i].as_str());
        let kind = classify_line(&chars);
        let ghost after = all.take(i + 1);
        let ghost shown = texts(out@);
        proof {
            assert(after.drop_last() == all.take(i as int));
            assert(after.last() == lines@[i as int]@);
            assert(after.take(i as int) == all.take(i as int));
        }
        match kind {
            LineKind::Marker => {
                count = 0;
                out.push(lines[i].clone());
            },
            LineKind::Row => {
                if count < top_n {
                    count += 1;
                    out.push(lines[i].clone());
                }
            },
            _ => {
                out.push(lines[i].clone());
            },
        }
        proof {
            if is_shown(after, i as int, top_n as nat) {
                assert(texts(out@) == shown.push(lines@[i as int]@));
            }
        }
        i += 1;
    }
    proof {
        assert(all.take(lines.len() as int) == all);
    }
    out
}

/// The snapshot with each of its sections capped to at most `top_n` data
/// rows. The timestamp stays.
pub fn truncate_snapshot(snapshot: &Snapshot, top_n: usize) -> (out: Snapshot)
    ensures
        out@.timestamp == snapshot@.timestamp,
        out@.lines == cap_sections(snapshot@.lines, top_n as nat),
{
    Snapshot { timestamp: snapshot.timestamp.clone(), lines: cap_lines(&snapshot.lines, top_n) }
}

/// Renders a snapshot for display with at most `top_n` data rows in each
/// section: the shown lines joined by line feeds, trailing whitespace
/// trimmed.
pub fn trim_snapshot(snapshot: &Snapshot, top_n: usize) -> (out: String)
    ensures
        out@ == render_lines(snapshot@.lines, top_n as nat),
{
    let shown = cap_lines(&snapshot.lines, top_n);
    let mut joined = join_texts(&shown);
    let tail: usize = trailing_whitespace(&joined);
    let keep: usize = joined.len() - tail;
    joined.truncate(keep);
    string_of(&joined)
}

} // verus!
