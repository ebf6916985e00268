//! Display truncation applied to its own output: on which blocks the text
//! that was rendered, read back as lines and rendered again under the same
//! limit, is the text it was.

use crate::display::{
    cap_sections, header_tag, is_header, is_marker, is_shown, lemma_cap_idempotent, line_kind,
    marker_prefix, render_lines, rows_in_section, LineKind,
};
use crate::snapshot::{banner_prefix, is_banner};
use crate::roundtrip::{lemma_split_joined, lemma_split_lines_concat};
use crate::text::{
    is_blank, is_plain_line, is_run, is_tail_run, is_whitespace, join_lines, lemma_run_length,
    lemma_tail_run_length, run_length, split_lines, tail_run_length, trim_end, trim_start,
};
use vstd::prelude::*;

verus! {

/// Trimming takes whitespace from the end and nothing else: what is left
/// begins the text, what is taken is whitespace, and what is left of a text
/// that is not blank is not empty and does not end in whitespace.
pub proof fn lemma_trim_end(s: Seq<char>)
    ensures
        trim_end(s).is_prefix_of(s),
        forall|j: int| trim_end(s).len() <= j < s.len() ==> is_whitespace(#[trigger] s[j]),
        trim_end(s).len() > 0 ==> !is_whitespace(trim_end(s).last()),
        !is_blank(s) ==> trim_end(s).len() > 0,
        tail_run_length(trim_end(s), |c: char| is_whitespace(c)) == 0,
{
    let p = |c: char| is_whitespace(c);
    let k = tail_run_length(s, p) as int;
    lemma_tail_run_length(s, p, k);
    let t = trim_end(s);
    assert(t == s.subrange(0, s.len() - k));
    if t.len() > 0 {
        assert(t.last() == s[s.len() - k - 1]);
    }
    lemma_tail_run_length(t, p, 0);
}

/// Plain lines of which the last is not empty are read back from their
/// joined text as they were.
pub proof fn lemma_split_joined_open(lines: Seq<Seq<char>>)
    requires
        lines.len() > 0,
        forall|i: int| 0 <= i < lines.len() ==> is_plain_line(#[trigger] lines[i]),
        lines.last().len() > 0,
    ensures
        split_lines(join_lines(lines)) == lines,
{
    let last = lines.last();
    assert(is_plain_line(last));
    let p = |c: char| c != '\n';
    assert(is_run(last, p, last.len() as int));
    lemma_run_length(last, p, last.len() as int);
    assert(split_lines(last) == seq![last]);
    if lines.len() == 1 {
        assert(lines == seq![last]);
    } else {
        let before = lines.drop_last();
        assert forall|i: int| 0 <= i < before.len() implies is_plain_line(
            #[trigger] before[i],
        ) by {
            assert(before[i] == lines[i]);
        }
        lemma_split_joined(before);
        let a = join_lines(before) + seq!['\n'];
        assert(join_lines(lines) == a + last);
        lemma_split_lines_concat(a, last);
        assert(before + seq![last] == lines);
    }
}

/// Trailing whitespace does not change what trimming leaves.
pub proof fn lemma_trim_end_blank_tail(a: Seq<char>, w: Seq<char>)
    requires
        is_blank(w),
    ensures
        trim_end(a + w) == trim_end(a),
{
    let p = |c: char| is_whitespace(c);
    let k = tail_run_length(a, p) as int;
    lemma_tail_run_length(a, p, k);
    let all = a + w;
    assert(is_tail_run(all, p, k + w.len())) by {
        assert forall|j: int| all.len() - (k + w.len()) <= j < all.len() implies p(
            #[trigger] all[j],
        ) by {
            if j < a.len() {
                assert(all[j] == a[j]);
            } else {
                assert(all[j] == w[j - a.len()]);
            }
        }
        if k < a.len() {
            assert(all[all.len() - (k + w.len()) - 1] == a[a.len() - k - 1]);
        }
    }
    lemma_tail_run_length(all, p, k + w.len());
    assert(all.take(a.len() - k) == a.take(a.len() - k));
}

/// Trimming a text that ends with a text that is not blank trims that text.
pub proof fn lemma_trim_end_solid_tail(a: Seq<char>, x: Seq<char>)
    requires
        !is_blank(x),
    ensures
        trim_end(a + x) == a + trim_end(x),
{
    let p = |c: char| is_whitespace(c);
    let k = tail_run_length(x, p) as int;
    lemma_tail_run_length(x, p, k);
    if k >= x.len() {
        assert forall|i: int| 0 <= i < x.len() implies is_whitespace(#[trigger] x[i]) by {
            assert(p(x[i]));
        }
    }
    let all = a + x;
    assert(is_tail_run(all, p, k)) by {
        assert forall|j: int| all.len() - k <= j < all.len() implies p(#[trigger] all[j]) by {
            assert(all[j] == x[j - a.len()]);
        }
        assert(all[all.len() - k - 1] == x[x.len() - k - 1]);
    }
    lemma_tail_run_length(all, p, k);
    assert(all.take(all.len() - k) == a + x.take(x.len() - k));
}

/// Number of lines of a block up to the last one that is not blank.
pub open spec fn body_len(lines: Seq<Seq<char>>) -> int {
    lines.len() - tail_run_length(lines, |l: Seq<char>| is_blank(l))
}

/// A block without the blank lines at its end, and without the whitespace
/// at the end of its last line.
pub open spec fn settled_body(lines: Seq<Seq<char>>) -> Seq<Seq<char>> {
    let m = body_len(lines);
    if m <= 0 {
        Seq::empty()
    } else {
        lines.take(m - 1).push(trim_end(lines[m - 1]))
    }
}

/// Trimming the joined lines of a block leaves the joined lines of its
/// settled body.
pub proof fn lemma_trim_joined(lines: Seq<Seq<char>>)
    ensures
        trim_end(join_lines(lines)) == join_lines(settled_body(lines)),
        0 <= body_len(lines) <= lines.len(),
        body_len(lines) > 0 ==> !is_blank(lines[body_len(lines) - 1]),
    decreases lines.len(),
{
    let blank = |l: Seq<char>| is_blank(l);
    let ws = |c: char| is_whitespace(c);
    if lines.len() == 0 {
        lemma_tail_run_length(Seq::<char>::empty(), ws, 0);
        assert(trim_end(Seq::<char>::empty()) =~= Seq::<char>::empty());
    } else {
        let before = lines.drop_last();
        let last = lines.last();
        lemma_trim_joined(before);
        if is_blank(last) {
            assert(body_len(lines) == body_len(before));
            let m = body_len(lines);
            if m > 0 {
                assert(lines.take(m - 1) == before.take(m - 1));
                assert(lines[m - 1] == before[m - 1]);
            }
            assert(settled_body(lines) == settled_body(before));
            if lines.len() == 1 {
                lemma_trim_end_blank_tail(Seq::empty(), last);
                assert(Seq::<char>::empty() + last == last);
                assert(join_lines(before) == Seq::<char>::empty());
            } else {
                let w = seq!['\n'] + last;
                assert(is_blank(w)) by {
                    assert forall|i: int| 0 <= i < w.len() implies is_whitespace(#[trigger] w[i]) by {
                        if i > 0 {
                            assert(w[i] == last[i - 1]);
                        }
                    }
                }
                assert(join_lines(lines) == join_lines(before) + w);
                lemma_trim_end_blank_tail(join_lines(before), w);
            }
        } else {
            assert(body_len(lines) == lines.len());
            assert(lines.take(lines.len() - 1) == before);
            let settled = before.push(trim_end(last));
            assert(settled_body(lines) == settled);
            assert(settled.drop_last() == before);
            if lines.len() == 1 {
                lemma_trim_end_solid_tail(Seq::empty(), last);
                assert(Seq::<char>::empty() + last == last);
                assert(Seq::<char>::empty() + trim_end(last) == trim_end(last));
            } else {
                let a = join_lines(before) + seq!['\n'];
                assert(join_lines(lines) == a + last);
                lemma_trim_end_solid_tail(a, last);
            }
        }
    }
}

/// Capping leaves no line in that was not there.
pub proof fn lemma_cap_len(lines: Seq<Seq<char>>, n: nat)
    ensures
        cap_sections(lines, n).len() <= lines.len(),
    decreases lines.len(),
{
    if lines.len() > 0 {
        lemma_cap_len(lines.drop_last(), n);
    }
}

/// Of a block that capping leaves as it is, capping leaves every beginning
/// as it is.
pub proof fn lemma_cap_fixed_prefix(lines: Seq<Seq<char>>, m: int, n: nat)
    requires
        cap_sections(lines, n) == lines,
        0 <= m <= lines.len(),
    ensures
        cap_sections(lines.take(m), n) == lines.take(m),
    decreases lines.len() - m,
{
    if m == lines.len() {
        assert(lines.take(m) == lines);
    } else {
        let before = lines.drop_last();
        lemma_cap_len(before, n);
        assert(cap_sections(before, n) == before) by {
            assert(cap_sections(before, n).push(lines.last()) == lines);
            assert(cap_sections(before, n).push(lines.last()).drop_last() == cap_sections(
                before,
                n,
            ));
        }
        lemma_cap_fixed_prefix(before, m, n);
        assert(before.take(m) == lines.take(m));
    }
}

/// What holds of every line of a block holds of every line that capping
/// leaves.
pub proof fn lemma_cap_keeps(lines: Seq<Seq<char>>, n: nat, p: spec_fn(Seq<char>) -> bool)
    requires
        forall|i: int| 0 <= i < lines.len() ==> p(#[trigger] lines[i]),
    ensures
        forall|i: int|
            0 <= i < cap_sections(lines, n).len() ==> p(#[trigger] cap_sections(lines, n)[i]),
    decreases lines.len(),
{
    if lines.len() > 0 {
        let before = lines.drop_last();
        assert forall|i: int| 0 <= i < before.len() implies p(#[trigger] before[i]) by {
            assert(before[i] == lines[i]);
        }
        lemma_cap_keeps(before, n, p);
        assert(p(lines[lines.len() - 1]));
        let shown = cap_sections(before, n);
        let all = cap_sections(lines, n);
        assert forall|i: int| 0 <= i < all.len() implies p(#[trigger] all[i]) by {
            if i < shown.len() {
                assert(all[i] == shown[i]);
            } else {
                assert(all[i] == lines.last());
            }
        }
    }
}

/// A line that is of the same kind with and without the whitespace at its
/// end. Every data row, header and blank line is; a banner or a marker is
/// unless nothing but whitespace follows its opening.
pub open spec fn is_settled_line(line: Seq<char>) -> bool {
    line_kind(trim_end(line)) == line_kind(line)
}

/// Every data row, every header and every blank line is of the same kind
/// with and without the whitespace at its end.
pub proof fn lemma_settled_lines(line: Seq<char>)
    ensures
        line_kind(line) == LineKind::Row || line_kind(line) == LineKind::Blank || is_header(line)
            ==> is_settled_line(line),
{
    let ws = |c: char| is_whitespace(c);
    let t = trim_end(line);
    let a = run_length(line, ws) as int;
    let k = tail_run_length(line, ws) as int;
    lemma_trim_end(line);
    lemma_run_length(line, ws, a);
    lemma_tail_run_length(line, ws, k);
    if is_blank(line) {
        assert(is_tail_run(line, ws, line.len() as int));
        lemma_tail_run_length(line, ws, line.len() as int);
        assert(t.len() == 0);
        assert(trim_start(t) == t);
        assert(!is_banner(line)) by {
            if is_banner(line) {
                assert(line.subrange(0, 4)[0] == '=');
                assert(is_whitespace(line[0]));
            }
        }
        assert(!is_marker(line)) by {
            if is_marker(line) {
                assert(line.subrange(0, 3)[0] == '-');
                assert(is_whitespace(line[0]));
            }
        }
        assert(!is_header(line)) by {
            if a < line.len() {
                assert(ws(line[a]));
            }
            assert(trim_start(line).len() == 0);
        }
        assert(line_kind(t) == LineKind::Blank);
    } else {
        if a >= line.len() {
            assert forall|i: int| 0 <= i < line.len() implies is_whitespace(#[trigger] line[i]) by {
                assert(ws(line[i]));
            }
        }
        assert(t.len() > a) by {
            if line.len() - k - 1 < a {
                assert(ws(line[line.len() - k - 1]));
            }
        }
        assert(is_run(t, ws, a)) by {
            assert forall|j: int| 0 <= j < a implies ws(#[trigger] t[j]) by {
                assert(t[j] == line[j]);
            }
            assert(t[a] == line[a]);
        }
        lemma_run_length(t, ws, a);
        let inner = trim_start(t);
        let outer = trim_start(line);
        assert(inner == outer.subrange(0, inner.len() as int));
        assert(!is_blank(t)) by {
            assert(!is_whitespace(t[t.len() - 1]));
        }
        if is_banner(t) {
            assert(banner_prefix() == line.subrange(0, 4)) by {
                assert(t.subrange(0, 4) == line.subrange(0, 4));
            }
        }
        if is_marker(t) {
            assert(marker_prefix() == line.subrange(0, 3)) by {
                assert(t.subrange(0, 3) == line.subrange(0, 3));
            }
        }
        if is_header(t) {
            assert(header_tag() == outer.subrange(0, 3)) by {
                assert(inner.subrange(0, 3) == outer.subrange(0, 3));
            }
        }
        if is_header(line) {
            assert(outer.subrange(0, 3)[2] == 'D');
            assert(line[a + 2] == 'D');
            assert(t.len() > a + 2) by {
                if line.len() - k <= a + 2 {
                    assert(ws(line[a + 2]));
                }
            }
            assert(inner.subrange(0, 3) == outer.subrange(0, 3));
        }
    }
}

/// A block whose lines come back from a text as they were written.
pub open spec fn is_plain_block(lines: Seq<Seq<char>>) -> bool {
    forall|i: int| 0 <= i < lines.len() ==> is_plain_line(#[trigger] lines[i])
}

/// The last line shown that is not blank stays shown once the whitespace at
/// its end is gone: it is of the same kind without it, or its section has
/// room for one more data row. A block that shows only blank lines has no
/// such line.
pub open spec fn renders_again(lines: Seq<Seq<char>>, n: nat) -> bool {
    let shown = cap_sections(lines, n);
    let m = body_len(shown);
    m > 0 ==> is_settled_line(shown[m - 1]) || rows_in_section(shown.take(m - 1)) < n
}

/// The text shown for a block of plain lines is read back as the lines
/// shown, without the blank lines at their end and without the whitespace at
/// the end of the last line that is left. Capping leaves the lines before
/// that last line as they are.
pub proof fn lemma_rendered_lines(lines: Seq<Seq<char>>, n: nat)
    requires
        is_plain_block(lines),
    ensures
        render_lines(lines, n) == join_lines(settled_body(cap_sections(lines, n))),
        split_lines(render_lines(lines, n)) == settled_body(cap_sections(lines, n)),
        0 <= body_len(cap_sections(lines, n)) <= cap_sections(lines, n).len(),
        body_len(cap_sections(lines, n)) > 0 ==> {
            let shown = cap_sections(lines, n);
            let m = body_len(shown);
            &&& !is_blank(shown[m - 1])
            &&& cap_sections(shown.take(m - 1), n) == shown.take(m - 1)
            &&& is_shown(shown.take(m), m - 1, n)
        },
{
    let shown = cap_sections(lines, n);
    let text = render_lines(lines, n);
    lemma_cap_idempotent(lines, n);
    lemma_cap_keeps(lines, n, |l: Seq<char>| is_plain_line(l));
    lemma_trim_joined(shown);
    let m = body_len(shown);
    let body = settled_body(shown);
    if m == 0 {
        assert(text.len() == 0);
    } else {
        let head = shown.take(m - 1);
        let x = shown[m - 1];
        let trimmed = trim_end(x);
        lemma_trim_end(x);
        assert(is_plain_line(x));
        assert(is_plain_line(trimmed)) by {
            assert forall|i: int| 0 <= i < trimmed.len() implies #[trigger] trimmed[i] != '\n' by {
                assert(trimmed[i] == x[i]);
            }
            assert(is_whitespace('\r'));
        }
        assert forall|i: int| 0 <= i < body.len() implies is_plain_line(#[trigger] body[i]) by {
            if i < m - 1 {
                assert(body[i] == shown[i]);
            }
        }
        lemma_split_joined_open(body);
        lemma_cap_fixed_prefix(shown, m, n);
        lemma_cap_fixed_prefix(shown, m - 1, n);
        let whole = shown.take(m);
        assert(whole.drop_last() == head);
        assert(whole.last() == x);
        if !is_shown(whole, m - 1, n) {
            assert(cap_sections(whole, n) == head);
        }
    }
}

/// Rendering is idempotent on the text: the text shown for a block of plain
/// lines, read back as lines and rendered again under the same limit, is the
/// same text, provided the last line shown that is not blank stays shown
/// without the whitespace at its end.
pub proof fn lemma_render_twice(lines: Seq<Seq<char>>, n: nat)
    requires
        is_plain_block(lines),
        renders_again(lines, n),
    ensures
        render_lines(split_lines(render_lines(lines, n)), n) == render_lines(lines, n),
{
    let shown = cap_sections(lines, n);
    let m = body_len(shown);
    let body = settled_body(shown);
    lemma_rendered_lines(lines, n);
    if m == 0 {
        assert(cap_sections(Seq::<Seq<char>>::empty(), n) == Seq::<Seq<char>>::empty());
        lemma_trim_joined(Seq::<Seq<char>>::empty());
    } else {
        let head = shown.take(m - 1);
        let x = shown[m - 1];
        let trimmed = trim_end(x);
        lemma_trim_end(x);
        assert(shown.take(m).last() == x);
        assert(shown.take(m).take(m - 1) == head);
        assert(body.drop_last() == head);
        assert(body.take(m - 1) == head);
        assert(is_shown(body, m - 1, n));
        assert(cap_sections(body, n) == body);
        lemma_trim_joined(body);
        assert(!is_blank(trimmed)) by {
            assert(!is_whitespace(trimmed[trimmed.len() - 1]));
        }
        assert(tail_run_length(body, |l: Seq<char>| is_blank(l)) == 0);
        assert(body_len(body) == m);
        assert(trim_end(trimmed) == trimmed);
        assert(settled_body(body) == body);
    }
}

/// On no other block of plain lines is rendering idempotent on the text:
/// where the last line shown that is not blank is a banner or a marker with
/// nothing but whitespace after its opening, and its section is full, the
/// second rendering drops it.
pub proof fn lemma_render_twice_only(lines: Seq<Seq<char>>, n: nat)
    requires
        is_plain_block(lines),
        !renders_again(lines, n),
    ensures
        render_lines(split_lines(render_lines(lines, n)), n) != render_lines(lines, n),
{
    let shown = cap_sections(lines, n);
    let m = body_len(shown);
    let body = settled_body(shown);
    let head = shown.take(m - 1);
    let x = shown[m - 1];
    let trimmed = trim_end(x);
    let ws = |c: char| is_whitespace(c);
    lemma_rendered_lines(lines, n);
    lemma_trim_end(x);
    lemma_settled_lines(x);
    assert(!is_blank(trimmed)) by {
        assert(!is_whitespace(trimmed[trimmed.len() - 1]));
    }
    assert(trimmed[0] == x[0]);
    assert(line_kind(trimmed) == LineKind::Row) by {
        if is_banner(x) {
            assert(x.subrange(0, 4)[0] == '=');
            if is_marker(trimmed) {
                assert(trimmed.subrange(0, 3)[0] == '-');
            }
        } else {
            assert(is_marker(x));
            assert(x.subrange(0, 3)[0] == '-');
            if is_banner(trimmed) {
                assert(trimmed.subrange(0, 4)[0] == '=');
            }
            assert(is_run(trimmed, ws, 0));
            lemma_run_length(trimmed, ws, 0);
            assert(trim_start(trimmed) == trimmed);
            if is_header(trimmed) {
                assert(trimmed.subrange(0, 3)[0] == 'P');
            }
        }
    }
    assert(body.drop_last() == head);
    assert(body.take(m - 1) == head);
    assert(!is_shown(body, m - 1, n));
    assert(cap_sections(body, n) == head);
    lemma_trim_end(join_lines(head));
    assert(render_lines(body, n).len() <= join_lines(head).len());
    if m - 1 == 0 {
        assert(join_lines(body) == trimmed);
    } else {
        assert(join_lines(body) == join_lines(head) + seq!['\n'] + trimmed);
    }
    assert(join_lines(body).len() > join_lines(head).len());
}

} // verus!
