//! Character-level helpers shared by the format, the parser and the renderer.

use vstd::prelude::*;

verus! {

/// The whitespace characters of Unicode (`White_Space`).
pub open spec fn is_whitespace(c: char) -> bool {
    let n = c as int;
    ||| 0x09 <= n <= 0x0D
    ||| n == 0x20
    ||| n == 0x85
    ||| n == 0xA0
    ||| n == 0x1680
    ||| 0x2000 <= n <= 0x200A
    ||| n == 0x2028
    ||| n == 0x2029
    ||| n == 0x202F
    ||| n == 0x205F
    ||| n == 0x3000
}

/// The code point of `c`.
pub fn code_point(c: char) -> (n: u32)
    ensures
        n == c as int,
{
    c as u32
}

/// Whether `c` is a whitespace character.
pub fn char_is_whitespace(c: char) -> (r: bool)
    ensures
        r == is_whitespace(c),
{
    let n: u32 = code_point(c);
    (0x09 <= n && n <= 0x0D) || n == 0x20 || n == 0x85 || n == 0xA0 || n == 0x1680 || (0x2000 <= n
        && n <= 0x200A) || n == 0x2028 || n == 0x2029 || n == 0x202F || n == 0x205F || n == 0x3000
}

/// The characters of `s`, in order.
pub fn chars_of(s: &str) -> (out: Vec<char>)
    ensures
        out@ == s@,
{
    let mut out: Vec<char> = Vec::new();
    for c in it: s.chars()
        invariant
            it.seq() == s@,
            out@ == it.seq().take(it.index()),
    {
        out.push(c);
    }
    out
}

/// Builds a `String` from characters: `String::from_iter` over the slice.
/// Trusted: the string holds exactly the given characters, in order.
#[verifier::external_body]
pub(crate) fn string_of(chars: &Vec<char>) -> (out: String)
    ensures
        out@ == chars@,
{
    String::from_iter(chars)
}

/// Length of the longest prefix of `s` whose items all satisfy `p`.
pub open spec fn run_length<A>(s: Seq<A>, p: spec_fn(A) -> bool) -> nat
    decreases s.len(),
{
    if s.len() > 0 && p(s[0]) {
        1 + run_length(s.drop_first(), p)
    } else {
        0
    }
}

/// Length of the longest suffix of `s` whose items all satisfy `p`.
pub open spec fn tail_run_length<A>(s: Seq<A>, p: spec_fn(A) -> bool) -> nat
    decreases s.len(),
{
    if s.len() > 0 && p(s.last()) {
        1 + tail_run_length(s.drop_last(), p)
    } else {
        0
    }
}

/// `k` is the length of the longest prefix of `s` that satisfies `p`.
pub open spec fn is_run<A>(s: Seq<A>, p: spec_fn(A) -> bool, k: int) -> bool {
    &&& 0 <= k <= s.len()
    &&& forall|j: int| 0 <= j < k ==> p(#[trigger] s[j])
    &&& k < s.len() ==> !p(s[k])
}

/// `k` is the length of the longest suffix of `s` that satisfies `p`.
pub open spec fn is_tail_run<A>(s: Seq<A>, p: spec_fn(A) -> bool, k: int) -> bool {
    &&& 0 <= k <= s.len()
    &&& forall|j: int| s.len() - k <= j < s.len() ==> p(#[trigger] s[j])
    &&& k < s.len() ==> !p(s[s.len() - k - 1])
}

/// The longest prefix satisfying `p` is the one that `is_run` describes.
pub proof fn lemma_run_length<A>(s: Seq<A>, p: spec_fn(A) -> bool, k: int)
    ensures
        is_run(s, p, k) <==> k == run_length(s, p),
    decreases s.len(),
{
    if s.len() > 0 && p(s[0]) {
        let t = s.drop_first();
        lemma_run_length(t, p, k - 1);
        lemma_run_length(t, p, run_length(t, p) as int);
        if is_run(s, p, k) {
            assert(k > 0);
            assert forall|j: int| 0 <= j < k - 1 implies p(#[trigger] t[j]) by {
                assert(t[j] == s[j + 1]);
            }
            assert(k < s.len() ==> t[k - 1] == s[k]);
            assert(is_run(t, p, k - 1));
        }
        if k == run_length(s, p) {
            assert(is_run(t, p, k - 1));
            assert forall|j: int| 0 <= j < k implies p(#[trigger] s[j]) by {
                if j > 0 {
                    assert(s[j] == t[j - 1]);
                }
            }
            assert(k < s.len() ==> s[k] == t[k - 1]);
        }
    } else {
        if is_run(s, p, k) && k > 0 {
            assert(p(s[0]));
        }
    }
}

/// The longest suffix satisfying `p` is the one that `is_tail_run` describes.
pub proof fn lemma_tail_run_length<A>(s: Seq<A>, p: spec_fn(A) -> bool, k: int)
    ensures
        is_tail_run(s, p, k) <==> k == tail_run_length(s, p),
    decreases s.len(),
{
    if s.len() > 0 && p(s.last()) {
        let t = s.drop_last();
        lemma_tail_run_length(t, p, k - 1);
        lemma_tail_run_length(t, p, tail_run_length(t, p) as int);
        if is_tail_run(s, p, k) {
            assert(k > 0);
            assert forall|j: int| t.len() - (k - 1) <= j < t.len() implies p(#[trigger] t[j]) by {
                assert(t[j] == s[j]);
            }
            assert(k - 1 < t.len() ==> t[t.len() - (k - 1) - 1] == s[s.len() - k - 1]);
            assert(is_tail_run(t, p, k - 1));
        }
        if k == tail_run_length(s, p) {
            assert(is_tail_run(t, p, k - 1));
            assert forall|j: int| s.len() - k <= j < s.len() implies p(#[trigger] s[j]) by {
                if j < t.len() {
                    assert(s[j] == t[j]);
                }
            }
            assert(k < s.len() ==> s[s.len() - k - 1] == t[t.len() - (k - 1) - 1]);
        }
    } else {
        if is_tail_run(s, p, k) && k > 0 {
            assert(p(s[s.len() - 1]));
        }
    }
}

/// `s` without its leading whitespace.
pub open spec fn trim_start(s: Seq<char>) -> Seq<char> {
    s.skip(run_length(s, |c: char| is_whitespace(c)) as int)
}

/// `s` without its trailing whitespace.
pub open spec fn trim_end(s: Seq<char>) -> Seq<char> {
    s.take(s.len() - tail_run_length(s, |c: char| is_whitespace(c)))
}

/// Every character of `s` is whitespace (so trimming leaves nothing).
pub open spec fn is_blank(s: Seq<char>) -> bool {
    forall|i: int| 0 <= i < s.len() ==> is_whitespace(#[trigger] s[i])
}

/// Number of leading whitespace characters of `line`.
pub fn leading_whitespace(line: &Vec<char>) -> (k: usize)
    ensures
        k == run_length(line@, |c: char| is_whitespace(c)),
        k <= line.len(),
{
    let mut k: usize = 0;
    while k < line.len() && char_is_whitespace(line[k])
        invariant
            k <= line.len(),
            forall|j: int| 0 <= j < k ==> is_whitespace(#[trigger] line@[j]),
        decreases line.len() - k,
    {
        k += 1;
    }
    proof {
        lemma_run_length(line@, |c: char| is_whitespace(c), k as int);
    }
    k
}

/// Number of trailing whitespace characters of `line`.
pub fn trailing_whitespace(line: &Vec<char>) -> (k: usize)
    ensures
        k == tail_run_length(line@, |c: char| is_whitespace(c)),
        k <= line.len(),
{
    let n: usize = line.len();
    let mut k: usize = 0;
    while k < n && char_is_whitespace(line[n - k - 1])
        invariant
            n == line.len(),
            k <= n,
            forall|j: int| n - k <= j < n ==> is_whitespace(#[trigger] line@[j]),
        decreases n - k,
    {
        k += 1;
    }
    proof {
        lemma_tail_run_length(line@, |c: char| is_whitespace(c), k as int);
    }
    k
}

/// Whether `line` holds nothing but whitespace.
pub fn is_blank_line(line: &Vec<char>) -> (r: bool)
    ensures
        r == is_blank(line@),
{
    let k: usize = leading_whitespace(line);
    proof {
        lemma_run_length(line@, |c: char| is_whitespace(c), k as int);
    }
    k == line.len()
}

/// Whether `pattern` stands in `line` at position `from`.
pub(crate) fn has_prefix_at(line: &Vec<char>, from: usize, pattern: &Vec<char>) -> (r: bool)
    requires
        from <= line.len(),
    ensures
        r == pattern@.is_prefix_of(line@.skip(from as int)),
{
    if pattern.len() > line.len() - from {
        return false;
    }
    let mut i: usize = 0;
    while i < pattern.len()
        invariant
            from <= line.len(),
            pattern.len() <= line.len() - from,
            i <= pattern.len(),
            forall|j: int| 0 <= j < i ==> pattern@[j] == line@[from + j],
        decreases pattern.len() - i,
    {
        if pattern[i] != line[from + i] {
            proof {
                let rest = line@.skip(from as int);
                assert(rest.subrange(0, pattern@.len() as int)[i as int] == line@[from + i]);
            }
            return false;
        }
        i += 1;
    }
    proof {
        let rest = line@.skip(from as int);
        assert(pattern@ =~= rest.subrange(0, pattern@.len() as int));
    }
    true
}

/// The texts that a vector of character rows holds.
pub open spec fn rows(v: Seq<Vec<char>>) -> Seq<Seq<char>> {
    v.map_values(|l: Vec<char>| l@)
}

/// The texts that a vector of strings holds.
pub open spec fn texts(v: Seq<String>) -> Seq<Seq<char>> {
    v.map_values(|l: String| l@)
}

/// Position of the first line feed of `s`, or its length where it has none.
pub open spec fn first_newline(s: Seq<char>) -> nat {
    run_length(s, |c: char| c != '\n')
}

/// `line` without one trailing carriage return.
pub open spec fn strip_cr(line: Seq<char>) -> Seq<char> {
    if line.len() > 0 && line.last() == '\r' {
        line.drop_last()
    } else {
        line
    }
}

/// The lines of a text. A line ends at a line feed, which is not part of it,
/// nor is a carriage return directly before that line feed. Text after the
/// last line feed is a line of its own, kept as it stands; no text after it
/// means no further line.
pub open spec fn split_lines(s: Seq<char>) -> Seq<Seq<char>>
    decreases s.len(),
{
    if s.len() == 0 {
        Seq::empty()
    } else {
        let k = first_newline(s) as int;
        if k >= s.len() {
            seq![s]
        } else {
            seq![strip_cr(s.take(k))] + split_lines(s.skip(k + 1))
        }
    }
}

/// `s` holds no line feed.
pub open spec fn no_line_feed(s: Seq<char>) -> bool {
    forall|i: int| 0 <= i < s.len() ==> #[trigger] s[i] != '\n'
}

/// A line that comes back from a text as it was written: it holds no line
/// feed and does not end in a carriage return.
pub open spec fn is_plain_line(s: Seq<char>) -> bool {
    no_line_feed(s) && !(s.len() > 0 && s.last() == '\r')
}

/// The lines joined by single line feeds; no line feed after the last one.
pub open spec fn join_lines(lines: Seq<Seq<char>>) -> Seq<char>
    decreases lines.len(),
{
    if lines.len() == 0 {
        Seq::empty()
    } else if lines.len() == 1 {
        lines[0]
    } else {
        join_lines(lines.drop_last()) + seq!['\n'] + lines.last()
    }
}

/// Appends the characters of `src` to `out`.
pub fn append_chars(out: &mut Vec<char>, src: &Vec<char>)
    ensures
        final(out)@ == old(out)@ + src@,
{
    let mut i: usize = 0;
    while i < src.len()
        invariant
            i <= src.len(),
            out@ == old(out)@ + src@.take(i as int),
        decreases src.len() - i,
    {
        out.push(src[i]);
        i += 1;
    }
}

/// Splits a text into its lines.
pub fn lines_of(text: &Vec<char>) -> (out: Vec<Vec<char>>)
    ensures
        rows(out@) == split_lines(text@),
{
    let n: usize = text.len();
    let mut out: Vec<Vec<char>> = Vec::new();
    let mut cur: Vec<char> = Vec::new();
    let ghost mut start: int = 0;
    let mut i: usize = 0;
    assert(text@.skip(0) == text@);
    while i < n
        invariant
            n == text.len(),
            0 <= start <= i <= n,
            cur@ == text@.subrange(start, i as int),
            forall|j: int| start <= j < i ==> text@[j] != '\n',
            rows(out@) + split_lines(text@.skip(start)) == split_lines(text@),
        decreases n - i,
    {
        let c: char = text[i];
        if c == '\n' {
            proof {
                let rest = text@.skip(start);
                lemma_run_length(rest, |c: char| c != '\n', i - start);
                assert(rest.take(i - start) == text@.subrange(start, i as int));
                assert(rest.skip(i - start + 1) == text@.skip(i + 1));
            }
            let m: usize = cur.len();
            if m > 0 && cur[m - 1] == '\r' {
                cur.pop();
            }
            let ghost before = rows(out@);
            out.push(cur);
            cur = Vec::new();
            proof {
                let line = strip_cr(text@.subrange(start, i as int));
                assert(rows(out@) == before.push(line));
                assert(before.push(line) + split_lines(text@.skip(i + 1)) == before + (seq![line]
                    + split_lines(text@.skip(i + 1))));
                start = i + 1;
            }
        } else {
            cur.push(c);
        }
        i += 1;
    }
    proof {
        let rest = text@.skip(start);
        if start < n {
            lemma_run_length(rest, |c: char| c != '\n', n - start);
            assert(rest == cur@);
        }
    }
    if cur.len() > 0 {
        let ghost before = rows(out@);
        out.push(cur);
        proof {
            let rest = text@.skip(start);
            assert(rows(out@) == before.push(rest));
            assert(before.push(rest) == before + seq![rest]);
        }
    } else {
        assert(rows(out@) + Seq::<Seq<char>>::empty() == rows(out@));
    }
    out
}

/// The characters of `line` from `from` up to, not including, `to`.
pub(crate) fn slice_chars(line: &Vec<char>, from: usize, to: usize) -> (out: Vec<char>)
    requires
        from <= to <= line.len(),
    ensures
        out@ == line@.subrange(from as int, to as int),
{
    let mut out: Vec<char> = Vec::new();
    let mut i: usize = from;
    while i < to
        invariant
            from <= i <= to <= line.len(),
            out@ == line@.subrange(from as int, i as int),
        decreases to - i,
    {
        out.push(line[i]);
        i += 1;
    }
    out
}

/// Joins strings with single line feeds.
pub fn join_texts(lines: &Vec<String>) -> (out: Vec<char>)
    ensures
        out@ == join_lines(texts(lines@)),
{
    let mut out: Vec<char> = Vec::new();
    let mut i: usize = 0;
    while i < lines.len()
        invariant
            i <= lines.len(),
            out@ == join_lines(texts(lines@).take(i as int)),
        decreases lines.len() - i,
    {
        let ghost before = texts(lines@).take(i as int);
        let ghost after = texts(lines@).take(i + 1);
        proof {
            assert(after.drop_last() == before);
            assert(after.last() == lines@[i as int]@);
        }
        if i > 0 {
            out.push('\n');
        }
        let chars = chars_of(lines[i].as_str());
        append_chars(&mut out, &chars);
        proof {
            if i > 0 {
                assert(out@ == join_lines(before) + seq!['\n'] + lines@[i as int]@);
            } else {
                assert(before.len() == 0);
                assert(out@ == lines@[i as int]@);
            }
        }
        i += 1;
    }
    assert(texts(lines@).take(lines.len() as int) == texts(lines@));
    out
}

} // verus!
