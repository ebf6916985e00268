//! Ranking of process rows by a metric, highest first.
//!
//! A metric value is held as an integer key: any integers whose order is the
//! order of the values, with 0 for the value zero. A row whose metric field
//! is missing or does not read as a number has no key and ranks as zero.

use crate::text::{
    chars_of, is_whitespace, lemma_run_length, run_length, slice_chars, string_of, texts,
    trim_start,
};
use vstd::prelude::*;

verus! {

/// Number of rows that a ranked section holds unless told otherwise.
pub const TOP_N: usize = 10;

/// Column of the CPU share in a row of the process table, counting from 0.
pub const CPU_COLUMN: usize = 1;

/// Column of the memory share in a row of the process table, counting from 0.
pub const MEM_COLUMN: usize = 2;

/// The key under which a row without a readable metric is ranked.
pub const FALLBACK_KEY: i64 = 0;

/// The field of `line` at column `col`, counting from 0: fields are the
/// maximal runs of characters that are not whitespace. `None` where the line
/// has no such column.
pub open spec fn field_at(line: Seq<char>, col: nat) -> Option<Seq<char>>
    decreases col,
{
    let rest = trim_start(line);
    let width = run_length(rest, |c: char| !is_whitespace(c)) as int;
    if rest.len() == 0 {
        None
    } else if col == 0 {
        Some(rest.take(width))
    } else {
        field_at(rest.skip(width), (col - 1) as nat)
    }
}

/// Length of the run of whitespace that begins at `from`.
pub(crate) fn whitespace_run_at(line: &Vec<char>, from: usize) -> (k: usize)
    requires
        from <= line.len(),
    ensures
        k == run_length(line@.skip(from as int), |c: char| is_whitespace(c)),
        from + k <= line.len(),
{
    let mut k: usize = 0;
    while from + k < line.len() && crate::text::char_is_whitespace(line[from + k])
        invariant
            from + k <= line.len(),
            forall|j: int| 0 <= j < k ==> is_whitespace(#[trigger] line@.skip(from as int)[j]),
        decreases line.len() - k,
    {
        k += 1;
    }
    proof {
        lemma_run_length(line@.skip(from as int), |c: char| is_whitespace(c), k as int);
    }
    k
}

/// Length of the run of characters other than whitespace that begins at `from`.
pub(crate) fn word_run_at(line: &Vec<char>, from: usize) -> (k: usize)
    requires
        from <= line.len(),
    ensures
        k == run_length(line@.skip(from as int), |c: char| !is_whitespace(c)),
        from + k <= line.len(),
{
    let mut k: usize = 0;
    while from + k < line.len() && !crate::text::char_is_whitespace(line[from + k])
        invariant
            from + k <= line.len(),
            forall|j: int| 0 <= j < k ==> !is_whitespace(#[trigger] line@.skip(from as int)[j]),
        decreases line.len() - k,
    {
        k += 1;
    }
    proof {
        lemma_run_length(line@.skip(from as int), |c: char| !is_whitespace(c), k as int);
    }
    k
}

/// The field of `line` at column `col`, counting from 0 and splitting on
/// whitespace; `None` where the line has fewer fields.
pub fn metric_field(line: &str, col: usize) -> (field: Option<String>)
    ensures
        field is Some <==> field_at(line@, col as nat) is Some,
        field matches Some(f) ==> f@ == field_at(line@, col as nat)->0,
{
    let chars = chars_of(line);
    let mut pos: usize = 0;
    let mut left: usize = col;
    assert(chars@.skip(0) == chars@);
    loop
        invariant
            chars@ == line@,
            pos <= chars.len(),
            left <= col,
            field_at(line@, col as nat) == field_at(chars@.skip(pos as int), left as nat),
        decreases left,
    {
        let gap: usize = whitespace_run_at(&chars, pos);
        let start: usize = pos + gap;
        let width: usize = word_run_at(&chars, start);
        proof {
            let rest = chars@.skip(pos as int);
            assert(trim_start(rest) == chars@.skip(start as int));
            assert(chars@.skip(start as int).take(width as int) == chars@.subrange(
                start as int,
                start + width,
            ));
            assert(chars@.skip(start as int).skip(width as int) == chars@.skip(start + width));
        }
        if start == chars.len() {
            return None;
        }
        if left == 0 {
            let field = slice_chars(&chars, start, start + width);
            return Some(string_of(&field));
        }
        pos = start + width;
        left -= 1;
    }
}

/// The field of a row that holds its CPU share, where the row has one.
pub fn cpu_field(row: &str) -> (field: Option<String>)
    ensures
        field is Some <==> field_at(row@, CPU_COLUMN as nat) is Some,
        field matches Some(f) ==> f@ == field_at(row@, CPU_COLUMN as nat)->0,
{
    metric_field(row, CPU_COLUMN)
}

/// The field of a row that holds its memory share, where the row has one.
pub fn mem_field(row: &str) -> (field: Option<String>)
    ensures
        field is Some <==> field_at(row@, MEM_COLUMN as nat) is Some,
        field matches Some(f) ==> f@ == field_at(row@, MEM_COLUMN as nat)->0,
{
    metric_field(row, MEM_COLUMN)
}

/// The key of row `i`: the one given for it, or the fallback where none is.
pub open spec fn key_at(keys: Seq<Option<i64>>, i: int) -> int {
    if 0 <= i < keys.len() {
        match keys[i] {
            Some(k) => k as int,
            None => FALLBACK_KEY as int,
        }
    } else {
        FALLBACK_KEY as int
    }
}

/// Row `i` is ranked before row `j`: its key is higher, or the keys are
/// equal and it stands earlier in the input.
pub open spec fn ranks_before(keys: Seq<Option<i64>>, i: int, j: int) -> bool {
    key_at(keys, i) > key_at(keys, j) || (key_at(keys, i) == key_at(keys, j) && i < j)
}

/// Row `i` stands somewhere in `order`.
pub open spec fn is_listed(order: Seq<int>, i: int) -> bool {
    exists|a: int| 0 <= a < order.len() && #[trigger] order[a] == i
}

/// `order` lists the rows `0..n`, each once, every row before those that it
/// is ranked before.
pub open spec fn is_ranking(keys: Seq<Option<i64>>, n: nat, order: Seq<int>) -> bool {
    &&& order.len() == n
    &&& forall|a: int| 0 <= a < n ==> 0 <= #[trigger] order[a] < n
    &&& forall|i: int| 0 <= i < n ==> #[trigger] is_listed(order, i)
    &&& forall|a: int, b: int|
        0 <= a < b < n ==> ranks_before(keys, #[trigger] order[a], #[trigger] order[b])
}

/// Where row `i` goes into `order`: behind the leading rows whose key is not
/// lower than its own.
pub open spec fn insert_position(keys: Seq<Option<i64>>, order: Seq<int>, i: int) -> int {
    run_length(order, |j: int| key_at(keys, j) >= key_at(keys, i)) as int
}

/// The rows `0..n` in ranked order, highest key first, rows of equal key in
/// input order.
pub open spec fn ranking(keys: Seq<Option<i64>>, n: nat) -> Seq<int>
    decreases n,
{
    if n == 0 {
        Seq::empty()
    } else {
        let before = ranking(keys, (n - 1) as nat);
        before.insert(insert_position(keys, before, n - 1), n - 1)
    }
}

/// The first `top_n` rows of `lines` in ranked order (all of them where
/// there are fewer).
pub open spec fn top_rows(lines: Seq<Seq<char>>, keys: Seq<Option<i64>>, top_n: nat) -> Seq<
    Seq<char>,
> {
    let order = ranking(keys, lines.len());
    Seq::new(
        if top_n < lines.len() {
            top_n
        } else {
            lines.len()
        },
        |k: int| lines[order[k]],
    )
}

/// `ranking` lists every row once, sorted by key, highest first, and keeps
/// the input order among rows of equal key.
pub proof fn lemma_ranking_sorted(keys: Seq<Option<i64>>, n: nat)
    ensures
        is_ranking(keys, n, ranking(keys, n)),
    decreases n,
{
    if n > 0 {
        let i = n - 1;
        let before = ranking(keys, i as nat);
        lemma_ranking_sorted(keys, i as nat);
        let p = insert_position(keys, before, i);
        lemma_run_length(before, |j: int| key_at(keys, j) >= key_at(keys, i), p);
        let order = before.insert(p, i);
        assert(order == ranking(keys, n));
        assert(order.len() == n);
        assert forall|a: int| 0 <= a < n implies 0 <= #[trigger] order[a] < n by {
            if a < p {
                assert(order[a] == before[a]);
            } else if a > p {
                assert(order[a] == before[a - 1]);
            }
        }
        assert forall|j: int| 0 <= j < n implies #[trigger] is_listed(order, j) by {
            if j == i {
                assert(order[p] == j);
            } else {
                assert(is_listed(before, j));
                let a = choose|a: int| 0 <= a < before.len() && #[trigger] before[a] == j;
                if a < p {
                    assert(order[a] == j);
                } else {
                    assert(order[a + 1] == j);
                }
            }
        }
        assert forall|a: int, b: int| 0 <= a < b < n implies ranks_before(
            keys,
            #[trigger] order[a],
            #[trigger] order[b],
        ) by {
            let x = if a < p {
                before[a]
            } else if a == p {
                i
            } else {
                before[a - 1]
            };
            let y = if b < p {
                before[b]
            } else if b == p {
                i
            } else {
                before[b - 1]
            };
            assert(order[a] == x && order[b] == y);
            if b == p {
                assert(key_at(keys, before[a]) >= key_at(keys, i));
                assert(0 <= before[a] < i);
            } else if a == p {
                assert(key_at(keys, before[p]) < key_at(keys, i));
                if b - 1 > p {
                    assert(ranks_before(keys, before[p], before[b - 1]));
                }
            } else if a < p && b > p {
                assert(ranks_before(keys, before[a], before[b - 1]));
            } else if a < p {
                assert(ranks_before(keys, before[a], before[b]));
            } else {
                assert(ranks_before(keys, before[a - 1], before[b - 1]));
            }
        }
    }
}

/// Two rankings of the same rows agree at every position.
proof fn lemma_ranking_agree_at(
    keys: Seq<Option<i64>>,
    n: nat,
    first: Seq<int>,
    second: Seq<int>,
    a: int,
)
    requires
        is_ranking(keys, n, first),
        is_ranking(keys, n, second),
        0 <= a < n,
    ensures
        first[a] == second[a],
    decreases a,
{
    assert forall|b: int| 0 <= b < a implies first[b] == second[b] by {
        lemma_ranking_agree_at(keys, n, first, second, b);
    }
    let x = first[a];
    let y = second[a];
    if x != y {
        assert(is_listed(second, x));
        assert(is_listed(first, y));
        let b = choose|b: int| 0 <= b < second.len() && #[trigger] second[b] == x;
        let c = choose|c: int| 0 <= c < first.len() && #[trigger] first[c] == y;
        if b < a {
            assert(ranks_before(keys, first[b], first[a]));
        }
        if c < a {
            assert(ranks_before(keys, second[c], second[a]));
        }
        assert(ranks_before(keys, second[a], second[b]));
        assert(ranks_before(keys, first[a], first[c]));
    }
}

/// The ranking is the only order that `is_ranking` admits.
pub proof fn lemma_ranking_unique(keys: Seq<Option<i64>>, n: nat, order: Seq<int>)
    requires
        is_ranking(keys, n, order),
    ensures
        order == ranking(keys, n),
{
    lemma_ranking_sorted(keys, n);
    let r = ranking(keys, n);
    assert forall|a: int| 0 <= a < n implies order[a] == r[a] by {
        lemma_ranking_agree_at(keys, n, order, r, a);
    }
    assert(order =~= r);
}

/// A row without a key is ranked as a row whose key is the fallback, zero:
/// giving every such row that key changes no ranking.
pub proof fn lemma_missing_ranks_as_zero(keys: Seq<Option<i64>>, n: nat)
    ensures
        ranking(keys, n) == ranking(
            Seq::new(n, |i: int| Some(key_at(keys, i) as i64)),
            n,
        ),
{
    let filled = Seq::new(n, |i: int| Some(key_at(keys, i) as i64));
    lemma_ranking_sorted(keys, n);
    let r = ranking(keys, n);
    assert forall|i: int| 0 <= i < n implies key_at(filled, i) == key_at(keys, i) by {}
    assert forall|a: int, b: int| 0 <= a < b < n implies ranks_before(
        filled,
        #[trigger] r[a],
        #[trigger] r[b],
    ) by {
        assert(ranks_before(keys, r[a], r[b]));
    }
    lemma_ranking_unique(filled, n, r);
}

/// The key of row `i`: the one given for it, or the fallback.
pub fn metric_key(keys: &Vec<Option<i64>>, i: usize) -> (key: i64)
    ensures
        key == key_at(keys@, i as int),
{
    if i < keys.len() {
        match keys[i] {
            Some(k) => k,
            None => FALLBACK_KEY,
        }
    } else {
        FALLBACK_KEY
    }
}

/// The rows of a table as plain integers.
pub open spec fn indices(order: Seq<usize>) -> Seq<int> {
    order.map_values(|x: usize| x as int)
}

/// Ranks the rows `0..n` by their keys, highest first; rows of equal key
/// keep their input order. A row without a key ranks as zero.
pub fn rank_rows(keys: &Vec<Option<i64>>, n: usize) -> (order: Vec<usize>)
    ensures
        indices(order@) == ranking(keys@, n as nat),
        is_ranking(keys@, n as nat, indices(order@)),
{
    let mut order: Vec<usize> = Vec::new();
    let mut i: usize = 0;
    while i < n
        invariant
            i <= n,
            indices(order@) == ranking(keys@, i as nat),
        decreases n - i,
    {
        proof {
            lemma_ranking_sorted(keys@, i as nat);
        }
        let key: i64 = metric_key(keys, i);
        let mut p: usize = 0;
        while p < order.len() && metric_key(keys, order[p]) >= key
            invariant
                p <= order.len(),
                key == key_at(keys@, i as int),
                forall|a: int|
                    0 <= a < p ==> key_at(keys@, #[trigger] indices(order@)[a]) >= key_at(
                        keys@,
                        i as int,
                    ),
            decreases order.len() - p,
        {
            p += 1;
        }
        let ghost before = indices(order@);
        proof {
            if p < order.len() {
                assert(key_at(keys@, before[p as int]) < key_at(keys@, i as int));
            }
            lemma_run_length(
                before,
                |j: int| key_at(keys@, j) >= key_at(keys@, i as int),
                p as int,
            );
        }
        order.insert(p, i);
        proof {
            assert(indices(order@) =~= before.insert(p as int, i as int));
        }
        i += 1;
    }
    proof {
        lemma_ranking_sorted(keys@, n as nat);
    }
    order
}

/// The `top_n` highest-ranked rows of `lines`, highest key first; all rows
/// where there are fewer. `keys[i]` is the metric key of `lines[i]`; a row
/// whose key is `None`, or for which `keys` is too short, ranks as zero. Rows
/// of equal key keep their input order.
pub fn rank_top(lines: &Vec<String>, keys: &Vec<Option<i64>>, top_n: usize) -> (out: Vec<String>)
    ensures
        texts(out@) == top_rows(texts(lines@), keys@, top_n as nat),
        out.len() <= top_n,
        out.len() <= lines.len(),
{
    let order = rank_rows(keys, lines.len());
    let count: usize = if top_n < lines.len() {
        top_n
    } else {
        lines.len()
    };
    let mut out: Vec<String> = Vec::new();
    let mut k: usize = 0;
    while k < count
        invariant
            k <= count <= lines.len(),
            count <= top_n,
            is_ranking(keys@, lines.len() as nat, indices(order@)),
            indices(order@) == ranking(keys@, lines.len() as nat),
            out.len() == k,
            forall|a: int|
                0 <= a < k ==> (#[trigger] out@[a])@ == lines@[indices(order@)[a]]@,
        decreases count - k,
    {
        assert(0 <= indices(order@)[k as int] < lines.len());
        let row: usize = order[k];
        out.push(lines[row].clone());
        k += 1;
    }
    proof {
        assert(texts(out@) =~= top_rows(texts(lines@), keys@, top_n as nat));
    }
    out
}

/// The `TOP_N` highest-ranked rows of `lines` under `keys`: one ranked
/// section of a snapshot.
pub fn top_by(lines: &Vec<String>, keys: &Vec<Option<i64>>) -> (out: Vec<String>)
    ensures
        texts(out@) == top_rows(texts(lines@), keys@, TOP_N as nat),
        out.len() <= TOP_N,
        out.len() <= lines.len(),
{
    rank_top(lines, keys, TOP_N)
}

} // verus!
