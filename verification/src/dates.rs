//! The days for which a log exists, in ascending order.

use crate::retention::{date_of_log, is_log_file, is_log_name, log_date};
use crate::text::{chars_of, code_point, rows, slice_chars, string_of, texts};
use vstd::prelude::*;

verus! {

/// `a` is not after `b` in the order of strings: character by character, by
/// code point, a text before every longer text that it begins.
pub open spec fn text_le(a: Seq<char>, b: Seq<char>) -> bool
    decreases a.len(),
{
    if a.len() == 0 {
        true
    } else if b.len() == 0 {
        false
    } else if a[0] == b[0] {
        text_le(a.drop_first(), b.drop_first())
    } else {
        (a[0] as int) < (b[0] as int)
    }
}

/// Every text of `list` is not after the ones that follow it.
pub open spec fn is_ascending(list: Seq<Seq<char>>) -> bool {
    forall|i: int, j: int| 0 <= i < j < list.len() ==> text_le(#[trigger] list[i], #[trigger] list[j])
}

/// The dates of the day logs among file names, in the order of the names.
pub open spec fn log_dates(names: Seq<Seq<char>>) -> Seq<Seq<char>> {
    names.filter(|name: Seq<char>| is_log_name(name)).map_values(|name: Seq<char>| log_date(name))
}

/// Of two texts one is not after the other.
pub proof fn lemma_text_le_total(a: Seq<char>, b: Seq<char>)
    ensures
        text_le(a, b) || text_le(b, a),
    decreases a.len(),
{
    if a.len() > 0 && b.len() > 0 {
        if a[0] == b[0] {
            lemma_text_le_total(a.drop_first(), b.drop_first());
        }
    }
}

/// The order of texts is transitive.
pub proof fn lemma_text_le_transitive(a: Seq<char>, b: Seq<char>, c: Seq<char>)
    requires
        text_le(a, b),
        text_le(b, c),
    ensures
        text_le(a, c),
    decreases a.len(),
{
    if a.len() > 0 && b.len() > 0 && c.len() > 0 {
        if a[0] == b[0] && b[0] == c[0] {
            lemma_text_le_transitive(a.drop_first(), b.drop_first(), c.drop_first());
        }
    }
}

/// Texts that are each not after the other are the same text.
pub proof fn lemma_text_le_antisymmetric(a: Seq<char>, b: Seq<char>)
    requires
        text_le(a, b),
        text_le(b, a),
    ensures
        a == b,
    decreases a.len(),
{
    if a.len() > 0 && b.len() > 0 {
        assert(a[0] == b[0]);
        let x = a.drop_first();
        let y = b.drop_first();
        assert(text_le(x, y) && text_le(y, x));
        lemma_text_le_antisymmetric(x, y);
        assert(x.len() == a.len() - 1 && y.len() == b.len() - 1);
        assert(a.len() == b.len());
        assert forall|i: int| 0 <= i < a.len() implies a[i] == b[i] by {
            if i > 0 {
                assert(a[i] == x[i - 1]);
                assert(b[i] == y[i - 1]);
            }
        }
    }
    assert(a =~= b);
}

/// Whether the code point of `x` is lower than that of `y`.
pub fn char_before(x: char, y: char) -> (r: bool)
    ensures
        r == ((x as int) < (y as int)),
{
    code_point(x) < code_point(y)
}

/// Whether `a` is not after `b` in the order of strings.
pub fn text_not_after(a: &Vec<char>, b: &Vec<char>) -> (r: bool)
    ensures
        r == text_le(a@, b@),
{
    let mut i: usize = 0;
    assert(a@.skip(0) == a@ && b@.skip(0) == b@);
    while i < a.len() && i < b.len()
        invariant
            i <= a.len(),
            i <= b.len(),
            text_le(a@, b@) == text_le(a@.skip(i as int), b@.skip(i as int)),
        decreases a.len() - i,
    {
        proof {
            assert(a@.skip(i as int).drop_first() == a@.skip(i + 1));
            assert(b@.skip(i as int).drop_first() == b@.skip(i + 1));
        }
        let x: char = a[i];
        let y: char = b[i];
        if x != y {
            return char_before(x, y);
        }
        i += 1;
    }
    i == a.len()
}

/// Sorts texts into ascending order.
pub fn sort_texts(list: &Vec<Vec<char>>) -> (out: Vec<Vec<char>>)
    ensures
        is_ascending(rows(out@)),
        rows(out@).to_multiset() == rows(list@).to_multiset(),
{
    let mut out: Vec<Vec<char>> = Vec::new();
    let ghost all = rows(list@);
    let mut k: usize = 0;
    proof {
        assert(rows(out@) == all.take(0));
    }
    while k < list.len()
        invariant
            k <= list.len(),
            all == rows(list@),
            is_ascending(rows(out@)),
            rows(out@).to_multiset() == all.take(k as int).to_multiset(),
        decreases list.len() - k,
    {
        let item = &list[k];
        let mut p: usize = 0;
        while p < out.len() && text_not_after(&out[p], item)
            invariant
                p <= out.len(),
                forall|a: int| 0 <= a < p ==> text_le(#[trigger] rows(out@)[a], item@),
            decreases out.len() - p,
        {
            p += 1;
        }
        let ghost before = rows(out@);
        let copy = slice_chars(item, 0, item.len());
        proof {
            assert(copy@ == item@);
        }
        out.insert(p, copy);
        proof {
            let after = rows(out@);
            assert(after == before.insert(p as int, item@));
            assert(all.take(k + 1) == all.take(k as int).push(item@));
            vstd::seq_lib::to_multiset_insert(before, p as int, item@);
            vstd::seq_lib::to_multiset_build(all.take(k as int), item@);
            assert forall|i: int, j: int| 0 <= i < j < after.len() implies text_le(
                #[trigger] after[i],
                #[trigger] after[j],
            ) by {
                if j == p {
                    assert(after[i] == before[i]);
                } else if i == p {
                    assert(after[j] == before[j - 1]);
                    assert(!text_le(before[p as int], item@));
                    lemma_text_le_total(before[p as int], item@);
                    if j - 1 > p {
                        assert(text_le(before[p as int], before[j - 1]));
                        lemma_text_le_transitive(item@, before[p as int], before[j - 1]);
                    }
                } else if i < p && j > p {
                    assert(after[i] == before[i] && after[j] == before[j - 1]);
                    assert(text_le(before[i], before[j - 1]));
                } else if i < p {
                    assert(after[i] == before[i] && after[j] == before[j]);
                } else {
                    assert(after[i] == before[i - 1] && after[j] == before[j - 1]);
                }
            }
        }
        k += 1;
    }
    proof {
        assert(all.take(list.len() as int) == all);
    }
    out
}

/// The days for which a log exists among the file names of the log
/// directory, in ascending order. A name that does not follow the naming of
/// day logs stands for no day.
pub fn list_dates(names: &Vec<String>) -> (dates: Vec<String>)
    ensures
        is_ascending(texts(dates@)),
        texts(dates@).to_multiset() == log_dates(texts(names@)).to_multiset(),
{
    let ghost all = texts(names@);
    let ghost keep = |name: Seq<char>| is_log_name(name);
    let ghost date = |name: Seq<char>| log_date(name);
    let mut found: Vec<Vec<char>> = Vec::new();
    let mut i: usize = 0;
    proof {
        reveal(Seq::filter);
        assert(rows(found@) == all.take(0).filter(keep).map_values(date));
    }
    while i < names.len()
        invariant
            i <= names.len(),
            all == texts(names@),
            keep == |name: Seq<char>| is_log_name(name),
            date == |name: Seq<char>| log_date(name),
            rows(found@) == all.take(i as int).filter(keep).map_values(date),
        decreases names.len() - i,
    {
        let ghost before = rows(found@);
        proof {
            reveal(Seq::filter);
            assert(all.take(i + 1).drop_last() == all.take(i as int));
            assert(all.take(i + 1).last() == names@[i as int]@);
        }
        if is_log_file(names[i].as_str()) {
            let chars = chars_of(names[i].as_str());
            found.push(date_of_log(&chars));
            proof {
                let kept = all.take(i as int).filter(keep);
                assert(rows(found@) == before.push(log_date(names@[i as int]@)));
                assert(kept.push(names@[i as int]@).map_values(date) == kept.map_values(date).push(
                    log_date(names@[i as int]@),
                ));
            }
        }
        i += 1;
    }
    proof {
        assert(all.take(names.len() as int) == all);
    }
    let sorted = sort_texts(&found);
    let mut dates: Vec<String> = Vec::new();
    let mut k: usize = 0;
    while k < sorted.len()
        invariant
            k <= sorted.len(),
            texts(dates@) == rows(sorted@).take(k as int),
        decreases sorted.len() - k,
    {
        let ghost before = texts(dates@);
        dates.push(string_of(&sorted[k]));
        proof {
            assert(texts(dates@) == before.push(sorted@[k as int]@));
            assert(rows(sorted@).take(k + 1) == rows(sorted@).take(k as int).push(
                sorted@[k as int]@,
            ));
        }
        k += 1;
    }
    proof {
        assert(rows(sorted@).take(sorted.len() as int) == rows(sorted@));
    }
    dates
}

} // verus!
