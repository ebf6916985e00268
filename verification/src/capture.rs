//! The collector's side of the log format: reading the process table it is
//! handed, and writing a snapshot as a block of text.

use crate::rank::{top_by, top_rows, TOP_N};
use crate::snapshot::{banner_prefix, banner_suffix};
use crate::text::{
    append_chars, chars_of, is_blank, is_blank_line, join_lines, join_texts, lines_of, rows,
    split_lines, string_of, texts,
};
use vstd::prelude::*;

verus! {

/// The header that stands in for the one of an empty process table.
pub open spec fn default_header() -> Seq<char> {
    "PID  %CPU %MEM    RSS COMM"@
}

/// `-- CPU --`, which opens the section ranked by CPU.
pub open spec fn cpu_marker() -> Seq<char> {
    seq!['-', '-', ' ', 'C', 'P', 'U', ' ', '-', '-']
}

/// `-- MEM --`, which opens the section ranked by memory.
pub open spec fn mem_marker() -> Seq<char> {
    seq!['-', '-', ' ', 'M', 'E', 'M', ' ', '-', '-']
}

/// The header of a process table: its first line as it stands, or the
/// default header where the table is blank.
pub open spec fn table_header(text: Seq<char>) -> Seq<char> {
    if is_blank(text) {
        default_header()
    } else {
        split_lines(text)[0]
    }
}

/// The data rows of a process table: the lines after the first that are not
/// blank, as they stand and in order. A blank table has none.
pub open spec fn table_rows(text: Seq<char>) -> Seq<Seq<char>> {
    if is_blank(text) {
        Seq::empty()
    } else {
        split_lines(text).skip(1).filter(|line: Seq<char>| !is_blank(line))
    }
}

/// Splits the text of a process table into its header line and its data
/// rows. The header is the first line, kept as it stands. A blank table
/// gives the default header and no rows.
pub fn split_table(text: &str) -> (table: (String, Vec<String>))
    ensures
        table.0@ == table_header(text@),
        texts(table.1@) == table_rows(text@),
{
    let chars = chars_of(text);
    if is_blank_line(&chars) {
        return (String::from_str("PID  %CPU %MEM    RSS COMM"), Vec::new());
    }
    let lines = lines_of(&chars);
    proof {
        assert(chars@.len() > 0);
        assert(split_lines(chars@).len() > 0);
    }
    let header = string_of(&lines[0]);
    let mut body: Vec<String> = Vec::new();
    let ghost rest = rows(lines@).skip(1);
    let ghost keep = |line: Seq<char>| !is_blank(line);
    let mut i: usize = 1;
    proof {
        reveal(Seq::filter);
        assert(rest.take(0).filter(keep) == Seq::<Seq<char>>::empty());
    }
    while i < lines.len()
        invariant
            1 <= i <= lines.len(),
            rest == rows(lines@).skip(1),
            keep == |line: Seq<char>| !is_blank(line),
            texts(body@) == rest.take(i - 1).filter(keep),
        decreases lines.len() - i,
    {
        let ghost before = texts(body@);
        proof {
            reveal(Seq::filter);
            assert(rest.take(i as int).drop_last() == rest.take(i - 1));
            assert(rest.take(i as int).last() == lines@[i as int]@);
        }
        if !is_blank_line(&lines[i]) {
            body.push(string_of(&lines[i]));
            proof {
                assert(texts(body@) == before.push(lines@[i as int]@));
            }
        }
        i += 1;
    }
    proof {
        assert(rest.take(lines.len() - 1) == rest);
    }
    (header, body)
}

/// The text of one snapshot in a log: the banner with the timestamp, the CPU
/// section, the memory section, and a blank line. Each section is its
/// marker, the header, and its rows, one to a line.
pub open spec fn snapshot_text(
    timestamp: Seq<char>,
    header: Seq<char>,
    cpu: Seq<Seq<char>>,
    mem: Seq<Seq<char>>,
) -> Seq<char> {
    banner_prefix() + timestamp + banner_suffix() + seq!['\n'] + cpu_marker() + seq!['\n'] + header
        + seq!['\n'] + join_lines(cpu) + seq!['\n'] + mem_marker() + seq!['\n'] + header + seq![
        '\n',
    ] + join_lines(mem) + seq!['\n', '\n']
}

/// Appends `-- `, the three letters of a section's name, and ` --`.
fn push_marker(out: &mut Vec<char>, a: char, b: char, c: char)
    ensures
        final(out)@ == old(out)@ + seq!['-', '-', ' ', a, b, c, ' ', '-', '-'],
{
    out.push('-');
    out.push('-');
    out.push(' ');
    out.push(a);
    out.push(b);
    out.push(c);
    out.push(' ');
    out.push('-');
    out.push('-');
    assert(out@ == old(out)@ + seq!['-', '-', ' ', a, b, c, ' ', '-', '-']);
}

/// Writes one snapshot as the block of text that is appended to the day's
/// log.
pub fn format_snapshot(
    timestamp: &str,
    header: &str,
    cpu_top: &Vec<String>,
    mem_top: &Vec<String>,
) -> (block: String)
    ensures
        block@ == snapshot_text(timestamp@, header@, texts(cpu_top@), texts(mem_top@)),
{
    let stamp = chars_of(timestamp);
    let head = chars_of(header);
    let cpu = join_texts(cpu_top);
    let mem = join_texts(mem_top);
    let mut out: Vec<char> = Vec::new();
    out.push('=');
    out.push('=');
    out.push('=');
    out.push(' ');
    assert(out@ == banner_prefix());
    append_chars(&mut out, &stamp);
    out.push(' ');
    out.push('=');
    out.push('=');
    out.push('=');
    out.push('\n');
    assert(out@ == banner_prefix() + timestamp@ + banner_suffix() + seq!['\n']);
    push_marker(&mut out, 'C', 'P', 'U');
    out.push('\n');
    append_chars(&mut out, &head);
    out.push('\n');
    append_chars(&mut out, &cpu);
    out.push('\n');
    assert(out@ == banner_prefix() + timestamp@ + banner_suffix() + seq!['\n'] + cpu_marker()
        + seq!['\n'] + header@ + seq!['\n'] + join_lines(texts(cpu_top@)) + seq!['\n']);
    push_marker(&mut out, 'M', 'E', 'M');
    out.push('\n');
    append_chars(&mut out, &head);
    out.push('\n');
    append_chars(&mut out, &mem);
    out.push('\n');
    out.push('\n');
    assert(out@ == snapshot_text(timestamp@, header@, texts(cpu_top@), texts(mem_top@)));
    string_of(&out)
}

/// Writes the snapshot of a process table as the block of text that is
/// appended to the day's log: the rows ranked by their CPU keys in the one
/// section, by their memory keys in the other, `TOP_N` of them at most in
/// each. `cpu_keys[i]` and `mem_keys[i]` are the keys of `rows[i]`.
pub fn snapshot_block(
    timestamp: &str,
    header: &str,
    rows: &Vec<String>,
    cpu_keys: &Vec<Option<i64>>,
    mem_keys: &Vec<Option<i64>>,
) -> (block: String)
    ensures
        block@ == snapshot_text(
            timestamp@,
            header@,
            top_rows(texts(rows@), cpu_keys@, TOP_N as nat),
            top_rows(texts(rows@), mem_keys@, TOP_N as nat),
        ),
{
    let cpu_top = top_by(rows, cpu_keys);
    let mem_top = top_by(rows, mem_keys);
    format_snapshot(timestamp, header, &cpu_top, &mem_top)
}

} // verus!
