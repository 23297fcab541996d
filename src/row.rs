//! Reading one line of a pipe table: its cells, whether it is a table line
//! or a separator line, and the alignments a separator line declares.
use vstd::prelude::*;

use crate::text::{has_char, split_on, split_str, trim, trim_str};

verus! {

/// `t` without one leading and one trailing `|`, each removed where present.
pub open spec fn strip_pipes(t: Seq<char>) -> Seq<char> {
    let a = if t.len() > 0 && t[0] == '|' {
        t.drop_first()
    } else {
        t
    };
    if a.len() > 0 && a.last() == '|' {
        a.drop_last()
    } else {
        a
    }
}

/// The untrimmed pieces of a pipe-delimited line.
pub open spec fn raw_cells(line: Seq<char>) -> Seq<Seq<char>> {
    split_on(strip_pipes(trim(line)), '|')
}

/// The trimmed cells of a pipe-delimited line.
pub open spec fn row_cells(line: Seq<char>) -> Seq<Seq<char>> {
    raw_cells(line).map_values(|c: Seq<char>| trim(c))
}

/// A non-blank line holding at least one `|`.
pub open spec fn table_line(line: Seq<char>) -> bool {
    trim(line).len() > 0 && trim(line).contains('|')
}

/// A non-empty cell made of `-` and `:` alone.
pub open spec fn rule_cell(c: Seq<char>) -> bool {
    c.len() > 0 && forall|k: int| 0 <= k < c.len() ==> (c[k] == '-' || c[k] == ':')
}

/// A line that declares the alignment of each column.
pub open spec fn separator_line(line: Seq<char>) -> bool {
    &&& trim(line).contains('|')
    &&& forall|k: int| 0 <= k < row_cells(line).len() ==> rule_cell(#[trigger] row_cells(line)[k])
}

/// The alignment that a trimmed separator cell declares.
pub open spec fn alignment_name(c: Seq<char>) -> Seq<char> {
    let left = c.len() > 0 && c[0] == ':';
    let right = c.len() > 0 && c.last() == ':';
    if left && right {
        "center"@
    } else if right {
        "right"@
    } else if left {
        "left"@
    } else {
        "none"@
    }
}

/// The alignments that a separator line declares, one per cell.
pub open spec fn row_alignments(line: Seq<char>) -> Seq<Seq<char>> {
    row_cells(line).map_values(|c: Seq<char>| alignment_name(c))
}

fn strip_pipes_str(t: &str) -> (r: &str)
    ensures
        r@ == strip_pipes(t@),
{
    let n = t.unicode_len();
    let from: usize = if n > 0 && t.get_char(0) == '|' {
        1
    } else {
        0
    };
    let to: usize = if n > from && t.get_char(n - 1) == '|' {
        n - 1
    } else {
        n
    };
    let r = t.substring_char(from, to);
    proof {
        let a = if t@.len() > 0 && t@[0] == '|' {
            t@.drop_first()
        } else {
            t@
        };
        assert(a =~= t@.subrange(from as int, n as int));
        if a.len() > 0 && a.last() == '|' {
            assert(a.drop_last() =~= r@);
        } else {
            assert(a =~= r@);
        }
    }
    r
}

/// Splits a pipe-delimited line into its trimmed cells.
pub fn parse_row(line: &str) -> (r: Vec<String>)
    ensures
        r.deep_view() == row_cells(line@),
{
    let pieces = split_str(strip_pipes_str(trim_str(line)), '|');
    let ghost want = row_cells(line@);
    let mut cells: Vec<String> = Vec::new();
    let mut i: usize = 0;
    while i < pieces.len()
        invariant
            i <= pieces.len(),
            pieces.deep_view() == raw_cells(line@),
            want == row_cells(line@),
            want.len() == pieces.len(),
            cells.deep_view() =~= want.take(i as int),
        decreases pieces.len() - i,
    {
        let ghost before = cells.deep_view();
        assert(pieces.deep_view()[i as int] == pieces@[i as int]@);
        let cell = trim_str(pieces[i].as_str()).to_owned();
        cells.push(cell);
        assert(cells.deep_view() =~= before.push(want[i as int]));
        assert(want.take(i + 1) =~= want.take(i as int).push(want[i as int]));
        i = i + 1;
    }
    assert(want.take(pieces.len() as int) =~= want);
    cells
}

/// Whether the line is non-blank and holds a `|`.
pub fn is_table_line(line: &str) -> (r: bool)
    ensures
        r == table_line(line@),
{
    let t = trim_str(line);
    t.unicode_len() > 0 && has_char(t, '|')
}

fn is_rule_cell(c: &str) -> (r: bool)
    ensures
        r == rule_cell(c@),
{
    let n = c.unicode_len();
    if n == 0 {
        return false;
    }
    let mut i: usize = 0;
    while i < n
        invariant
            i <= n,
            n == c@.len(),
            forall|k: int| 0 <= k < i ==> (c@[k] == '-' || c@[k] == ':'),
        decreases n - i,
    {
        let ch = c.get_char(i);
        if ch != '-' && ch != ':' {
            return false;
        }
        i = i + 1;
    }
    true
}

/// Whether the line is an alignment row: it holds a `|`, and each of its
/// cells is non-empty and made of `-` and `:` alone.
pub fn is_separator_line(line: &str) -> (r: bool)
    ensures
        r == separator_line(line@),
{
    if !has_char(trim_str(line), '|') {
        return false;
    }
    let cells = parse_row(line);
    let mut i: usize = 0;
    while i < cells.len()
        invariant
            i <= cells.len(),
            cells.deep_view() == row_cells(line@),
            forall|k: int| 0 <= k < i ==> rule_cell(#[trigger] row_cells(line@)[k]),
        decreases cells.len() - i,
    {
        assert(cells.deep_view()[i as int] == cells@[i as int]@);
        if !is_rule_cell(cells[i].as_str()) {
            return false;
        }
        i = i + 1;
    }
    true
}

fn alignment_of(c: &str) -> (r: String)
    ensures
        r@ == alignment_name(c@),
{
    let n = c.unicode_len();
    let left = n > 0 && c.get_char(0) == ':';
    let right = n > 0 && c.get_char(n - 1) == ':';
    if left && right {
        "center".to_owned()
    } else if right {
        "right".to_owned()
    } else if left {
        "left".to_owned()
    } else {
        "none".to_owned()
    }
}

/// The alignment (`left`, `right`, `center` or `none`) that each cell of a
/// separator line declares.
pub fn parse_alignments(line: &str) -> (r: Vec<String>)
    ensures
        r.deep_view() == row_alignments(line@),
{
    let cells = parse_row(line);
    let ghost want = row_alignments(line@);
    let mut out: Vec<String> = Vec::new();
    let mut i: usize = 0;
    while i < cells.len()
        invariant
            i <= cells.len(),
            cells.deep_view() == row_cells(line@),
            want == row_alignments(line@),
            want.len() == cells.len(),
            out.deep_view() =~= want.take(i as int),
        decreases cells.len() - i,
    {
        let ghost before = out.deep_view();
        assert(cells.deep_view()[i as int] == cells@[i as int]@);
        let a = alignment_of(cells[i].as_str());
        out.push(a);
        assert(out.deep_view() =~= before.push(want[i as int]));
        assert(want.take(i + 1) =~= want.take(i as int).push(want[i as int]));
        i = i + 1;
    }
    assert(want.take(cells.len() as int) =~= want);
    out
}

} // verus!
