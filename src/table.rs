//! The table model and the single forward scan that finds every table in a
//! document, with the last heading seen above it.
use vstd::prelude::*;

use crate::row::{
    is_separator_line, is_table_line, parse_alignments, parse_row, row_alignments, row_cells,
    separator_line, table_line,
};
use crate::text::{lines_of, split_lines, trim, trim_str};

verus! {

/// One pipe table found in a document.
#[derive(Clone, Debug)]
pub struct MarkdownTable {
    /// Text of the nearest heading above the table, if any.
    pub heading: Option<String>,
    /// Cells of the header row.
    pub headers: Vec<String>,
    /// `left`, `right`, `center` or `none`, one per column.
    pub alignments: Vec<String>,
    /// Body rows, each a list of cells.
    pub rows: Vec<Vec<String>>,
    /// Index of the header row in the document's lines.
    pub start_line: usize,
    /// Index of the last line of the table (inclusive).
    pub end_line: usize,
}

/// A document split into lines, with the tables found in it.
#[derive(Clone, Debug)]
pub struct ParsedDocument {
    /// Every line of the document, without line terminators.
    pub lines: Vec<String>,
    /// The tables, in document order.
    pub tables: Vec<MarkdownTable>,
}

/// The mathematical value of a `MarkdownTable`.
pub struct TableView {
    pub heading: Option<Seq<char>>,
    pub headers: Seq<Seq<char>>,
    pub alignments: Seq<Seq<char>>,
    pub rows: Seq<Seq<Seq<char>>>,
    pub start_line: int,
    pub end_line: int,
}

/// The text of an optional string.
pub open spec fn text_opt(h: Option<String>) -> Option<Seq<char>> {
    match h {
        Some(s) => Some(s@),
        None => None,
    }
}

impl View for MarkdownTable {
    type V = TableView;

    open spec fn view(&self) -> TableView {
        TableView {
            heading: text_opt(self.heading),
            headers: self.headers.deep_view(),
            alignments: self.alignments.deep_view(),
            rows: self.rows.deep_view(),
            start_line: self.start_line as int,
            end_line: self.end_line as int,
        }
    }
}

/// The mathematical values of a list of tables.
pub open spec fn tables_view(ts: Seq<MarkdownTable>) -> Seq<TableView> {
    ts.map_values(|t: MarkdownTable| t@)
}

/// A line whose trimmed text starts with `#`.
pub open spec fn heading_line(line: Seq<char>) -> bool {
    trim(line).len() > 0 && trim(line)[0] == '#'
}

/// `s` without its leading run of `#`.
pub open spec fn strip_hashes(s: Seq<char>) -> Seq<char>
    decreases s.len(),
{
    if s.len() > 0 && s[0] == '#' {
        strip_hashes(s.drop_first())
    } else {
        s
    }
}

/// The title that a heading line gives.
pub open spec fn heading_text(line: Seq<char>) -> Seq<char> {
    trim(strip_hashes(trim(line)))
}

/// Whether a table (header row and separator row) starts at line `i`.
pub open spec fn table_starts(lines: Seq<Seq<char>>, i: int) -> bool {
    0 <= i && i + 1 < lines.len() && table_line(lines[i]) && separator_line(lines[i + 1])
}

/// A line that continues the body of a table.
pub open spec fn body_line(line: Seq<char>) -> bool {
    table_line(line) && !separator_line(line)
}

/// `row` padded with empty cells or cut to exactly `n` cells.
pub open spec fn fit_row(row: Seq<Seq<char>>, n: nat) -> Seq<Seq<char>> {
    Seq::new(
        n,
        |k: int|
            if k < row.len() {
                row[k]
            } else {
                Seq::empty()
            },
    )
}

/// The table whose header row is line `i` and whose body has `b` rows.
pub open spec fn table_at(
    lines: Seq<Seq<char>>,
    i: int,
    b: nat,
    heading: Option<Seq<char>>,
) -> TableView {
    let headers = row_cells(lines[i]);
    TableView {
        heading,
        headers,
        alignments: row_alignments(lines[i + 1]),
        rows: Seq::new(b, |k: int| fit_row(row_cells(lines[i + 2 + k]), headers.len())),
        start_line: i,
        end_line: i + 1 + b,
    }
}

/// The tables found from line `i` on, with `heading` the last heading seen
/// before line `i`.
pub open spec fn scan(lines: Seq<Seq<char>>, i: int, heading: Option<Seq<char>>) -> Seq<
    TableView,
>
    decreases lines.len() - i, 0nat,
{
    if i < 0 || i >= lines.len() {
        Seq::empty()
    } else if heading_line(lines[i]) {
        scan(lines, i + 1, Some(heading_text(lines[i])))
    } else if table_starts(lines, i) {
        scan_body(lines, i, i + 2, heading)
    } else {
        scan(lines, i + 1, heading)
    }
}

/// The tables found from the body line `j` of the table whose header row is
/// line `i` on.
pub open spec fn scan_body(
    lines: Seq<Seq<char>>,
    i: int,
    j: int,
    heading: Option<Seq<char>>,
) -> Seq<TableView>
    decreases lines.len() - j, 1nat,
{
    if j < 0 || j > lines.len() {
        Seq::empty()
    } else if j < lines.len() && body_line(lines[j]) {
        scan_body(lines, i, j + 1, heading)
    } else {
        seq![table_at(lines, i, (j - i - 2) as nat, heading)] + scan(lines, j, heading)
    }
}

/// The tables of a whole document.
pub open spec fn tables_of(content: Seq<char>) -> Seq<TableView> {
    scan(lines_of(content), 0, None)
}

fn heading_of(t: &str) -> (r: String)
    ensures
        r@ == trim(strip_hashes(t@)),
{
    let n = t.unicode_len();
    let mut k: usize = 0;
    assert(t@.subrange(0, n as int) =~= t@);
    while k < n && t.get_char(k) == '#'
        invariant
            k <= n,
            n == t@.len(),
            strip_hashes(t@) == strip_hashes(t@.subrange(k as int, n as int)),
        decreases n - k,
    {
        assert(t@.subrange(k as int, n as int).drop_first() =~= t@.subrange(k + 1, n as int));
        k = k + 1;
    }
    trim_str(t.substring_char(k, n)).to_owned()
}

fn copy_heading(h: &Option<String>) -> (r: Option<String>)
    ensures
        text_opt(r) == text_opt(*h),
{
    match h {
        Some(s) => Some(s.clone()),
        None => None,
    }
}

/// `row` padded with empty cells or cut to exactly `n` cells.
fn fit_cells(row: Vec<String>, n: usize) -> (r: Vec<String>)
    ensures
        r.deep_view() == fit_row(row.deep_view(), n as nat),
{
    let ghost want = fit_row(row.deep_view(), n as nat);
    let mut out: Vec<String> = Vec::new();
    let mut k: usize = 0;
    while k < n
        invariant
            k <= n,
            want == fit_row(row.deep_view(), n as nat),
            out.deep_view() =~= want.take(k as int),
        decreases n - k,
    {
        let ghost before = out.deep_view();
        if k < row.len() {
            assert(row.deep_view()[k as int] == row@[k as int]@);
            out.push(row[k].clone());
        } else {
            out.push(String::new());
        }
        assert(out.deep_view() =~= before.push(want[k as int]));
        assert(want.take(k + 1) =~= want.take(k as int).push(want[k as int]));
        k = k + 1;
    }
    assert(want.take(n as int) =~= want);
    out
}

/// Splits a document into lines and extracts every pipe table in it, each
/// with the last heading seen above it.
pub fn parse_markdown(content: &str) -> (r: ParsedDocument)
    ensures
        r.lines.deep_view() == lines_of(content@),
        tables_view(r.tables@) == tables_of(content@),
{
    let lines = split_lines(content);
    let ghost ls = lines.deep_view();
    let len = lines.len();
    let mut tables: Vec<MarkdownTable> = Vec::new();
    let mut last_heading: Option<String> = None;
    let mut i: usize = 0;
    assert(tables_view(tables@) + scan(ls, 0, None) =~= scan(ls, 0, None));
    while i < len
        invariant
            i <= len,
            len == ls.len(),
            ls == lines.deep_view(),
            ls == lines_of(content@),
            tables_view(tables@) + scan(ls, i as int, text_opt(last_heading)) == tables_of(
                content@,
            ),
        decreases len - i,
    {
        assert(lines.deep_view()[i as int] == lines@[i as int]@);
        let line: &str = lines[i].as_str();
        let trimmed = trim_str(line);
        if trimmed.unicode_len() > 0 && trimmed.get_char(0) == '#' {
            last_heading = Some(heading_of(trimmed));
            i = i + 1;
        } else if i + 1 < len && is_table_line(line) && is_separator_line(lines[i + 1].as_str()) {
            assert(lines.deep_view()[i + 1] == lines@[i + 1]@);
            let headers = parse_row(line);
            let alignments = parse_alignments(lines[i + 1].as_str());
            let ghost n = headers.len() as nat;
            let mut rows: Vec<Vec<String>> = Vec::new();
            let mut j: usize = i + 2;
            assert(rows.deep_view() =~= Seq::new(
                0,
                |k: int| fit_row(row_cells(ls[i + 2 + k]), n),
            ));
            while j < len && is_table_line(lines[j].as_str()) && !is_separator_line(
                lines[j].as_str(),
            )
                invariant
                    i + 2 <= j <= len,
                    len == ls.len(),
                    ls == lines.deep_view(),
                    n == headers.len(),
                    scan(ls, i as int, text_opt(last_heading)) == scan_body(
                        ls,
                        i as int,
                        j as int,
                        text_opt(last_heading),
                    ),
                    rows.deep_view() =~= Seq::new(
                        (j - i - 2) as nat,
                        |k: int| fit_row(row_cells(ls[i + 2 + k]), n),
                    ),
                decreases len - j,
            {
                assert(lines.deep_view()[j as int] == lines@[j as int]@);
                let row = fit_cells(parse_row(lines[j].as_str()), headers.len());
                let ghost before = rows.deep_view();
                rows.push(row);
                assert(rows.deep_view() =~= before.push(row.deep_view()));
                j = j + 1;
            }
            proof {
                if j < len {
                    assert(lines.deep_view()[j as int] == lines@[j as int]@);
                }
            }
            let table = MarkdownTable {
                heading: copy_heading(&last_heading),
                headers,
                alignments,
                rows,
                start_line: i,
                end_line: j - 1,
            };
            let ghost before = tables@;
            tables.push(table);
            proof {
                assert(table@ == table_at(ls, i as int, (j - i - 2) as nat, text_opt(last_heading)));
                assert(tables_view(tables@) =~= tables_view(before).push(table@));
                assert(scan(ls, i as int, text_opt(last_heading)) == seq![table@] + scan(
                    ls,
                    j as int,
                    text_opt(last_heading),
                ));
                assert(tables_view(tables@) + scan(ls, j as int, text_opt(last_heading))
                    =~= tables_view(before) + scan(ls, i as int, text_opt(last_heading)));
            }
            i = j;
        } else {
            i = i + 1;
        }
    }
    assert(tables_view(tables@) =~= tables_view(tables@) + scan(ls, i as int, text_opt(last_heading)));
    ParsedDocument { lines, tables }
}

} // verus!
