//! Properties of parsing and rendering: tables come in order and apart,
//! rows are fitted to their header, a document without pipes has no table,
//! and rendered rows and tables read back as the cells they came from.
use vstd::prelude::*;

use crate::render::{
    align_at, body_text, cell_at, col_widths, dashes, rebuilt, render_table, row_text, rule_row_text,
    rule_text, spans_fit,
};
use crate::row::{raw_cells, row_cells, rule_cell, separator_line, strip_pipes};
use crate::table::{body_line, fit_row, table_at, heading_line, heading_text, scan, scan_body, table_starts, tables_of, TableView};
use crate::row::table_line;
use crate::text::{
    bare, is_space, join_lines, lemma_lines_chars, lemma_split_on_chars, lemma_split_on_concat, lemma_split_on_nonempty, lemma_split_on_pieces,
    lemma_split_on_single, lemma_trim_bare, lemma_trim_chars, lemma_trim_padded, lines_of, spaces,
    split_on, terminated_lines, trim, trim_end, trim_start,
};

verus! {

/// Each table lies inside lines `from..n`, spans a header and a separator
/// row, and ends before the next one starts.
pub open spec fn placed(s: Seq<TableView>, from: int, n: int) -> bool {
    &&& forall|k: int|
        0 <= k < s.len() ==> from <= #[trigger] s[k].start_line && s[k].start_line + 1
            <= s[k].end_line && s[k].end_line < n
    &&& forall|k: int| 0 <= k < s.len() - 1 ==> #[trigger] s[k].end_line < s[k + 1].start_line
}

/// Each table has one body row per line after its separator, and every body
/// row has exactly as many cells as the header.
pub open spec fn shaped(s: Seq<TableView>) -> bool {
    forall|k: int|
        0 <= k < s.len() ==> {
            &&& #[trigger] s[k].rows.len() == s[k].end_line - s[k].start_line - 1
            &&& forall|r: int| 0 <= r < s[k].rows.len() ==> #[trigger] s[k].rows[r].len()
                == s[k].headers.len()
        }
}

/// A table whose header and body cells were read from its own lines.
pub open spec fn drawn(t: TableView, lines: Seq<Seq<char>>) -> bool {
    &&& 0 <= t.start_line && t.start_line + 1 + t.rows.len() < lines.len()
    &&& table_starts(lines, t.start_line)
    &&& !heading_line(lines[t.start_line])
    &&& t.headers == row_cells(lines[t.start_line])
    &&& forall|r: int|
        0 <= r < t.rows.len() ==> #[trigger] t.rows[r] == fit_row(
            row_cells(lines[t.start_line + 2 + r]),
            t.headers.len(),
        )
}

pub(crate) proof fn lemma_scan_placed(lines: Seq<Seq<char>>, i: int, h: Option<Seq<char>>)
    requires
        0 <= i,
    ensures
        placed(scan(lines, i, h), i, lines.len() as int),
        shaped(scan(lines, i, h)),
        forall|k: int|
            0 <= k < scan(lines, i, h).len() ==> drawn(#[trigger] scan(lines, i, h)[k], lines),
    decreases lines.len() - i, 0nat,
{
    if i < lines.len() {
        if heading_line(lines[i]) {
            lemma_scan_placed(lines, i + 1, Some(heading_text(lines[i])));
        } else if table_starts(lines, i) {
            lemma_scan_body_placed(lines, i, i + 2, h);
        } else {
            lemma_scan_placed(lines, i + 1, h);
        }
    }
}

pub(crate) proof fn lemma_scan_body_placed(lines: Seq<Seq<char>>, i: int, j: int, h: Option<Seq<char>>)
    requires
        0 <= i,
        i + 2 <= j <= lines.len(),
        table_starts(lines, i),
        !heading_line(lines[i]),
    ensures
        placed(scan_body(lines, i, j, h), i, lines.len() as int),
        shaped(scan_body(lines, i, j, h)),
        forall|k: int|
            0 <= k < scan_body(lines, i, j, h).len() ==> drawn(
                #[trigger] scan_body(lines, i, j, h)[k],
                lines,
            ),
    decreases lines.len() - j, 1nat,
{
    if j < lines.len() && body_line(lines[j]) {
        lemma_scan_body_placed(lines, i, j + 1, h);
    } else {
        lemma_scan_placed(lines, j, h);
        let rest = scan(lines, j, h);
        let s = scan_body(lines, i, j, h);
        assert(s.drop_first() =~= rest);
        assert forall|k: int| 0 <= k < s.len() - 1 implies #[trigger] s[k].end_line < s[k
            + 1].start_line by {
            if k > 0 {
                assert(s[k] == rest[k - 1]);
                assert(s[k + 1] == rest[k]);
            } else if rest.len() > 0 {
                assert(s[1] == rest[0]);
            }
        }
        assert forall|k: int| 0 < k < s.len() implies i <= #[trigger] s[k].start_line
            && s[k].start_line + 1 <= s[k].end_line && s[k].end_line < lines.len() by {
            assert(s[k] == rest[k - 1]);
        }
        assert forall|k: int| 0 < k < s.len() implies #[trigger] s[k].rows.len() == s[k].end_line
            - s[k].start_line - 1 by {
            assert(s[k] == rest[k - 1]);
        }
        assert forall|k: int, r: int| 0 < k < s.len() && 0 <= r < s[k].rows.len() implies #[trigger] s[k].rows[r].len()
            == s[k].headers.len() by {
            assert(s[k] == rest[k - 1]);
        }
        assert forall|k: int| 0 <= k < s.len() implies drawn(#[trigger] s[k], lines) by {
            if k > 0 {
                assert(s[k] == rest[k - 1]);
            }
        }
    }
}

/// The tables of a document come in document order and never overlap: each
/// ends before the next begins. Each spans its header row, its separator row
/// and one line per body row, inside the document.
pub proof fn lemma_tables_in_order(content: Seq<char>)
    ensures
        forall|k: int|
            0 <= k < tables_of(content).len() - 1 ==> #[trigger] tables_of(content)[k].end_line
                < tables_of(content)[k + 1].start_line,
        forall|k: int|
            0 <= k < tables_of(content).len() ==> 0 <= #[trigger] tables_of(content)[k].start_line
                && tables_of(content)[k].start_line + 1 <= tables_of(content)[k].end_line
                && tables_of(content)[k].end_line < lines_of(content).len(),
        spans_fit(lines_of(content).len() as int, tables_of(content)),
{
    lemma_scan_placed(lines_of(content), 0, None);
}

/// Every body row of a parsed table has exactly as many cells as its header,
/// whatever the raw row held; and a table has one body row per line after
/// its separator.
pub proof fn lemma_rows_match_headers(content: Seq<char>)
    ensures
        forall|k: int, r: int|
            0 <= k < tables_of(content).len() && 0 <= r < tables_of(content)[k].rows.len()
                ==> #[trigger] tables_of(content)[k].rows[r].len()
                == tables_of(content)[k].headers.len(),
        forall|k: int|
            0 <= k < tables_of(content).len() ==> #[trigger] tables_of(content)[k].rows.len()
                == tables_of(content)[k].end_line - tables_of(content)[k].start_line - 1,
{
    lemma_scan_placed(lines_of(content), 0, None);
}

proof fn lemma_scan_plain(lines: Seq<Seq<char>>, i: int, h: Option<Seq<char>>)
    requires
        forall|k: int| 0 <= k < lines.len() ==> !table_line(#[trigger] lines[k]),
    ensures
        scan(lines, i, h).len() == 0,
    decreases lines.len() - i,
{
    if 0 <= i < lines.len() {
        if heading_line(lines[i]) {
            lemma_scan_plain(lines, i + 1, Some(heading_text(lines[i])));
        } else {
            lemma_scan_plain(lines, i + 1, h);
        }
    }
}

/// A document without a `|` holds no table, and rebuilding it gives back its
/// lines joined by newlines.
pub proof fn lemma_no_pipes_no_tables(content: Seq<char>)
    requires
        !content.contains('|'),
    ensures
        tables_of(content).len() == 0,
        rebuilt(lines_of(content), tables_of(content)) == join_lines(lines_of(content)),
{
    let lines = lines_of(content);
    lemma_lines_chars(content, '|');
    assert forall|k: int| 0 <= k < lines.len() implies !table_line(#[trigger] lines[k]) by {
        lemma_trim_chars(lines[k], '|');
    }
    lemma_scan_plain(lines, 0, None);
}

/// Cell `c` of a rendered row between its two `|`: the cell framed by
/// spaces and padded to the column's width.
pub open spec fn framed_cell(cells: Seq<Seq<char>>, ws: Seq<int>, c: int) -> Seq<char> {
    seq![' '] + cell_at(cells, c) + spaces(ws[c] - cell_at(cells, c).len()) + seq![' ']
}

/// The first `n` framed cells of a rendered row, joined by `|`.
pub open spec fn framed_cells(cells: Seq<Seq<char>>, ws: Seq<int>, n: int) -> Seq<char>
    decreases n,
{
    if n <= 1 {
        framed_cell(cells, ws, 0)
    } else {
        framed_cells(cells, ws, n - 1) + seq!['|'] + framed_cell(cells, ws, n - 1)
    }
}

proof fn lemma_row_text_frame(cells: Seq<Seq<char>>, ws: Seq<int>, n: int)
    requires
        1 <= n,
    ensures
        row_text(cells, ws, n) == seq!['|'] + framed_cells(cells, ws, n) + seq!['|'],
    decreases n,
{
    if n == 1 {
        assert(row_text(cells, ws, 0) == seq!['|']);
        assert(row_text(cells, ws, 1) =~= seq!['|'] + framed_cells(cells, ws, 1) + seq!['|']);
    } else {
        lemma_row_text_frame(cells, ws, n - 1);
        assert(row_text(cells, ws, n) =~= seq!['|'] + framed_cells(cells, ws, n) + seq!['|']);
    }
}

proof fn lemma_framed_cell_no_pipe(cells: Seq<Seq<char>>, ws: Seq<int>, c: int)
    requires
        !cell_at(cells, c).contains('|'),
    ensures
        !framed_cell(cells, ws, c).contains('|'),
{
    let x = cell_at(cells, c);
    let f = framed_cell(cells, ws, c);
    if f.contains('|') {
        let m = choose|m: int| 0 <= m < f.len() && f[m] == '|';
        if 1 <= m < 1 + x.len() {
            assert(x[m - 1] == '|');
        }
    }
}

proof fn lemma_split_framed(cells: Seq<Seq<char>>, ws: Seq<int>, n: int)
    requires
        1 <= n,
        forall|c: int| 0 <= c < cells.len() ==> !(#[trigger] cells[c]).contains('|'),
    ensures
        split_on(framed_cells(cells, ws, n), '|') == Seq::new(
            n as nat,
            |c: int| framed_cell(cells, ws, c),
        ),
    decreases n,
{
    lemma_framed_cell_no_pipe(cells, ws, n - 1);
    lemma_split_on_single(framed_cell(cells, ws, n - 1), '|');
    if n == 1 {
        assert(split_on(framed_cells(cells, ws, n), '|') =~= Seq::new(
            n as nat,
            |c: int| framed_cell(cells, ws, c),
        ));
    } else {
        lemma_split_framed(cells, ws, n - 1);
        lemma_split_on_concat(framed_cells(cells, ws, n - 1), framed_cell(cells, ws, n - 1), '|');
        assert(split_on(framed_cells(cells, ws, n), '|') =~= Seq::new(
            n as nat,
            |c: int| framed_cell(cells, ws, c),
        ));
    }
}

/// The cells of any line have no white space at their ends and hold no `|`.
pub proof fn lemma_row_cells_clean(line: Seq<char>)
    ensures
        forall|c: int|
            0 <= c < row_cells(line).len() ==> bare(#[trigger] row_cells(line)[c]) && !row_cells(
                line,
            )[c].contains('|'),
{
    lemma_split_on_pieces(strip_pipes(trim(line)), '|');
    assert forall|c: int| 0 <= c < row_cells(line).len() implies bare(
        #[trigger] row_cells(line)[c],
    ) && !row_cells(line)[c].contains('|') by {
        lemma_trim_bare(raw_cells(line)[c]);
        lemma_trim_chars(raw_cells(line)[c], '|');
    }
}

/// A rendered row reads back as the cells it was rendered from, as long as
/// none of them has white space at its ends or holds a `|` (true of every
/// cell that parsing gives). Columns beyond the row's own cells read back
/// empty.
pub proof fn lemma_rendered_row_reads_back(cells: Seq<Seq<char>>, ws: Seq<int>, n: int)
    requires
        1 <= n <= ws.len(),
        forall|c: int|
            0 <= c < cells.len() ==> bare(#[trigger] cells[c]) && !cells[c].contains('|'),
    ensures
        row_cells(row_text(cells, ws, n)) == Seq::new(n as nat, |c: int| cell_at(cells, c)),
{
    let t = row_text(cells, ws, n);
    let inner = framed_cells(cells, ws, n);
    lemma_row_text_frame(cells, ws, n);
    assert(t[0] == '|');
    assert(!is_space(t[0]));
    assert(trim_start(t) == t);
    assert(t.last() == '|');
    assert(trim_end(t) == t);
    assert(strip_pipes(t) =~= inner);
    lemma_split_framed(cells, ws, n);
    assert forall|c: int| 0 <= c < n implies trim(#[trigger] framed_cell(cells, ws, c))
        == cell_at(cells, c) by {
        lemma_trim_padded(cell_at(cells, c), ws[c] - cell_at(cells, c).len());
    }
    assert(row_cells(t) =~= Seq::new(n as nat, |c: int| cell_at(cells, c)));
}

/// The lines of a rendered table: header row, separator row, body rows.
pub open spec fn rendered_lines(t: TableView) -> Seq<Seq<char>> {
    let ws = col_widths(t);
    let n = t.headers.len() as int;
    seq![row_text(t.headers, ws, n), rule_row_text(t.alignments, ws, n)] + Seq::new(
        t.rows.len(),
        |r: int| row_text(t.rows[r], ws, n),
    )
}

pub(crate) proof fn lemma_terminated_concat(a: Seq<Seq<char>>, b: Seq<Seq<char>>)
    ensures
        terminated_lines(a + b) == terminated_lines(a) + terminated_lines(b),
    decreases b.len(),
{
    if b.len() == 0 {
        assert(a + b =~= a);
        assert(terminated_lines(a) + terminated_lines(b) =~= terminated_lines(a));
    } else {
        assert((a + b).drop_last() =~= a + b.drop_last());
        lemma_terminated_concat(a, b.drop_last());
        assert(terminated_lines(a + b) =~= terminated_lines(a) + terminated_lines(b));
    }
}

proof fn lemma_body_text_lines(rows: Seq<Seq<Seq<char>>>, ws: Seq<int>, n: int, k: int)
    requires
        0 <= k <= rows.len(),
    ensures
        body_text(rows, ws, n, k) == terminated_lines(
            Seq::new(k as nat, |r: int| row_text(rows[r], ws, n)),
        ),
    decreases k,
{
    let ls = Seq::new(k as nat, |r: int| row_text(rows[r], ws, n));
    if k == 0 {
        assert(ls =~= Seq::<Seq<char>>::empty());
    } else {
        lemma_body_text_lines(rows, ws, n, k - 1);
        assert(ls.drop_last() =~= Seq::new((k - 1) as nat, |r: int| row_text(rows[r], ws, n)));
    }
}

pub(crate) proof fn lemma_render_table_lines(t: TableView)
    ensures
        render_table(t) == terminated_lines(rendered_lines(t)),
{
    let ws = col_widths(t);
    let n = t.headers.len() as int;
    let head = seq![row_text(t.headers, ws, n), rule_row_text(t.alignments, ws, n)];
    let body = Seq::new(t.rows.len(), |r: int| row_text(t.rows[r], ws, n));
    lemma_body_text_lines(t.rows, ws, n, t.rows.len() as int);
    lemma_terminated_concat(head, body);
    assert(head.drop_last() =~= seq![row_text(t.headers, ws, n)]);
    assert(head.drop_last().drop_last() =~= Seq::<Seq<char>>::empty());
    assert(terminated_lines(head.drop_last().drop_last()) == Seq::<char>::empty());
    assert(terminated_lines(head.drop_last()) =~= row_text(t.headers, ws, n) + seq!['\n']);
    assert(terminated_lines(head) =~= row_text(t.headers, ws, n) + seq!['\n'] + rule_row_text(
        t.alignments,
        ws,
        n,
    ) + seq!['\n']);
    assert(render_table(t) =~= terminated_lines(head) + terminated_lines(body));
}

pub(crate) proof fn lemma_split_terminated(ls: Seq<Seq<char>>, x: Seq<char>)
    requires
        forall|k: int| 0 <= k < ls.len() ==> !(#[trigger] ls[k]).contains('\n'),
        !x.contains('\n'),
    ensures
        split_on(terminated_lines(ls) + x, '\n') == ls.push(x),
    decreases ls.len(),
{
    if ls.len() == 0 {
        assert(terminated_lines(ls) + x =~= x);
        lemma_split_on_single(x, '\n');
        assert(ls.push(x) =~= seq![x]);
    } else {
        let init = ls.drop_last();
        lemma_split_terminated(init, ls.last());
        assert(terminated_lines(ls) + x =~= (terminated_lines(init) + ls.last()) + seq!['\n'] + x);
        lemma_split_on_concat(terminated_lines(init) + ls.last(), x, '\n');
        lemma_split_on_single(x, '\n');
        assert(init.push(ls.last()) =~= ls);
        assert(ls.push(x) =~= ls + seq![x]);
    }
}

/// Lines free of newlines, none ending in a carriage return, each written
/// out with a newline, read back as the same lines.
pub proof fn lemma_lines_of_terminated(ls: Seq<Seq<char>>)
    requires
        forall|k: int| 0 <= k < ls.len() ==> !(#[trigger] ls[k]).contains('\n'),
        forall|k: int| 0 <= k < ls.len() ==> (#[trigger] ls[k]).len() == 0 || ls[k].last() != '\r',
    ensures
        lines_of(terminated_lines(ls)) == ls,
{
    let s = terminated_lines(ls);
    lemma_split_terminated(ls, Seq::empty());
    assert(s + Seq::<char>::empty() =~= s);
    if ls.len() > 0 {
        assert(s == terminated_lines(ls.drop_last()) + ls.last() + seq!['\n']);
        assert(s.last() == '\n');
    }
    assert(lines_of(s) =~= ls);
}

/// `t` is free of `c`: none of its characters is `c`.
pub open spec fn free_of(t: Seq<char>, c: char) -> bool {
    forall|m: int| 0 <= m < t.len() ==> t[m] != c
}

/// A cell that renders and reads back unchanged: no white space at its
/// ends, no `|` and no line break in it.
pub open spec fn clean_cell(c: Seq<char>) -> bool {
    bare(c) && free_of(c, '|') && free_of(c, '\n')
}

pub(crate) proof fn lemma_row_text_shape(cells: Seq<Seq<char>>, ws: Seq<int>, n: int)
    requires
        forall|c: int| 0 <= c < cells.len() ==> free_of(#[trigger] cells[c], '\n'),
    ensures
        free_of(row_text(cells, ws, n), '\n'),
        row_text(cells, ws, n).len() > 0,
        row_text(cells, ws, n).last() == '|',
    decreases n,
{
    if n > 0 {
        lemma_row_text_shape(cells, ws, n - 1);
        let x = cell_at(cells, n - 1);
        assert(free_of(x, '\n'));
    }
}

pub(crate) proof fn lemma_rule_row_shape(aligns: Seq<Seq<char>>, ws: Seq<int>, n: int)
    ensures
        free_of(rule_row_text(aligns, ws, n), '\n'),
        rule_row_text(aligns, ws, n).len() > 0,
        rule_row_text(aligns, ws, n).last() == '|',
        rule_row_text(aligns, ws, n)[0] == '|',
    decreases n,
{
    if n > 0 {
        lemma_rule_row_shape(aligns, ws, n - 1);
    }
}

pub(crate) proof fn lemma_free_not_contains(t: Seq<char>, c: char)
    requires
        free_of(t, c),
    ensures
        !t.contains(c),
{
}

/// Separator cell `c` of a rendered separator row, without its closing `|`.
pub open spec fn rule_piece(aligns: Seq<Seq<char>>, ws: Seq<int>, c: int) -> Seq<char> {
    rule_text(align_at(aligns, c), ws[c]).drop_last()
}

/// The first `n` separator cells, joined by `|`.
pub open spec fn rule_pieces(aligns: Seq<Seq<char>>, ws: Seq<int>, n: int) -> Seq<char>
    decreases n,
{
    if n <= 1 {
        rule_piece(aligns, ws, 0)
    } else {
        rule_pieces(aligns, ws, n - 1) + seq!['|'] + rule_piece(aligns, ws, n - 1)
    }
}

proof fn lemma_rule_text_parts(a: Seq<char>, w: int)
    ensures
        rule_text(a, w).len() >= 3,
        rule_text(a, w).last() == '|',
        rule_text(a, w)[0] == ' ' || rule_text(a, w)[0] == ':',
        forall|m: int|
            1 <= m < rule_text(a, w).len() - 1 ==> (#[trigger] rule_text(a, w)[m] == '-'
                || rule_text(a, w)[m] == ':'),
{
}

proof fn lemma_rule_row_frame(aligns: Seq<Seq<char>>, ws: Seq<int>, n: int)
    requires
        1 <= n,
    ensures
        rule_row_text(aligns, ws, n) == seq!['|'] + rule_pieces(aligns, ws, n) + seq!['|'],
    decreases n,
{
    lemma_rule_text_parts(align_at(aligns, n - 1), ws[n - 1]);
    let r = rule_text(align_at(aligns, n - 1), ws[n - 1]);
    assert(r =~= rule_piece(aligns, ws, n - 1) + seq!['|']);
    assert(rule_row_text(aligns, ws, n) == rule_row_text(aligns, ws, n - 1) + r);
    if n > 1 {
        lemma_rule_row_frame(aligns, ws, n - 1);
        assert(rule_pieces(aligns, ws, n) == rule_pieces(aligns, ws, n - 1) + seq!['|']
            + rule_piece(aligns, ws, n - 1));
    } else {
        assert(rule_row_text(aligns, ws, 0) == seq!['|']);
        assert(rule_pieces(aligns, ws, 1) == rule_piece(aligns, ws, 0));
    }
    assert(rule_row_text(aligns, ws, n) =~= seq!['|'] + rule_pieces(aligns, ws, n) + seq!['|']);
}

proof fn lemma_split_rule_pieces(aligns: Seq<Seq<char>>, ws: Seq<int>, n: int)
    requires
        1 <= n,
    ensures
        split_on(rule_pieces(aligns, ws, n), '|') == Seq::new(
            n as nat,
            |c: int| rule_piece(aligns, ws, c),
        ),
    decreases n,
{
    let p = rule_piece(aligns, ws, n - 1);
    lemma_rule_text_parts(align_at(aligns, n - 1), ws[n - 1]);
    assert(free_of(p, '|'));
    lemma_free_not_contains(p, '|');
    lemma_split_on_single(p, '|');
    if n > 1 {
        lemma_split_rule_pieces(aligns, ws, n - 1);
        lemma_split_on_concat(rule_pieces(aligns, ws, n - 1), p, '|');
    }
    assert(split_on(rule_pieces(aligns, ws, n), '|') =~= Seq::new(
        n as nat,
        |c: int| rule_piece(aligns, ws, c),
    ));
}

proof fn lemma_rule_piece_trims_to_rule(aligns: Seq<Seq<char>>, ws: Seq<int>, c: int)
    ensures
        rule_cell(trim(rule_piece(aligns, ws, c))),
{
    let p = rule_piece(aligns, ws, c);
    lemma_rule_text_parts(align_at(aligns, c), ws[c]);
    assert(p.len() >= 2);
    let q = p.drop_first();
    assert(!is_space(q[0]));
    assert(!is_space(p.last()));
    assert(trim_start(q) == q);
    if p[0] == ' ' {
        assert(trim_start(p) == trim_start(q));
        assert(q.last() == p.last());
        assert(trim_end(q) == q);
        assert(rule_cell(q));
    } else {
        assert(trim_start(p) == p);
        assert(trim_end(p) == p);
    }
}

/// A rendered separator row is read as a separator row.
pub proof fn lemma_rule_row_is_separator(aligns: Seq<Seq<char>>, ws: Seq<int>, n: int)
    requires
        1 <= n <= ws.len(),
    ensures
        separator_line(rule_row_text(aligns, ws, n)),
{
    let t = rule_row_text(aligns, ws, n);
    lemma_rule_row_frame(aligns, ws, n);
    assert(t[0] == '|');
    assert(trim_start(t) == t);
    assert(trim_end(t) == t);
    assert(strip_pipes(t) =~= rule_pieces(aligns, ws, n));
    lemma_split_rule_pieces(aligns, ws, n);
    assert(t.contains('|')) by {
        assert(t[0] == '|');
    }
    assert forall|k: int| 0 <= k < row_cells(t).len() implies rule_cell(
        #[trigger] row_cells(t)[k],
    ) by {
        lemma_rule_piece_trims_to_rule(aligns, ws, k);
    }
}

proof fn lemma_scan_body_to_end(lines: Seq<Seq<char>>, i: int, j: int, h: Option<Seq<char>>)
    requires
        0 <= i,
        i + 2 <= j <= lines.len(),
        forall|k: int| j <= k < lines.len() ==> body_line(#[trigger] lines[k]),
    ensures
        scan_body(lines, i, j, h) == seq![table_at(lines, i, (lines.len() - i - 2) as nat, h)],
    decreases lines.len() - j,
{
    if j < lines.len() {
        assert(body_line(lines[j]));
        lemma_scan_body_to_end(lines, i, j + 1, h);
    } else {
        assert(scan(lines, j, h) =~= Seq::<TableView>::empty());
        assert(scan_body(lines, i, j, h) =~= seq![
            table_at(lines, i, (lines.len() - i - 2) as nat, h),
        ]);
    }
}

/// A row whose cells are all made of `-` and `:`: rendered, it would read
/// as a separator row.
pub open spec fn rule_like(cells: Seq<Seq<char>>) -> bool {
    forall|c: int| 0 <= c < cells.len() ==> rule_cell(#[trigger] cells[c])
}

pub(crate) proof fn lemma_rendered_row_line(cells: Seq<Seq<char>>, ws: Seq<int>, n: int)
    requires
        1 <= n <= ws.len(),
        cells.len() == n,
        forall|c: int| 0 <= c < cells.len() ==> clean_cell(#[trigger] cells[c]),
    ensures
        row_cells(row_text(cells, ws, n)) == cells,
        trim(row_text(cells, ws, n))[0] == '|',
        crate::row::table_line(row_text(cells, ws, n)),
        separator_line(row_text(cells, ws, n)) == rule_like(cells),
{
    let t = row_text(cells, ws, n);
    assert forall|c: int| 0 <= c < cells.len() implies bare(#[trigger] cells[c])
        && !cells[c].contains('|') by {
        lemma_free_not_contains(cells[c], '|');
    }
    lemma_rendered_row_reads_back(cells, ws, n);
    assert(Seq::new(n as nat, |c: int| cell_at(cells, c)) =~= cells);
    lemma_row_text_frame(cells, ws, n);
    assert(t[0] == '|');
    assert(trim_start(t) == t);
    assert(trim_end(t) == t);
    assert(t.contains('|'));
    if rule_like(cells) {
        assert(separator_line(t));
    } else {
        let c = choose|c: int| 0 <= c < cells.len() && !rule_cell(cells[c]);
        assert(!rule_cell(row_cells(t)[c]));
    }
}

/// A rendered table reads back as one table with the same header and body
/// cells, provided each cell has no white space at its ends and no `|` or
/// line break in it, each body row has one cell per column, and no body row
/// is made of `-` and `:` cells alone (such a row would read as a second
/// separator row and end the table).
pub proof fn lemma_rendered_table_reads_back(t: TableView)
    requires
        t.headers.len() >= 1,
        forall|c: int| 0 <= c < t.headers.len() ==> clean_cell(#[trigger] t.headers[c]),
        forall|r: int|
            0 <= r < t.rows.len() ==> (#[trigger] t.rows[r]).len() == t.headers.len() && !rule_like(
                t.rows[r],
            ),
        forall|r: int, c: int|
            0 <= r < t.rows.len() && 0 <= c < t.rows[r].len() ==> clean_cell(
                #[trigger] t.rows[r][c],
            ),
    ensures
        tables_of(render_table(t)).len() == 1,
        tables_of(render_table(t))[0].headers == t.headers,
        tables_of(render_table(t))[0].rows == t.rows,
{
    let ws = col_widths(t);
    let n = t.headers.len() as int;
    let ls = rendered_lines(t);
    lemma_render_table_lines(t);
    assert forall|c: int| 0 <= c < t.headers.len() implies free_of(
        #[trigger] t.headers[c],
        '\n',
    ) by {
        assert(clean_cell(t.headers[c]));
    }
    lemma_row_text_shape(t.headers, ws, n);
    lemma_rule_row_shape(t.alignments, ws, n);
    assert forall|k: int| 0 <= k < ls.len() implies !(#[trigger] ls[k]).contains('\n') && (
    ls[k].len() == 0 || ls[k].last() != '\r') by {
        if k >= 2 {
            let row = t.rows[k - 2];
            assert forall|c: int| 0 <= c < row.len() implies free_of(#[trigger] row[c], '\n') by {
                assert(clean_cell(t.rows[k - 2][c]));
            }
            lemma_row_text_shape(row, ws, n);
        }
        lemma_free_not_contains(ls[k], '\n');
    }
    lemma_lines_of_terminated(ls);
    assert(lines_of(render_table(t)) == ls);
    lemma_rendered_row_line(t.headers, ws, n);
    lemma_rule_row_is_separator(t.alignments, ws, n);
    assert(!heading_line(ls[0]));
    assert(table_starts(ls, 0));
    assert forall|k: int| 2 <= k < ls.len() implies body_line(#[trigger] ls[k]) by {
        let row = t.rows[k - 2];
        assert forall|c: int| 0 <= c < row.len() implies clean_cell(#[trigger] row[c]) by {
            assert(clean_cell(t.rows[k - 2][c]));
        }
        lemma_rendered_row_line(row, ws, n);
    }
    lemma_scan_body_to_end(ls, 0, 2, None);
    let got = table_at(ls, 0, (ls.len() - 2) as nat, None);
    assert(tables_of(render_table(t)) == seq![got]);
    assert forall|r: int| 0 <= r < t.rows.len() implies #[trigger] got.rows[r] == t.rows[r] by {
        let row = t.rows[r];
        assert forall|c: int| 0 <= c < row.len() implies clean_cell(#[trigger] row[c]) by {
            assert(clean_cell(t.rows[r][c]));
        }
        lemma_rendered_row_line(row, ws, n);
        assert(ls[2 + r] == row_text(row, ws, n));
        assert(got.rows[r] =~= t.rows[r]);
    }
    assert(got.rows =~= t.rows);
}

pub(crate) proof fn lemma_lines_free(s: Seq<char>)
    ensures
        forall|k: int| 0 <= k < lines_of(s).len() ==> free_of(#[trigger] lines_of(s)[k], '\n'),
{
    lemma_split_on_pieces(s, '\n');
    lemma_split_on_nonempty(s, '\n');
    let p = split_on(s, '\n');
    assert forall|k: int| 0 <= k < lines_of(s).len() implies free_of(
        #[trigger] lines_of(s)[k],
        '\n',
    ) by {
        assert(!p[k].contains('\n'));
        let l = lines_of(s)[k];
        assert forall|m: int| 0 <= m < l.len() implies l[m] != '\n' by {
            assert(l[m] == p[k][m]);
        }
    }
}

proof fn lemma_cells_free(line: Seq<char>, x: char)
    requires
        free_of(line, x),
    ensures
        forall|c: int| 0 <= c < row_cells(line).len() ==> free_of(#[trigger] row_cells(line)[c], x),
{
    let t = trim(line);
    let st = strip_pipes(t);
    assert(!t.contains(x)) by {
        lemma_trim_chars(line, x);
    }
    assert(!st.contains(x)) by {
        if st.contains(x) {
            let m = choose|m: int| 0 <= m < st.len() && st[m] == x;
            if t.len() > 0 && t[0] == '|' {
                assert(t[m + 1] == x);
            } else {
                assert(t[m] == x);
            }
        }
    }
    lemma_split_on_chars(st, '|', x);
    assert forall|c: int| 0 <= c < row_cells(line).len() implies free_of(
        #[trigger] row_cells(line)[c],
        x,
    ) by {
        lemma_trim_chars(raw_cells(line)[c], x);
        let cell = row_cells(line)[c];
        if !free_of(cell, x) {
            let m = choose|m: int| 0 <= m < cell.len() && cell[m] == x;
            assert(cell.contains(x));
        }
    }
}

pub(crate) proof fn lemma_clean_cells(line: Seq<char>)
    requires
        free_of(line, '\n'),
    ensures
        forall|c: int| 0 <= c < row_cells(line).len() ==> clean_cell(#[trigger] row_cells(line)[c]),
{
    lemma_cells_free(line, '\n');
    lemma_row_cells_clean(line);
    assert forall|c: int| 0 <= c < row_cells(line).len() implies clean_cell(
        #[trigger] row_cells(line)[c],
    ) by {
        let cell = row_cells(line)[c];
        assert(!cell.contains('|'));
        assert forall|m: int| 0 <= m < cell.len() implies cell[m] != '|' by {
            if cell[m] == '|' {
                assert(cell.contains('|'));
            }
        }
    }
}

/// Each table that parsing finds in a document, rendered on its own, reads
/// back as one table with the same header and body cells, unless one of its
/// body rows is made of `-` and `:` cells alone.
pub proof fn lemma_parsed_table_round_trip(content: Seq<char>, k: int)
    requires
        0 <= k < tables_of(content).len(),
        forall|r: int|
            0 <= r < tables_of(content)[k].rows.len() ==> !rule_like(
                #[trigger] tables_of(content)[k].rows[r],
            ),
    ensures
        tables_of(render_table(tables_of(content)[k])).len() == 1,
        tables_of(render_table(tables_of(content)[k]))[0].headers == tables_of(content)[k].headers,
        tables_of(render_table(tables_of(content)[k]))[0].rows == tables_of(content)[k].rows,
{
    let lines = lines_of(content);
    let t = tables_of(content)[k];
    lemma_scan_placed(lines, 0, None);
    lemma_lines_free(content);
    assert(drawn(t, lines));
    let n = t.headers.len();
    lemma_clean_cells(lines[t.start_line]);
    lemma_split_on_nonempty(strip_pipes(trim(lines[t.start_line])), '|');
    assert(n >= 1);
    assert forall|r: int, c: int| 0 <= r < t.rows.len() && 0 <= c < t.rows[r].len() implies clean_cell(
        #[trigger] t.rows[r][c],
    ) by {
        let line = lines[t.start_line + 2 + r];
        lemma_clean_cells(line);
        assert(t.rows[r] == fit_row(row_cells(line), n));
        if c >= row_cells(line).len() {
            assert(t.rows[r][c] == Seq::<char>::empty());
        }
    }
    lemma_rendered_table_reads_back(t);
}

} // verus!
