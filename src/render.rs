//! Rendering a table as aligned pipe-table text, and rebuilding a document
//! with its tables rendered afresh in their original line spans.
use vstd::prelude::*;

use crate::table::{tables_view, MarkdownTable, TableView};
use crate::text::{join_lines, spaces, terminated_lines};

verus! {

/// `n` dashes (none where `n` is not positive).
pub open spec fn dashes(n: int) -> Seq<char> {
    Seq::new(
        if n > 0 {
            n as nat
        } else {
            0
        },
        |_k: int| '-',
    )
}

/// Width of column `c` over the header and the first `r` rows, at least 3.
pub open spec fn width_upto(t: TableView, c: int, r: int) -> int
    decreases r,
{
    if r <= 0 {
        if t.headers[c].len() > 3 {
            t.headers[c].len() as int
        } else {
            3
        }
    } else {
        let w = width_upto(t, c, r - 1);
        let row = t.rows[r - 1];
        if c < row.len() && row[c].len() > w {
            row[c].len() as int
        } else {
            w
        }
    }
}

/// Display width of each column: the longest of 3, its header and its cells.
pub open spec fn col_widths(t: TableView) -> Seq<int> {
    Seq::new(t.headers.len(), |c: int| width_upto(t, c, t.rows.len() as int))
}

/// Cell `c` of a row, or the empty cell where the row is shorter.
pub open spec fn cell_at(cells: Seq<Seq<char>>, c: int) -> Seq<char> {
    if 0 <= c < cells.len() {
        cells[c]
    } else {
        Seq::empty()
    }
}

/// A cell left-justified in a column of width `w`, then its closing `|`.
pub open spec fn cell_text(s: Seq<char>, w: int) -> Seq<char> {
    seq![' '] + s + spaces(w - s.len()) + seq![' ', '|']
}

/// The first `n` columns of a row, opened by `|`.
pub open spec fn row_text(cells: Seq<Seq<char>>, ws: Seq<int>, n: int) -> Seq<char>
    decreases n,
{
    if n <= 0 {
        seq!['|']
    } else {
        row_text(cells, ws, n - 1) + cell_text(cell_at(cells, n - 1), ws[n - 1])
    }
}

/// Alignment of column `c`, `none` where none is declared.
pub open spec fn align_at(aligns: Seq<Seq<char>>, c: int) -> Seq<char> {
    if 0 <= c < aligns.len() {
        aligns[c]
    } else {
        "none"@
    }
}

/// The separator cell for an alignment and a width, with its closing `|`.
pub open spec fn rule_text(a: Seq<char>, w: int) -> Seq<char> {
    if a == "left"@ {
        seq![':'] + dashes(w) + seq!['-', '|']
    } else if a == "right"@ {
        seq![' '] + dashes(w) + seq![':', '|']
    } else if a == "center"@ {
        seq![':'] + dashes(w) + seq![':', '|']
    } else {
        seq![' '] + dashes(w) + seq!['-', '|']
    }
}

/// The first `n` columns of the separator row, opened by `|`.
pub open spec fn rule_row_text(aligns: Seq<Seq<char>>, ws: Seq<int>, n: int) -> Seq<char>
    decreases n,
{
    if n <= 0 {
        seq!['|']
    } else {
        rule_row_text(aligns, ws, n - 1) + rule_text(align_at(aligns, n - 1), ws[n - 1])
    }
}

/// The first `k` body rows, each on a line of its own.
pub open spec fn body_text(rows: Seq<Seq<Seq<char>>>, ws: Seq<int>, n: int, k: int) -> Seq<char>
    decreases k,
{
    if k <= 0 {
        Seq::empty()
    } else {
        body_text(rows, ws, n, k - 1) + row_text(rows[k - 1], ws, n) + seq!['\n']
    }
}

/// A table as aligned pipe-table text, every row ended by a newline.
pub open spec fn render_table(t: TableView) -> Seq<char> {
    let ws = col_widths(t);
    let n = t.headers.len() as int;
    row_text(t.headers, ws, n) + seq!['\n'] + rule_row_text(t.alignments, ws, n) + seq!['\n']
        + body_text(t.rows, ws, n, t.rows.len() as int)
}

fn append_repeat(out: &mut String, piece: &str, k: usize)
    requires
        piece@.len() == 1,
    ensures
        final(out)@ == old(out)@ + Seq::new(k as nat, |_i: int| piece@[0]),
{
    let mut i: usize = 0;
    while i < k
        invariant
            i <= k,
            piece@.len() == 1,
            out@ =~= old(out)@ + Seq::new(i as nat, |_i: int| piece@[0]),
        decreases k - i,
    {
        out.append(piece);
        i = i + 1;
    }
}

fn append_cell(out: &mut String, s: &str, w: usize)
    ensures
        final(out)@ == old(out)@ + cell_text(s@, w as int),
{
    proof {
        reveal_strlit(" ");
        reveal_strlit(" |");
    }
    out.append(" ");
    out.append(s);
    let n = s.unicode_len();
    let pad: usize = if w > n {
        w - n
    } else {
        0
    };
    append_repeat(out, " ", pad);
    out.append(" |");
    assert(out@ =~= old(out)@ + cell_text(s@, w as int));
}

fn append_rule(out: &mut String, a: &String, w: usize)
    ensures
        final(out)@ == old(out)@ + rule_text(a@, w as int),
{
    proof {
        reveal_strlit(" ");
        reveal_strlit(":");
        reveal_strlit("-");
        reveal_strlit("-|");
        reveal_strlit(":|");
    }
    let left = "left".to_owned();
    let right = "right".to_owned();
    let center = "center".to_owned();
    if a.eq(&left) {
        out.append(":");
        append_repeat(out, "-", w);
        out.append("-|");
    } else if a.eq(&right) {
        out.append(" ");
        append_repeat(out, "-", w);
        out.append(":|");
    } else if a.eq(&center) {
        out.append(":");
        append_repeat(out, "-", w);
        out.append(":|");
    } else {
        out.append(" ");
        append_repeat(out, "-", w);
        out.append("-|");
    }
    assert(out@ =~= old(out)@ + rule_text(a@, w as int));
}

fn append_row(out: &mut String, cells: &Vec<String>, ws: &Vec<usize>)
    ensures
        final(out)@ == old(out)@ + row_text(
            cells.deep_view(),
            ws@.map_values(|w: usize| w as int),
            ws.len() as int,
        ) + seq!['\n'],
{
    let ghost wsi = ws@.map_values(|w: usize| w as int);
    proof {
        reveal_strlit("|");
        reveal_strlit("\n");
    }
    out.append("|");
    let mut c: usize = 0;
    while c < ws.len()
        invariant
            c <= ws.len(),
            wsi == ws@.map_values(|w: usize| w as int),
            out@ == old(out)@ + row_text(cells.deep_view(), wsi, c as int),
        decreases ws.len() - c,
    {
        if c < cells.len() {
            assert(cells.deep_view()[c as int] == cells@[c as int]@);
            append_cell(out, cells[c].as_str(), ws[c]);
        } else {
            append_cell(out, "", ws[c]);
            proof {
                reveal_strlit("");
            }
        }
        assert(out@ =~= old(out)@ + row_text(cells.deep_view(), wsi, c + 1));
        c = c + 1;
    }
    out.append("\n");
}

/// Widths of the columns, as `col_widths` gives them.
fn column_widths(table: &MarkdownTable) -> (r: Vec<usize>)
    ensures
        r@.map_values(|w: usize| w as int) == col_widths(table@),
{
    let ghost t = table@;
    let n = table.headers.len();
    let mut ws: Vec<usize> = Vec::new();
    let mut c: usize = 0;
    while c < n
        invariant
            c <= n,
            n == t.headers.len(),
            t == table@,
            ws.len() == c,
            forall|k: int| 0 <= k < c ==> ws@[k] as int == width_upto(t, k, 0),
        decreases n - c,
    {
        assert(t.headers[c as int] == table.headers@[c as int]@);
        let len = table.headers[c].as_str().unicode_len();
        ws.push(if len > 3 { len } else { 3 });
        c = c + 1;
    }
    let mut r: usize = 0;
    while r < table.rows.len()
        invariant
            r <= table.rows.len(),
            n == t.headers.len(),
            t == table@,
            ws.len() == n,
            forall|k: int| 0 <= k < n ==> ws@[k] as int == width_upto(t, k, r as int),
        decreases table.rows.len() - r,
    {
        let row = &table.rows[r];
        assert(t.rows[r as int] == row.deep_view());
        let mut c: usize = 0;
        while c < n
            invariant
                c <= n,
                n == t.headers.len(),
                t == table@,
                r < table.rows.len(),
                row == &table.rows@[r as int],
                t.rows[r as int] == row.deep_view(),
                ws.len() == n,
                forall|k: int| 0 <= k < c ==> ws@[k] as int == width_upto(t, k, r + 1),
                forall|k: int| c <= k < n ==> ws@[k] as int == width_upto(t, k, r as int),
            decreases n - c,
        {
            if c < row.len() {
                assert(row.deep_view()[c as int] == row@[c as int]@);
                let len = row[c].as_str().unicode_len();
                if len > ws[c] {
                    ws.set(c, len);
                }
            }
            c = c + 1;
        }
        r = r + 1;
    }
    assert(ws@.map_values(|w: usize| w as int) =~= col_widths(t));
    ws
}

/// Renders a table as aligned pipe-table text: header row, separator row and
/// body rows, each cell padded to its column's width and each row ended by a
/// newline.
pub fn serialize_table(table: &MarkdownTable) -> (r: String)
    ensures
        r@ == render_table(table@),
{
    let ghost t = table@;
    let ws = column_widths(table);
    let ghost wsi = ws@.map_values(|w: usize| w as int);
    let n = ws.len();
    let mut out = String::new();
    append_row(&mut out, &table.headers, &ws);
    proof {
        reveal_strlit("|");
        reveal_strlit("\n");
    }
    out.append("|");
    let mut c: usize = 0;
    while c < n
        invariant
            c <= n,
            n == ws.len(),
            t == table@,
            wsi == ws@.map_values(|w: usize| w as int),
            out@ == row_text(t.headers, wsi, n as int) + seq!['\n'] + rule_row_text(
                t.alignments,
                wsi,
                c as int,
            ),
        decreases n - c,
    {
        let ghost before = out@;
        if c < table.alignments.len() {
            assert(t.alignments[c as int] == table.alignments@[c as int]@);
            append_rule(&mut out, &table.alignments[c], ws[c]);
        } else {
            let none = "none".to_owned();
            append_rule(&mut out, &none, ws[c]);
        }
        assert(out@ =~= row_text(t.headers, wsi, n as int) + seq!['\n'] + rule_row_text(
            t.alignments,
            wsi,
            c + 1,
        ));
        c = c + 1;
    }
    out.append("\n");
    let ghost head = out@;
    let mut r: usize = 0;
    assert(head =~= head + body_text(t.rows, wsi, n as int, 0));
    while r < table.rows.len()
        invariant
            r <= table.rows.len(),
            n == ws.len(),
            t == table@,
            wsi == ws@.map_values(|w: usize| w as int),
            out@ == head + body_text(t.rows, wsi, n as int, r as int),
        decreases table.rows.len() - r,
    {
        assert(t.rows[r as int] == table.rows@[r as int].deep_view());
        append_row(&mut out, &table.rows[r], &ws);
        assert(out@ =~= head + body_text(t.rows, wsi, n as int, r + 1));
        r = r + 1;
    }
    assert(wsi == col_widths(t));
    assert(wsi.len() == n);
    assert(col_widths(t).len() == t.headers.len());
    out
}

/// Table spans that lie inside a document of `n` lines, in order and apart.
pub open spec fn spans_fit(n: int, ts: Seq<TableView>) -> bool {
    &&& forall|k: int|
        0 <= k < ts.len() ==> 0 <= #[trigger] ts[k].start_line <= ts[k].end_line < n
    &&& forall|k: int| 0 < k < ts.len() ==> ts[k - 1].end_line < #[trigger] ts[k].start_line
}

/// The first line after the table before `ts[k]`, or 0 for the first table.
pub open spec fn cursor_before(ts: Seq<TableView>, k: int) -> int {
    if k <= 0 {
        0
    } else {
        ts[k - 1].end_line + 1
    }
}

/// The document up to the end of table `k - 1`: the lines before each table
/// kept as they are, each table rendered afresh.
pub open spec fn assemble(lines: Seq<Seq<char>>, ts: Seq<TableView>, k: int) -> Seq<char>
    decreases k,
{
    if k <= 0 {
        Seq::empty()
    } else {
        assemble(lines, ts, k - 1) + terminated_lines(
            lines.subrange(cursor_before(ts, k - 1), ts[k - 1].start_line),
        ) + render_table(ts[k - 1])
    }
}

/// The document with every table replaced by its rendering.
pub open spec fn rebuilt(lines: Seq<Seq<char>>, ts: Seq<TableView>) -> Seq<char> {
    if ts.len() == 0 {
        join_lines(lines)
    } else {
        let full = assemble(lines, ts, ts.len() as int) + terminated_lines(
            lines.subrange(cursor_before(ts, ts.len() as int), lines.len() as int),
        );
        if full.len() > 0 && full.last() == '\n' && !(lines.len() > 0 && lines.last().len()
            == 0) {
            full.drop_last()
        } else {
            full
        }
    }
}

/// Whether the tables' spans lie inside `n` lines, in order and apart, as
/// `rebuild_document` needs them.
pub fn spans_in_order(n: usize, tables: &[MarkdownTable]) -> (r: bool)
    ensures
        r == spans_fit(n as int, tables_view(tables@)),
{
    let ghost ts = tables_view(tables@);
    let mut k: usize = 0;
    while k < tables.len()
        invariant
            k <= tables@.len(),
            ts == tables_view(tables@),
            forall|m: int|
                0 <= m < k ==> 0 <= #[trigger] ts[m].start_line <= ts[m].end_line < n,
            forall|m: int| 0 < m < k ==> ts[m - 1].end_line < #[trigger] ts[m].start_line,
        decreases tables.len() - k,
    {
        assert(ts[k as int] == tables@[k as int]@);
        let t = &tables[k];
        if !(t.start_line <= t.end_line && t.end_line < n) {
            assert(!(0 <= ts[k as int].start_line <= ts[k as int].end_line < n));
            return false;
        }
        if k > 0 {
            assert(ts[k - 1] == tables@[k - 1]@);
            if !(tables[k - 1].end_line < t.start_line) {
                assert(!(ts[k - 1].end_line < ts[k as int].start_line));
                return false;
            }
        }
        k = k + 1;
    }
    assert(ts.len() == tables@.len());
    true
}

fn append_lines(out: &mut String, lines: &[String], from: usize, to: usize)
    requires
        from <= to <= lines@.len(),
    ensures
        final(out)@ == old(out)@ + terminated_lines(
            lines.deep_view().subrange(from as int, to as int),
        ),
{
    proof {
        reveal_strlit("\n");
    }
    let ghost ls = lines.deep_view();
    let mut i: usize = from;
    assert(ls.subrange(from as int, from as int) =~= Seq::<Seq<char>>::empty());
    assert(out@ =~= old(out)@ + terminated_lines(ls.subrange(from as int, from as int)));
    while i < to
        invariant
            from <= i <= to <= lines@.len(),
            ls == lines.deep_view(),
            out@ == old(out)@ + terminated_lines(ls.subrange(from as int, i as int)),
        decreases to - i,
    {
        assert(ls[i as int] == lines@[i as int]@);
        let ghost before = out@;
        out.append(lines[i].as_str());
        out.append("\n");
        proof {
            reveal_strlit("\n");
        }
        assert("\n"@ =~= seq!['\n']);
        assert(out@ =~= before + ls[i as int] + seq!['\n']);
        assert(ls.subrange(from as int, i + 1).drop_last() =~= ls.subrange(from as int, i as int));
        assert(ls.subrange(from as int, i + 1).last() == ls[i as int]);
        assert(out@ =~= old(out)@ + terminated_lines(ls.subrange(from as int, i + 1)));
        i = i + 1;
    }
}

fn join_all(lines: &[String]) -> (r: String)
    ensures
        r@ == join_lines(lines.deep_view()),
{
    proof {
        reveal_strlit("\n");
    }
    let ghost ls = lines.deep_view();
    let mut out = String::new();
    let mut i: usize = 0;
    assert(ls.take(0) =~= Seq::<Seq<char>>::empty());
    while i < lines.len()
        invariant
            i <= lines@.len(),
            ls == lines.deep_view(),
            out@ == join_lines(ls.take(i as int)),
        decreases lines.len() - i,
    {
        assert(ls[i as int] == lines@[i as int]@);
        let ghost before = out@;
        if i > 0 {
            out.append("\n");
            out.append(lines[i].as_str());
            proof {
            reveal_strlit("\n");
        }
        assert("\n"@ =~= seq!['\n']);
            assert(out@ =~= before + seq!['\n'] + ls[i as int]);
        } else {
            out.append(lines[i].as_str());
            assert(before =~= Seq::<char>::empty());
            assert(out@ =~= ls[0]);
        }
        assert(ls.take(i + 1).drop_last() =~= ls.take(i as int));
        assert(ls.take(i + 1).last() == ls[i as int]);
        assert(ls.take(i + 1).len() == i + 1);
        assert(out@ =~= join_lines(ls.take(i + 1)));
        i = i + 1;
    }
    assert(ls.take(lines@.len() as int) =~= ls);
    out
}

/// Rebuilds a document: the lines outside the tables are kept verbatim and
/// each table's span is replaced by the table rendered afresh. A document
/// with no tables is its lines joined by newlines.
pub fn rebuild_document(original_lines: &[String], tables: &[MarkdownTable]) -> (r: String)
    requires
        spans_fit(original_lines@.len() as int, tables_view(tables@)),
    ensures
        r@ == rebuilt(original_lines.deep_view(), tables_view(tables@)),
{
    let ghost ls = original_lines.deep_view();
    let ghost ts = tables_view(tables@);
    if tables.len() == 0 {
        return join_all(original_lines);
    }
    let total = original_lines.len();
    let mut result = String::new();
    let mut cursor: usize = 0;
    let mut k: usize = 0;
    while k < tables.len()
        invariant
            k <= tables@.len(),
            ls == original_lines.deep_view(),
            ts == tables_view(tables@),
            spans_fit(original_lines@.len() as int, ts),
            total == original_lines@.len(),
            cursor == cursor_before(ts, k as int),
            result@ == assemble(ls, ts, k as int),
        decreases tables.len() - k,
    {
        let table = &tables[k];
        assert(ts[k as int] == table@);
        assert(ts[k as int].start_line <= ts[k as int].end_line < original_lines@.len());
        if k > 0 {
            assert(ts[k - 1].end_line < ts[k as int].start_line);
        }
        append_lines(&mut result, original_lines, cursor, table.start_line);
        let block = serialize_table(table);
        result.append(block.as_str());
        assert(result@ =~= assemble(ls, ts, k + 1));
        cursor = table.end_line + 1;
        k = k + 1;
    }
    append_lines(&mut result, original_lines, cursor, original_lines.len());
    let n = result.as_str().unicode_len();
    let keep_newline = original_lines.len() > 0 && original_lines[original_lines.len()
        - 1].as_str().unicode_len() == 0;
    proof {
        if original_lines@.len() > 0 {
            assert(ls.last() == original_lines@[original_lines@.len() - 1]@);
        }
    }
    if n > 0 && result.as_str().get_char(n - 1) == '\n' && !keep_newline {
        let r = result.as_str().substring_char(0, n - 1).to_owned();
        assert(r@ =~= result@.drop_last());
        r
    } else {
        result
    }
}

} // verus!
