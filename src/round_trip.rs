//! Parsing a rebuilt document gives back the tables of the original, cell
//! for cell.
use vstd::prelude::*;

use crate::laws::{
    free_of, lemma_free_not_contains, lemma_render_table_lines, lemma_split_terminated,
    lemma_terminated_concat, rendered_lines,
};
use crate::render::{assemble, cursor_before, rebuilt, spans_fit};
use crate::laws::{
    clean_cell, drawn, lemma_clean_cells, lemma_lines_free, lemma_row_text_shape, lemma_rule_row_shape,
    lemma_scan_placed, lemma_tables_in_order, lemma_rendered_row_line, lemma_rule_row_is_separator, placed, rule_like, shaped};
use crate::render::{col_widths, row_text, rule_row_text};
use crate::row::{raw_cells, row_cells, separator_line, table_line};
use crate::table::{
    tables_of, body_line, fit_row, heading_line, heading_text, scan, scan_body, table_at, table_starts,
    TableView,
};
use crate::text::{join_lines, lemma_split_on_nonempty, lemma_trim_strip_cr, lines_of, split_on, strip_cr, terminated_lines, trim};

verus! {

/// The lines of a document up to the end of table `k - 1`, with each table's
/// span replaced by the lines of its rendering.
pub open spec fn splice(lines: Seq<Seq<char>>, ts: Seq<TableView>, k: int) -> Seq<Seq<char>>
    decreases k,
{
    if k <= 0 {
        Seq::empty()
    } else {
        splice(lines, ts, k - 1) + lines.subrange(cursor_before(ts, k - 1), ts[k - 1].start_line)
            + rendered_lines(ts[k - 1])
    }
}

/// The lines of a whole document, each table's span replaced by the lines of
/// its rendering.
pub open spec fn spliced(lines: Seq<Seq<char>>, ts: Seq<TableView>) -> Seq<Seq<char>> {
    splice(lines, ts, ts.len() as int) + lines.subrange(
        cursor_before(ts, ts.len() as int),
        lines.len() as int,
    )
}

proof fn lemma_assemble_lines(lines: Seq<Seq<char>>, ts: Seq<TableView>, k: int)
    requires
        0 <= k <= ts.len(),
    ensures
        assemble(lines, ts, k) == terminated_lines(splice(lines, ts, k)),
    decreases k,
{
    if k > 0 {
        lemma_assemble_lines(lines, ts, k - 1);
        let gap = lines.subrange(cursor_before(ts, k - 1), ts[k - 1].start_line);
        lemma_terminated_concat(splice(lines, ts, k - 1), gap);
        lemma_terminated_concat(splice(lines, ts, k - 1) + gap, rendered_lines(ts[k - 1]));
        lemma_render_table_lines(ts[k - 1]);
    }
}

/// Whether line `x` lies in the span of table `t`.
pub open spec fn in_span(t: TableView, x: int) -> bool {
    t.start_line <= x <= t.end_line
}

proof fn lemma_spans_sorted(n: int, ts: Seq<TableView>, a: int, b: int)
    requires
        spans_fit(n, ts),
        0 <= a < b < ts.len(),
    ensures
        ts[a].end_line < ts[b].start_line,
    decreases b - a,
{
    assert(ts[b - 1].end_line < ts[b].start_line);
    if a < b - 1 {
        lemma_spans_sorted(n, ts, a, b - 1);
        assert(ts[b - 1].start_line <= ts[b - 1].end_line);
    }
}

/// Each table spans as many lines as its rendering has.
pub open spec fn spans_match(ts: Seq<TableView>) -> bool {
    forall|m: int|
        0 <= m < ts.len() ==> (#[trigger] ts[m]).rows.len() == ts[m].end_line - ts[m].start_line
            - 1
}

proof fn lemma_splice_index(lines: Seq<Seq<char>>, ts: Seq<TableView>, k: int)
    requires
        0 <= k <= ts.len(),
        spans_fit(lines.len() as int, ts),
        spans_match(ts),
    ensures
        splice(lines, ts, k).len() == cursor_before(ts, k),
        forall|m: int, x: int|
            0 <= m < k && #[trigger] in_span(ts[m], x) ==> splice(lines, ts, k)[x]
                == rendered_lines(ts[m])[x - ts[m].start_line],
        forall|x: int|
            0 <= x < cursor_before(ts, k) && (forall|m: int|
                0 <= m < ts.len() ==> !#[trigger] in_span(ts[m], x)) ==> splice(lines, ts, k)[x]
                == lines[x],
    decreases k,
{
    if k > 0 {
        lemma_splice_index(lines, ts, k - 1);
        let prev = splice(lines, ts, k - 1);
        let c = cursor_before(ts, k - 1);
        let t = ts[k - 1];
        assert(ts[k - 1].start_line <= ts[k - 1].end_line < lines.len());
        if k > 1 {
            assert(ts[k - 2].end_line < ts[k - 1].start_line);
        }
        let gap = lines.subrange(c, t.start_line);
        let s = splice(lines, ts, k);
        assert(s == prev + gap + rendered_lines(t));
        assert forall|m: int, x: int| 0 <= m < k && #[trigger] in_span(ts[m], x) implies s[x]
            == rendered_lines(ts[m])[x - ts[m].start_line] by {
            if m < k - 1 {
                lemma_spans_sorted(lines.len() as int, ts, m, k - 1);
                assert(ts[m].end_line < c) by {
                    if m < k - 2 {
                        lemma_spans_sorted(lines.len() as int, ts, m, k - 2);
                        assert(ts[k - 2].start_line <= ts[k - 2].end_line);
                    }
                }
            }
        }
        assert forall|x: int|
            0 <= x < cursor_before(ts, k) && (forall|m: int|
                0 <= m < ts.len() ==> !#[trigger] in_span(ts[m], x)) implies s[x] == lines[x] by {
            assert(!in_span(ts[k - 1], x));
        }
    }
}

proof fn lemma_lines_of_written(ls: Seq<Seq<char>>)
    requires
        forall|k: int| 0 <= k < ls.len() ==> free_of(#[trigger] ls[k], '\n'),
    ensures
        lines_of(terminated_lines(ls)).len() == ls.len(),
        forall|k: int|
            0 <= k < ls.len() ==> #[trigger] lines_of(terminated_lines(ls))[k] == strip_cr(ls[k]),
{
    let s = terminated_lines(ls);
    assert forall|k: int| 0 <= k < ls.len() implies !(#[trigger] ls[k]).contains('\n') by {
        lemma_free_not_contains(ls[k], '\n');
    }
    lemma_split_terminated(ls, Seq::empty());
    assert(s + Seq::<char>::empty() =~= s);
    if ls.len() > 0 {
        assert(s == terminated_lines(ls.drop_last()) + ls.last() + seq!['\n']);
        assert(s.last() == '\n');
    }
}

proof fn lemma_lines_of_written_open(ls: Seq<Seq<char>>)
    requires
        forall|k: int| 0 <= k < ls.len() ==> free_of(#[trigger] ls[k], '\n'),
        ls.len() > 0,
        ls.last().len() > 0,
    ensures
        lines_of(terminated_lines(ls).drop_last()).len() == ls.len(),
        forall|k: int|
            0 <= k < ls.len() ==> #[trigger] lines_of(terminated_lines(ls).drop_last())[k] == strip_cr(
                ls[k],
            ) || lines_of(terminated_lines(ls).drop_last())[k] == ls[k],
{
    let init = ls.drop_last();
    let s = terminated_lines(ls).drop_last();
    assert(terminated_lines(ls) == terminated_lines(init) + ls.last() + seq!['\n']);
    assert(s =~= terminated_lines(init) + ls.last());
    assert forall|k: int| 0 <= k < init.len() implies !(#[trigger] init[k]).contains('\n') by {
        lemma_free_not_contains(ls[k], '\n');
    }
    assert(free_of(ls[ls.len() - 1], '\n'));
    lemma_free_not_contains(ls.last(), '\n');
    lemma_split_terminated(init, ls.last());
    assert(init.push(ls.last()) =~= ls);
    assert(s.last() == ls.last().last());
}

/// `l2` holds the lines of `lines` with each table's span replaced by its
/// rendering; other lines may differ in white space at their ends alone.
#[verifier::opaque]
pub open spec fn follows(l2: Seq<Seq<char>>, lines: Seq<Seq<char>>, ts: Seq<TableView>) -> bool {
    &&& l2.len() == lines.len()
    &&& forall|m: int, x: int|
        0 <= m < ts.len() && #[trigger] in_span(ts[m], x) ==> l2[x] == rendered_lines(
            ts[m],
        )[x - ts[m].start_line]
    &&& forall|x: int|
        0 <= x < lines.len() && (forall|m: int| 0 <= m < ts.len() ==> !#[trigger] in_span(ts[m], x))
            ==> trim(#[trigger] l2[x]) == trim(lines[x])
}

/// Every rendered line is free of line breaks and ends with `|`.
pub open spec fn renders_flat(ts: Seq<TableView>) -> bool {
    forall|m: int, d: int|
        0 <= m < ts.len() && 0 <= d < rendered_lines(ts[m]).len() ==> {
            let l = #[trigger] rendered_lines(ts[m])[d];
            free_of(l, '\n') && l.len() > 0 && l.last() == '|'
        }
}

proof fn lemma_spliced_exact(lines: Seq<Seq<char>>, ts: Seq<TableView>)
    requires
        ts.len() > 0,
        spans_fit(lines.len() as int, ts),
        spans_match(ts),
        renders_flat(ts),
        forall|k: int| 0 <= k < lines.len() ==> free_of(#[trigger] lines[k], '\n'),
    ensures
        spliced(lines, ts).len() == lines.len(),
        forall|m: int, x: int|
            0 <= m < ts.len() && #[trigger] in_span(ts[m], x) ==> spliced(lines, ts)[x]
                == rendered_lines(ts[m])[x - ts[m].start_line],
        forall|x: int|
            0 <= x < lines.len() && (forall|m: int|
                0 <= m < ts.len() ==> !#[trigger] in_span(ts[m], x)) ==> #[trigger] spliced(
                lines,
                ts,
            )[x] == lines[x],
{
    let kk = ts.len() as int;
    let c = cursor_before(ts, kk);
    let l1 = spliced(lines, ts);
    let tail = lines.subrange(c, lines.len() as int);
    lemma_splice_index(lines, ts, kk);
    assert(ts[kk - 1].start_line <= ts[kk - 1].end_line < lines.len());
    assert(l1.len() == lines.len());
    assert forall|m: int, x: int|
        0 <= m < ts.len() && #[trigger] in_span(ts[m], x) implies l1[x] == rendered_lines(
        ts[m],
    )[x - ts[m].start_line] by {
        if m < kk - 1 {
            lemma_spans_sorted(lines.len() as int, ts, m, kk - 1);
        }
    }
    assert forall|x: int|
        0 <= x < lines.len() && (forall|m: int| 0 <= m < ts.len() ==> !#[trigger] in_span(ts[m], x))
            implies #[trigger] l1[x] == lines[x] by {
        if x >= c {
            assert(l1[x] == tail[x - c]);
        }
    }
}

proof fn lemma_spliced_free(lines: Seq<Seq<char>>, ts: Seq<TableView>)
    requires
        ts.len() > 0,
        spans_fit(lines.len() as int, ts),
        spans_match(ts),
        renders_flat(ts),
        forall|k: int| 0 <= k < lines.len() ==> free_of(#[trigger] lines[k], '\n'),
    ensures
        forall|x: int|
            0 <= x < lines.len() ==> free_of(#[trigger] spliced(lines, ts)[x], '\n') && (
            spliced(lines, ts)[x].len() > 0 || lines[x].len() == 0),
{
    let l1 = spliced(lines, ts);
    lemma_spliced_exact(lines, ts);
    assert forall|x: int| 0 <= x < lines.len() implies free_of(#[trigger] l1[x], '\n') && (
    l1[x].len() > 0 || lines[x].len() == 0) by {
        if exists|m: int| 0 <= m < ts.len() && #[trigger] in_span(ts[m], x) {
            let m = choose|m: int| 0 <= m < ts.len() && #[trigger] in_span(ts[m], x);
            assert(ts[m].rows.len() == ts[m].end_line - ts[m].start_line - 1);
            let l = rendered_lines(ts[m])[x - ts[m].start_line];
            assert(free_of(l, '\n'));
        } else {
            assert(l1[x] == lines[x]);
        }
    }
}

proof fn lemma_rebuilt_lines(lines: Seq<Seq<char>>, ts: Seq<TableView>)
    requires
        ts.len() > 0,
        spans_fit(lines.len() as int, ts),
        spans_match(ts),
        renders_flat(ts),
        forall|k: int| 0 <= k < lines.len() ==> free_of(#[trigger] lines[k], '\n'),
    ensures
        lines_of(rebuilt(lines, ts)).len() == lines.len(),
        forall|x: int|
            0 <= x < lines.len() ==> #[trigger] lines_of(rebuilt(lines, ts))[x] == strip_cr(
                spliced(lines, ts)[x],
            ) || lines_of(rebuilt(lines, ts))[x] == spliced(lines, ts)[x],
{
    let kk = ts.len() as int;
    let c = cursor_before(ts, kk);
    let l1 = spliced(lines, ts);
    let tail = lines.subrange(c, lines.len() as int);
    lemma_assemble_lines(lines, ts, kk);
    lemma_terminated_concat(splice(lines, ts, kk), tail);
    lemma_spliced_exact(lines, ts);
    lemma_spliced_free(lines, ts);
    let full = terminated_lines(l1);
    assert(full == terminated_lines(l1.drop_last()) + l1.last() + seq!['\n']);
    if lines.last().len() == 0 {
        assert(rebuilt(lines, ts) == full);
        lemma_lines_of_written(l1);
    } else {
        assert(l1.last().len() > 0) by {
            assert(l1[l1.len() - 1].len() > 0 || lines[l1.len() - 1].len() == 0);
        }
        assert(rebuilt(lines, ts) == full.drop_last());
        lemma_lines_of_written_open(l1);
    }
}

proof fn lemma_rebuilt_follows(lines: Seq<Seq<char>>, ts: Seq<TableView>)
    requires
        ts.len() > 0,
        spans_fit(lines.len() as int, ts),
        spans_match(ts),
        renders_flat(ts),
        forall|k: int| 0 <= k < lines.len() ==> free_of(#[trigger] lines[k], '\n'),
    ensures
        follows(lines_of(rebuilt(lines, ts)), lines, ts),
{
    let l1 = spliced(lines, ts);
    let l2 = lines_of(rebuilt(lines, ts));
    lemma_rebuilt_lines(lines, ts);
    lemma_spliced_exact(lines, ts);
    assert forall|m: int, x: int|
        0 <= m < ts.len() && #[trigger] in_span(ts[m], x) implies l2[x] == rendered_lines(
        ts[m],
    )[x - ts[m].start_line] by {
        assert(ts[m].start_line <= ts[m].end_line < lines.len());
        assert(ts[m].rows.len() == ts[m].end_line - ts[m].start_line - 1);
        let l = rendered_lines(ts[m])[x - ts[m].start_line];
        assert(l.last() == '|');
        assert(l2[x] == strip_cr(l1[x]) || l2[x] == l1[x]);
    }
    assert forall|x: int|
        0 <= x < lines.len() && (forall|m: int| 0 <= m < ts.len() ==> !#[trigger] in_span(ts[m], x))
            implies trim(#[trigger] l2[x]) == trim(lines[x]) by {
        assert(l1[x] == lines[x]);
        assert(l2[x] == strip_cr(l1[x]) || l2[x] == l1[x]);
        lemma_trim_strip_cr(l1[x]);
    }
    assert(follows(l2, lines, ts)) by {
        reveal(follows);
    }
}

/// Tables as parsing gives them, none with a body row of `-` and `:` cells
/// alone.
#[verifier::opaque]
pub open spec fn good(ts: Seq<TableView>, lines: Seq<Seq<char>>) -> bool {
    &&& placed(ts, 0, lines.len() as int)
    &&& shaped(ts)
    &&& forall|m: int| 0 <= m < ts.len() ==> drawn(#[trigger] ts[m], lines)
    &&& forall|m: int| 0 <= m < ts.len() ==> (#[trigger] ts[m]).headers.len() >= 1
    &&& forall|m: int, c: int|
        0 <= m < ts.len() && 0 <= c < ts[m].headers.len() ==> clean_cell(
            #[trigger] ts[m].headers[c],
        )
    &&& forall|m: int, r: int, c: int|
        0 <= m < ts.len() && 0 <= r < ts[m].rows.len() && 0 <= c < ts[m].rows[r].len()
            ==> clean_cell(#[trigger] ts[m].rows[r][c])
    &&& forall|m: int, r: int|
        0 <= m < ts.len() && 0 <= r < ts[m].rows.len() ==> !rule_like(#[trigger] ts[m].rows[r])
}

/// Same number of tables, with the same header and body cells.
pub open spec fn same_cells(a: Seq<TableView>, b: Seq<TableView>) -> bool {
    &&& a.len() == b.len()
    &&& forall|k: int|
        0 <= k < a.len() ==> (#[trigger] a[k]).headers == b[k].headers && a[k].rows == b[k].rows
}

proof fn lemma_scan_body_head(lines: Seq<Seq<char>>, i: int, j: int, h: Option<Seq<char>>)
    requires
        0 <= i,
        i + 2 <= j <= lines.len(),
    ensures
        scan_body(lines, i, j, h).len() >= 1,
        scan_body(lines, i, j, h)[0].start_line == i,
        j - 1 <= scan_body(lines, i, j, h)[0].end_line < lines.len(),
        scan_body(lines, i, j, h).drop_first() == scan(
            lines,
            scan_body(lines, i, j, h)[0].end_line + 1,
            h,
        ),
        scan_body(lines, i, j, h)[0].end_line + 1 == lines.len() || !body_line(
            lines[scan_body(lines, i, j, h)[0].end_line + 1],
        ),
    decreases lines.len() - j,
{
    if j < lines.len() && body_line(lines[j]) {
        lemma_scan_body_head(lines, i, j + 1, h);
    } else {
        let s = scan_body(lines, i, j, h);
        assert(s.drop_first() =~= scan(lines, j, h));
    }
}

proof fn lemma_scan_body_run(
    lines: Seq<Seq<char>>,
    i: int,
    j: int,
    e: int,
    h: Option<Seq<char>>,
)
    requires
        0 <= i,
        i + 2 <= j <= e + 1 <= lines.len(),
        forall|k: int| j <= k <= e ==> body_line(#[trigger] lines[k]),
        e + 1 == lines.len() || !body_line(lines[e + 1]),
    ensures
        scan_body(lines, i, j, h) == seq![table_at(lines, i, (e - i - 1) as nat, h)] + scan(
            lines,
            e + 1,
            h,
        ),
    decreases lines.len() - j,
{
    if j <= e {
        assert(body_line(lines[j]));
        lemma_scan_body_run(lines, i, j + 1, e, h);
    }
}

proof fn lemma_follows_at(l2: Seq<Seq<char>>, lines: Seq<Seq<char>>, ts: Seq<TableView>, x: int)
    requires
        follows(l2, lines, ts),
    ensures
        l2.len() == lines.len(),
        0 <= x < lines.len() && (forall|m: int| 0 <= m < ts.len() ==> !#[trigger] in_span(ts[m], x))
            ==> trim(l2[x]) == trim(lines[x]),
        forall|m: int|
            0 <= m < ts.len() && #[trigger] in_span(ts[m], x) ==> l2[x] == rendered_lines(
                ts[m],
            )[x - ts[m].start_line],
{
    reveal(follows);
}

proof fn lemma_good_at(ts: Seq<TableView>, lines: Seq<Seq<char>>, m: int)
    requires
        good(ts, lines),
        0 <= m < ts.len(),
    ensures
        drawn(ts[m], lines),
        ts[m].headers.len() >= 1,
        0 <= ts[m].start_line,
        ts[m].start_line + 1 <= ts[m].end_line < lines.len(),
        ts[m].rows.len() == ts[m].end_line - ts[m].start_line - 1,
        m + 1 < ts.len() ==> ts[m].end_line < ts[m + 1].start_line,
        forall|c: int| 0 <= c < ts[m].headers.len() ==> clean_cell(#[trigger] ts[m].headers[c]),
        forall|r: int| 0 <= r < ts[m].rows.len() ==> (#[trigger] ts[m].rows[r]).len()
            == ts[m].headers.len() && !rule_like(ts[m].rows[r]),
        forall|r: int, c: int|
            0 <= r < ts[m].rows.len() && 0 <= c < ts[m].rows[r].len() ==> clean_cell(
                #[trigger] ts[m].rows[r][c],
            ),
{
    reveal(good);
    assert(shaped(ts));
    assert(placed(ts, 0, lines.len() as int));
    assert(0 <= ts[m].start_line);
}

/// Two lines with the same trimmed text are read alike.
proof fn lemma_trim_agrees(a: Seq<char>, b: Seq<char>)
    requires
        trim(a) == trim(b),
    ensures
        heading_line(a) == heading_line(b),
        heading_text(a) == heading_text(b),
        table_line(a) == table_line(b),
        separator_line(a) == separator_line(b),
        body_line(a) == body_line(b),
        row_cells(a) == row_cells(b),
{
    assert(raw_cells(a) == raw_cells(b));
    assert(row_cells(a) == row_cells(b));
}

/// A rendered header row is read as the header row it replaces.
proof fn lemma_header_agrees(t: TableView, line: Seq<char>)
    requires
        table_line(line),
        !heading_line(line),
        row_cells(line) == t.headers,
        t.headers.len() >= 1,
        forall|c: int| 0 <= c < t.headers.len() ==> clean_cell(#[trigger] t.headers[c]),
    ensures
        ({
            let r = row_text(t.headers, col_widths(t), t.headers.len() as int);
            &&& !heading_line(r)
            &&& table_line(r)
            &&& separator_line(r) == separator_line(line)
            &&& body_line(r) == body_line(line)
            &&& row_cells(r) == t.headers
        }),
{
    let n = t.headers.len() as int;
    let r = row_text(t.headers, col_widths(t), n);
    lemma_rendered_row_line(t.headers, col_widths(t), n);
    assert(separator_line(line) == rule_like(t.headers));
}

/// Line `x` of the rebuilt lines is read as line `x` of the original is,
/// where it lies outside every span or starts one.
proof fn lemma_line_agrees(
    l2: Seq<Seq<char>>,
    lines: Seq<Seq<char>>,
    ts: Seq<TableView>,
    x: int,
)
    requires
        good(ts, lines),
        follows(l2, lines, ts),
        0 <= x < lines.len(),
        (forall|m: int| 0 <= m < ts.len() ==> !#[trigger] in_span(ts[m], x)) || exists|m: int|
            0 <= m < ts.len() && #[trigger] ts[m].start_line == x,
    ensures
        heading_line(l2[x]) == heading_line(lines[x]),
        heading_line(lines[x]) ==> heading_text(l2[x]) == heading_text(lines[x]),
        table_line(l2[x]) == table_line(lines[x]),
        separator_line(l2[x]) == separator_line(lines[x]),
        body_line(l2[x]) == body_line(lines[x]),
{
    lemma_follows_at(l2, lines, ts, x);
    if !(forall|m: int| 0 <= m < ts.len() ==> !#[trigger] in_span(ts[m], x)) {
        let m = choose|m: int| 0 <= m < ts.len() && #[trigger] ts[m].start_line == x;
        let t = ts[m];
        lemma_good_at(ts, lines, m);
        assert(in_span(t, x));
        assert(l2[x] == rendered_lines(t)[0]);
        lemma_header_agrees(t, lines[x]);
    } else {
        lemma_trim_agrees(l2[x], lines[x]);
    }
}

proof fn lemma_starts_from(
    lines: Seq<Seq<char>>,
    ts: Seq<TableView>,
    p: int,
    h: Option<Seq<char>>,
    q: int,
)
    requires
        0 <= p,
        0 <= q <= ts.len(),
        scan(lines, p, h) == ts.subrange(q, ts.len() as int),
    ensures
        forall|m: int| q <= m < ts.len() ==> p <= #[trigger] ts[m].start_line,
{
    lemma_scan_placed(lines, p, h);
    let sub = ts.subrange(q, ts.len() as int);
    assert forall|m: int| q <= m < ts.len() implies p <= #[trigger] ts[m].start_line by {
        assert(ts[m] == sub[m - q]);
    }
}

proof fn lemma_clear(ts: Seq<TableView>, p: int, q: int)
    requires
        forall|m: int| 0 <= m < q ==> #[trigger] ts[m].end_line < p,
        forall|m: int| q <= m < ts.len() ==> p <= #[trigger] ts[m].start_line,
    ensures
        (forall|m: int| 0 <= m < ts.len() ==> !#[trigger] in_span(ts[m], p)) || exists|m: int|
            0 <= m < ts.len() && #[trigger] ts[m].start_line == p,
{
    if !exists|m: int| 0 <= m < ts.len() && #[trigger] ts[m].start_line == p {
        assert forall|m: int| 0 <= m < ts.len() implies !#[trigger] in_span(ts[m], p) by {
            if m < q {
                assert(ts[m].end_line < p);
            } else {
                assert(ts[m].start_line != p);
            }
        }
    }
}

/// The rows of table `t` as rendered, from line `i + 2` of `l2` on, read
/// as body rows.
proof fn lemma_rendered_body(l2: Seq<Seq<char>>, t: TableView, i: int)
    requires
        t.headers.len() >= 1,
        0 <= i,
        i + 2 + t.rows.len() <= l2.len(),
        forall|r: int| 0 <= r < t.rows.len() ==> (#[trigger] t.rows[r]).len()
            == t.headers.len() && !rule_like(t.rows[r]),
        forall|r: int, c: int|
            0 <= r < t.rows.len() && 0 <= c < t.rows[r].len() ==> clean_cell(
                #[trigger] t.rows[r][c],
            ),
        forall|d: int| 0 <= d < rendered_lines(t).len() ==> l2[i + d] == #[trigger] rendered_lines(t)[d],
    ensures
        forall|k: int| i + 2 <= k < i + 2 + t.rows.len() ==> body_line(#[trigger] l2[k]),
        forall|r: int|
            0 <= r < t.rows.len() ==> fit_row(row_cells(#[trigger] l2[i + 2 + r]), t.headers.len())
                == t.rows[r],
{
    let ws = col_widths(t);
    let n = t.headers.len() as int;
    assert forall|r: int| 0 <= r < t.rows.len() implies body_line(#[trigger] l2[i + 2 + r])
        && fit_row(row_cells(l2[i + 2 + r]), t.headers.len()) == t.rows[r] by {
        let row = t.rows[r];
        assert forall|c: int| 0 <= c < row.len() implies clean_cell(#[trigger] row[c]) by {
            assert(clean_cell(t.rows[r][c]));
        }
        assert(l2[i + 2 + r] == rendered_lines(t)[2 + r]);
        lemma_rendered_row_line(row, ws, n);
        assert(fit_row(row_cells(l2[i + 2 + r]), t.headers.len()) =~= t.rows[r]);
    }
    assert forall|k: int| i + 2 <= k < i + 2 + t.rows.len() implies body_line(#[trigger] l2[k]) by {
        assert(l2[i + 2 + (k - i - 2)] == l2[k]);
    }
}

proof fn lemma_scan_table_step(
    l2: Seq<Seq<char>>,
    lines: Seq<Seq<char>>,
    ts: Seq<TableView>,
    i: int,
    h: Option<Seq<char>>,
    q: int,
)
    requires
        good(ts, lines),
        follows(l2, lines, ts),
        0 <= i < lines.len(),
        0 <= q <= ts.len(),
        scan(lines, i, h) == ts.subrange(q, ts.len() as int),
        forall|m: int| 0 <= m < q ==> #[trigger] ts[m].end_line < i,
        !heading_line(lines[i]),
        table_starts(lines, i),
    ensures
        q < ts.len(),
        ts[q].start_line == i,
        scan(lines, ts[q].end_line + 1, h) == ts.subrange(q + 1, ts.len() as int),
        scan(l2, i, h).len() >= 1,
        scan(l2, i, h)[0].headers == ts[q].headers,
        scan(l2, i, h)[0].rows == ts[q].rows,
        scan(l2, i, h).drop_first() == scan(l2, ts[q].end_line + 1, h),
{
    lemma_follows_at(l2, lines, ts, i);
    lemma_scan_body_head(lines, i, i + 2, h);
    let sb = scan_body(lines, i, i + 2, h);
    assert(scan(lines, i, h) == sb);
    assert(sb[0] == ts[q]);
    let t = ts[q];
    let e = t.end_line;
    lemma_good_at(ts, lines, q);
    assert(ts.subrange(q, ts.len() as int).drop_first() =~= ts.subrange(q + 1, ts.len() as int));
    let ws = col_widths(t);
    let n = t.headers.len() as int;
    assert forall|d: int| 0 <= d < rendered_lines(t).len() implies l2[i + d]
        == #[trigger] rendered_lines(t)[d] by {
        lemma_follows_at(l2, lines, ts, i + d);
        assert(in_span(ts[q], i + d));
    }
    assert(l2[i] == rendered_lines(t)[0]);
    assert(l2[i + 1] == rendered_lines(t)[1]);
    lemma_header_agrees(t, lines[i]);
    lemma_rule_row_is_separator(t.alignments, ws, n);
    assert(table_starts(l2, i));
    lemma_rendered_body(l2, t, i);
    if e + 1 < lines.len() {
        lemma_starts_from(lines, ts, e + 1, h, q + 1);
        assert forall|m: int| 0 <= m < q + 1 implies #[trigger] ts[m].end_line < e + 1 by {
            if m < q {
                assert(ts[m].end_line < i);
            }
        }
        lemma_clear(ts, e + 1, q + 1);
        lemma_line_agrees(l2, lines, ts, e + 1);
    }
    lemma_scan_body_run(l2, i, i + 2, e, h);
    let got = table_at(l2, i, (e - i - 1) as nat, h);
    assert(got.rows =~= t.rows);
}

proof fn lemma_scan_related(
    l2: Seq<Seq<char>>,
    lines: Seq<Seq<char>>,
    ts: Seq<TableView>,
    i: int,
    h: Option<Seq<char>>,
    q: int,
)
    requires
        good(ts, lines),
        follows(l2, lines, ts),
        0 <= i <= lines.len(),
        0 <= q <= ts.len(),
        scan(lines, i, h) == ts.subrange(q, ts.len() as int),
        forall|m: int| 0 <= m < q ==> #[trigger] ts[m].end_line < i,
    ensures
        same_cells(scan(l2, i, h), scan(lines, i, h)),
    decreases lines.len() - i,
{
    lemma_follows_at(l2, lines, ts, i);
    if i < lines.len() {
        if heading_line(lines[i]) {
            let h2 = Some(heading_text(lines[i]));
            lemma_starts_from(lines, ts, i + 1, h2, q);
            lemma_clear(ts, i, q);
            lemma_line_agrees(l2, lines, ts, i);
            lemma_scan_related(l2, lines, ts, i + 1, h2, q);
        } else if table_starts(lines, i) {
            lemma_scan_table_step(l2, lines, ts, i, h, q);
            lemma_good_at(ts, lines, q);
            let e = ts[q].end_line;
            assert forall|m: int| 0 <= m < q + 1 implies #[trigger] ts[m].end_line < e + 1 by {
                if m < q {
                    assert(ts[m].end_line < i);
                }
            }
            lemma_good_at(ts, lines, q);
            lemma_scan_related(l2, lines, ts, e + 1, h, q + 1);
            let a = scan(l2, i, h);
            let b = scan(lines, i, h);
            assert(b[0] == ts[q]);
            assert(b.drop_first() =~= ts.subrange(q + 1, ts.len() as int));
            assert forall|k: int| 0 <= k < a.len() implies (#[trigger] a[k]).headers == b[k].headers
                && a[k].rows == b[k].rows by {
                if k > 0 {
                    assert(a[k] == a.drop_first()[k - 1]);
                    assert(b[k] == b.drop_first()[k - 1]);
                }
            }
        } else {
            lemma_starts_from(lines, ts, i + 1, h, q);
            lemma_clear(ts, i, q);
            lemma_line_agrees(l2, lines, ts, i);
            if i + 1 < lines.len() {
                lemma_clear(ts, i + 1, q);
                lemma_line_agrees(l2, lines, ts, i + 1);
            }
            assert(!table_starts(l2, i));
            lemma_scan_related(l2, lines, ts, i + 1, h, q);
        }
    }
}

proof fn lemma_table_clean(content: Seq<char>, m: int)
    requires
        0 <= m < tables_of(content).len(),
    ensures
        ({
            let t = tables_of(content)[m];
            &&& t.headers.len() >= 1
            &&& forall|c: int| 0 <= c < t.headers.len() ==> clean_cell(#[trigger] t.headers[c])
            &&& forall|r: int, c: int|
                0 <= r < t.rows.len() && 0 <= c < t.rows[r].len() ==> clean_cell(
                    #[trigger] t.rows[r][c],
                )
        }),
{
    let lines = lines_of(content);
    let t = tables_of(content)[m];
    lemma_scan_placed(lines, 0, None);
    lemma_lines_free(content);
    assert(drawn(t, lines));
    lemma_clean_cells(lines[t.start_line]);
    lemma_split_on_nonempty(crate::row::strip_pipes(trim(lines[t.start_line])), '|');
    assert forall|r: int, c: int| 0 <= r < t.rows.len() && 0 <= c < t.rows[r].len() implies clean_cell(
        #[trigger] t.rows[r][c],
    ) by {
        let line = lines[t.start_line + 2 + r];
        lemma_clean_cells(line);
        assert(t.rows[r] == fit_row(row_cells(line), t.headers.len()));
        if c >= row_cells(line).len() {
            assert(t.rows[r][c] == Seq::<char>::empty());
        }
    }
}

proof fn lemma_parsed_good(content: Seq<char>)
    requires
        forall|k: int, r: int|
            0 <= k < tables_of(content).len() && 0 <= r < tables_of(content)[k].rows.len()
                ==> !rule_like(#[trigger] tables_of(content)[k].rows[r]),
    ensures
        good(tables_of(content), lines_of(content)),
{
    let lines = lines_of(content);
    let ts = tables_of(content);
    lemma_scan_placed(lines, 0, None);
    assert forall|m: int| 0 <= m < ts.len() implies (#[trigger] ts[m]).headers.len() >= 1 && (forall|c: int|
        0 <= c < ts[m].headers.len() ==> clean_cell(#[trigger] ts[m].headers[c])) && (forall|r: int, c: int|
        0 <= r < ts[m].rows.len() && 0 <= c < ts[m].rows[r].len() ==> clean_cell(
            #[trigger] ts[m].rows[r][c],
        )) by {
        lemma_table_clean(content, m);
    }
    assert(good(ts, lines)) by {
        reveal(good);
    }
}

proof fn lemma_parsed_flat(content: Seq<char>)
    ensures
        renders_flat(tables_of(content)),
{
    let ts = tables_of(content);
    assert forall|m: int, d: int| 0 <= m < ts.len() && 0 <= d < rendered_lines(ts[m]).len() implies {
        let l = #[trigger] rendered_lines(ts[m])[d];
        free_of(l, '\n') && l.len() > 0 && l.last() == '|'
    } by {
        let t = ts[m];
        let ws = col_widths(t);
        let n = t.headers.len() as int;
        lemma_table_clean(content, m);
        if d == 0 {
            assert forall|c: int| 0 <= c < t.headers.len() implies free_of(#[trigger] t.headers[c], '\n') by {
                assert(clean_cell(t.headers[c]));
            }
            lemma_row_text_shape(t.headers, ws, n);
        } else if d == 1 {
            lemma_rule_row_shape(t.alignments, ws, n);
        } else {
            let row = t.rows[d - 2];
            assert forall|c: int| 0 <= c < row.len() implies free_of(#[trigger] row[c], '\n') by {
                assert(clean_cell(t.rows[d - 2][c]));
            }
            lemma_row_text_shape(row, ws, n);
        }
    }
}

proof fn lemma_join_as_terminated(ls: Seq<Seq<char>>)
    requires
        ls.len() > 0,
    ensures
        join_lines(ls) == terminated_lines(ls.drop_last()) + ls.last(),
    decreases ls.len(),
{
    if ls.len() == 1 {
        assert(ls.drop_last() =~= Seq::<Seq<char>>::empty());
        assert(join_lines(ls) =~= terminated_lines(ls.drop_last()) + ls.last());
    } else {
        lemma_join_as_terminated(ls.drop_last());
        assert(ls.drop_last().drop_last() =~= ls.drop_last().drop_last());
        assert(join_lines(ls) =~= terminated_lines(ls.drop_last()) + ls.last());
    }
}

proof fn lemma_lines_of_join(ls: Seq<Seq<char>>)
    requires
        forall|k: int| 0 <= k < ls.len() ==> free_of(#[trigger] ls[k], '\n'),
    ensures
        lines_of(join_lines(ls)).len() <= ls.len(),
        forall|x: int|
            0 <= x < lines_of(join_lines(ls)).len() ==> trim(#[trigger] lines_of(join_lines(ls))[x])
                == trim(ls[x]),
{
    let l2 = lines_of(join_lines(ls));
    if ls.len() == 0 {
        assert(join_lines(ls) == Seq::<char>::empty());
        assert(split_on(Seq::<char>::empty(), '\n') == seq![Seq::<char>::empty()]);
    } else {
        let init = ls.drop_last();
        lemma_join_as_terminated(ls);
        assert forall|k: int| 0 <= k < init.len() implies !(#[trigger] init[k]).contains('\n') by {
            lemma_free_not_contains(ls[k], '\n');
        }
        assert(free_of(ls[ls.len() - 1], '\n'));
        lemma_free_not_contains(ls.last(), '\n');
        lemma_split_terminated(init, ls.last());
        assert(init.push(ls.last()) =~= ls);
        assert forall|x: int| 0 <= x < l2.len() implies trim(#[trigger] l2[x]) == trim(ls[x]) by {
            lemma_trim_strip_cr(ls[x]);
        }
    }
}

proof fn lemma_no_start(lines: Seq<Seq<char>>, i: int, h: Option<Seq<char>>)
    requires
        0 <= i,
        scan(lines, i, h).len() == 0,
    ensures
        forall|k: int|
            i <= k < lines.len() ==> !(table_starts(lines, k) && !heading_line(#[trigger] lines[k])),
    decreases lines.len() - i,
{
    if i < lines.len() {
        if heading_line(lines[i]) {
            lemma_no_start(lines, i + 1, Some(heading_text(lines[i])));
        } else if table_starts(lines, i) {
            lemma_scan_body_head(lines, i, i + 2, h);
        } else {
            lemma_no_start(lines, i + 1, h);
        }
    }
}

proof fn lemma_scan_none(lines: Seq<Seq<char>>, i: int, h: Option<Seq<char>>)
    requires
        forall|k: int|
            0 <= k < lines.len() ==> !(table_starts(lines, k) && !heading_line(#[trigger] lines[k])),
    ensures
        scan(lines, i, h).len() == 0,
    decreases lines.len() - i,
{
    if 0 <= i < lines.len() {
        if heading_line(lines[i]) {
            lemma_scan_none(lines, i + 1, Some(heading_text(lines[i])));
        } else {
            lemma_scan_none(lines, i + 1, h);
        }
    }
}

/// Parsing a document, rebuilding it with its tables left as they are, and
/// parsing the result gives back as many tables, each with the same header
/// and body cells. The one exception: a document with a body row that, fitted
/// to its header's width, is made of `-` and `:` cells alone; rendered, such
/// a row reads as a separator row and ends its table early.
pub proof fn lemma_round_trip(content: Seq<char>)
    requires
        forall|k: int, r: int|
            0 <= k < tables_of(content).len() && 0 <= r < tables_of(content)[k].rows.len()
                ==> !rule_like(#[trigger] tables_of(content)[k].rows[r]),
    ensures
        same_cells(tables_of(rebuilt(lines_of(content), tables_of(content))), tables_of(content)),
{
    let lines = lines_of(content);
    let ts = tables_of(content);
    let l2 = lines_of(rebuilt(lines, ts));
    lemma_lines_free(content);
    if ts.len() == 0 {
        lemma_lines_of_join(lines);
        lemma_no_start(lines, 0, None);
        assert forall|k: int| 0 <= k < l2.len() implies !(table_starts(l2, k) && !heading_line(
            #[trigger] l2[k],
        )) by {
            lemma_trim_agrees(l2[k], lines[k]);
            if k + 1 < l2.len() {
                lemma_trim_agrees(l2[k + 1], lines[k + 1]);
            }
        }
        lemma_scan_none(l2, 0, None);
    } else {
        lemma_parsed_good(content);
        lemma_parsed_flat(content);
        lemma_tables_in_order(content);
        lemma_scan_placed(lines, 0, None);
        assert(spans_match(ts));
        lemma_rebuilt_follows(lines, ts);
        assert(ts.subrange(0, ts.len() as int) =~= ts);
        lemma_scan_related(l2, lines, ts, 0, None, 0);
    }
}

} // verus!
