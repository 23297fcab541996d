use markdown_sheet::render::{rebuild_document, serialize_table, spans_in_order};
use markdown_sheet::row::{is_separator_line, is_table_line, parse_alignments, parse_row};
use markdown_sheet::table::{parse_markdown, MarkdownTable};

fn strings(cells: &[&str]) -> Vec<String> {
    cells.iter().map(|c| c.to_string()).collect()
}

#[test]
fn test_parse_simple_table() {
    let md = "# Test\n\n| A | B |\n| --- | --- |\n| 1 | 2 |\n| 3 | 4 |\n";
    let doc = parse_markdown(md);
    assert_eq!(doc.tables.len(), 1);
    assert_eq!(doc.tables[0].headers, vec!["A", "B"]);
    assert_eq!(doc.tables[0].rows.len(), 2);
}

#[test]
fn test_roundtrip() {
    let md = "# Heading\n\n| Name | Age |\n| --- | --- |\n| Alice | 30 |\n| Bob | 25 |\n";
    let doc = parse_markdown(md);
    let rebuilt = rebuild_document(&doc.lines, &doc.tables);
    let doc2 = parse_markdown(&rebuilt);
    assert_eq!(doc2.tables[0].headers, doc.tables[0].headers);
    assert_eq!(doc2.tables[0].rows, doc.tables[0].rows);
}

#[test]
fn parse_row_strips_edge_pipes_and_trims() {
    assert_eq!(parse_row("  | a |  b |c|  "), strings(&["a", "b", "c"]));
    assert_eq!(parse_row("| a | b"), strings(&["a", "b"]));
    assert_eq!(parse_row("a | b |"), strings(&["a", "b"]));
    assert_eq!(parse_row("|||"), strings(&["", ""]));
    assert_eq!(parse_row("no pipes"), strings(&["no pipes"]));
}

#[test]
fn table_line_needs_a_pipe_and_text() {
    assert!(is_table_line("| a |"));
    assert!(is_table_line("a | b"));
    assert!(!is_table_line("   "));
    assert!(!is_table_line("plain text"));
}

#[test]
fn separator_rejects_empty_cells() {
    assert!(!is_separator_line("| | |"));
    assert!(!is_separator_line("||"));
    assert!(!is_separator_line("---"));
    assert!(!is_separator_line("| -- | x- |"));
}

#[test]
fn separator_alignments_are_read_by_colons() {
    assert!(is_separator_line("|---|:--:|--:|"));
    assert_eq!(parse_alignments("|---|:--:|--:|"), strings(&["none", "center", "right"]));
    assert_eq!(parse_alignments("| :-- | --- |"), strings(&["left", "none"]));
}

#[test]
fn heading_is_associated_with_table() {
    let doc = parse_markdown("# Title\n\n| A |\n|---|\n| 1 |\n");
    assert_eq!(doc.tables.len(), 1);
    assert_eq!(doc.tables[0].heading, Some("Title".to_string()));
    assert_eq!(doc.tables[0].start_line, 2);
    assert_eq!(doc.tables[0].end_line, 4);
}

#[test]
fn last_heading_persists_across_tables() {
    let md = "## Sub ##\n| A |\n|---|\n\n| B |\n|---|\n";
    let doc = parse_markdown(md);
    assert_eq!(doc.tables.len(), 2);
    assert_eq!(doc.tables[0].heading, Some("Sub ##".to_string()));
    assert_eq!(doc.tables[1].heading, Some("Sub ##".to_string()));
}

#[test]
fn table_without_heading_has_none() {
    let doc = parse_markdown("| A |\n|---|\n");
    assert_eq!(doc.tables[0].heading, None);
    assert_eq!(doc.tables[0].end_line, 1);
    assert!(doc.tables[0].rows.is_empty());
}

#[test]
fn edit_and_rebuild_keeps_new_row() {
    let mut doc = parse_markdown("| A | B |\n|---|---|\n| 1 | 2 |\n");
    doc.tables[0].rows.push(strings(&["3", "4"]));
    let text = rebuild_document(&doc.lines, &doc.tables);
    let again = parse_markdown(&text);
    assert_eq!(again.tables[0].rows.len(), 2);
    assert_eq!(again.tables[0].rows[1], strings(&["3", "4"]));
}

#[test]
fn document_without_pipes_passes_through() {
    let md = "# Notes\n\nJust text.\n- a list\n";
    let doc = parse_markdown(md);
    assert!(doc.tables.is_empty());
    assert_eq!(rebuild_document(&doc.lines, &doc.tables), doc.lines.join("\n"));
    assert_eq!(rebuild_document(&doc.lines, &doc.tables), "# Notes\n\nJust text.\n- a list");
}

#[test]
fn tables_are_ordered_and_apart() {
    let md = "| A |\n|---|\n| 1 |\n|---|\n|:-:|\n| B |\ntext\n| C |\n|---|\n";
    let doc = parse_markdown(md);
    assert_eq!(doc.tables.len(), 3);
    for k in 0..doc.tables.len() - 1 {
        assert!(doc.tables[k].end_line < doc.tables[k + 1].start_line);
    }
    assert_eq!(doc.tables[0].start_line, 0);
    assert_eq!(doc.tables[0].end_line, 2);
    assert_eq!(doc.tables[1].start_line, 3);
    assert_eq!(doc.tables[1].end_line, 5);
    assert_eq!(doc.tables[1].headers, strings(&["---"]));
    assert_eq!(doc.tables[1].alignments, strings(&["center"]));
    assert_eq!(doc.tables[2].start_line, 7);
}

#[test]
fn rows_are_fitted_to_header_count() {
    let md = "| A | B | C |\n|---|---|---|\n| 1 |\n| 1 | 2 | 3 | 4 |\n";
    let doc = parse_markdown(md);
    let t = &doc.tables[0];
    assert_eq!(t.rows[0], strings(&["1", "", ""]));
    assert_eq!(t.rows[1], strings(&["1", "2", "3"]));
    for row in &t.rows {
        assert_eq!(row.len(), t.headers.len());
    }
}

#[test]
fn lines_drop_carriage_returns() {
    let doc = parse_markdown("a\r\nb\n\nc");
    assert_eq!(doc.lines, strings(&["a", "b", "", "c"]));
    assert!(parse_markdown("").lines.is_empty());
}

#[test]
fn serialize_pads_columns() {
    let table = MarkdownTable {
        heading: None,
        headers: strings(&["Name", "A"]),
        alignments: strings(&["left", "right"]),
        rows: vec![strings(&["Alice", "30"]), strings(&["Bo"])],
        start_line: 0,
        end_line: 3,
    };
    let text = serialize_table(&table);
    assert_eq!(
        text,
        "| Name  | A   |\n|:------| ---:|\n| Alice | 30  |\n| Bo    |     |\n"
    );
}

#[test]
fn serialize_center_and_missing_alignment() {
    let table = MarkdownTable {
        heading: None,
        headers: strings(&["x", "y"]),
        alignments: strings(&["center"]),
        rows: vec![],
        start_line: 0,
        end_line: 1,
    };
    assert_eq!(serialize_table(&table), "| x   | y   |\n|:---:| ----|\n");
}

#[test]
fn rebuild_replaces_table_span() {
    let md = "# T\n\n| A | B |\n|---|---|\n| 1 | 2 |\nafter";
    let doc = parse_markdown(md);
    let text = rebuild_document(&doc.lines, &doc.tables);
    assert_eq!(text, "# T\n\n| A   | B   |\n| ----| ----|\n| 1   | 2   |\nafter");
}

#[test]
fn rebuild_trims_one_trailing_newline() {
    let doc = parse_markdown("| A |\n|---|\n");
    assert_eq!(rebuild_document(&doc.lines, &doc.tables), "| A   |\n| ----|");
}

#[test]
fn rebuild_keeps_final_blank_line() {
    let lines = strings(&["x", "| A |", "|---|", ""]);
    let doc = parse_markdown("x\n| A |\n|---|\n");
    assert_eq!(doc.tables[0].start_line, 1);
    let text = rebuild_document(&lines, &doc.tables);
    assert_eq!(text, "x\n| A   |\n| ----|\n\n");
}

#[test]
fn roundtrip_keeps_cells_of_two_tables() {
    let md = "# One\n| a | bb |\n|:-|-:|\n| 1 |\n\ntext | here\n## Two\n|x|\n|---|\n|y|\n|z|\n";
    let doc = parse_markdown(md);
    let text = rebuild_document(&doc.lines, &doc.tables);
    let again = parse_markdown(&text);
    assert_eq!(again.tables.len(), doc.tables.len());
    for k in 0..doc.tables.len() {
        assert_eq!(again.tables[k].headers, doc.tables[k].headers);
        assert_eq!(again.tables[k].rows, doc.tables[k].rows);
        assert_eq!(again.tables[k].alignments, doc.tables[k].alignments);
        assert_eq!(again.tables[k].heading, doc.tables[k].heading);
    }
}

#[test]
fn row_cut_to_dashes_reads_as_separator_after_rebuild() {
    let doc = parse_markdown("| A |\n|---|\n| -- | x |\n| y |\n");
    assert_eq!(doc.tables[0].rows, vec![strings(&["--"]), strings(&["y"])]);
    let text = rebuild_document(&doc.lines, &doc.tables);
    assert_eq!(text, "| A   |\n| ----|\n| --  |\n| y   |");
    let again = parse_markdown(&text);
    assert_eq!(again.tables[0].rows.len(), 0);
}

#[test]
fn spans_in_order_checks_rebuild_input() {
    let doc = parse_markdown("a\n| A |\n|---|\nb\n| B |\n|---|\n| 1 |\n");
    assert!(spans_in_order(doc.lines.len(), &doc.tables));
    assert!(!spans_in_order(3, &doc.tables));
    let mut swapped = doc.tables.clone();
    swapped.reverse();
    assert!(!spans_in_order(doc.lines.len(), &swapped));
    assert!(spans_in_order(0, &[]));
}
