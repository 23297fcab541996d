use markdown_sheet::files::{is_hidden_name, keep_entry, within_depth, MAX_TREE_DEPTH};

#[test]
fn hidden_entries_are_skipped() {
    assert!(!keep_entry(".notes.md", false, 0));
    assert!(!keep_entry(".git", true, 3));
}

#[test]
fn only_markdown_files_are_kept() {
    assert!(keep_entry("readme.md", false, 0));
    assert!(!keep_entry("readme.txt", false, 0));
    assert!(!keep_entry("md", false, 0));
    assert!(keep_entry(".md.md", false, 0) == false);
}

#[test]
fn folders_need_shown_children() {
    assert!(keep_entry("docs", true, 2));
    assert!(!keep_entry("docs", true, 0));
}

#[test]
fn depth_is_capped() {
    assert_eq!(MAX_TREE_DEPTH, 5);
    assert!(within_depth(0));
    assert!(within_depth(5));
    assert!(!within_depth(6));
}

#[test]
fn hidden_names_start_with_a_dot() {
    assert!(is_hidden_name(".git"));
    assert!(!is_hidden_name("notes.md"));
    assert!(!is_hidden_name(""));
}
