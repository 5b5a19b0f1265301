use rtext::{Document, Position, SearchDirection, Type};

fn texts(doc: &Document) -> Vec<String> {
    let mut out = Vec::new();
    let mut i = 0;
    while let Some(row) = doc.row(i) {
        out.push(row.as_str().to_string());
        i += 1;
    }
    out
}

fn pos(x: usize, y: usize) -> Position {
    Position { x, y }
}

#[test]
fn open_rust_document_and_find_main() {
    let doc = Document::from_text("main.rs", "fn main() {\n}\n");
    assert_eq!(doc.len(), 2);
    assert_eq!(doc.file_type(), "Rust");
    assert_eq!(
        doc.find("main", &pos(0, 0), SearchDirection::Forward),
        Some(pos(3, 0))
    );
}

#[test]
fn open_splits_lines_without_phantom_row() {
    assert_eq!(texts(&Document::from_text("a.txt", "a\n\nb")), vec!["a", "", "b"]);
    assert_eq!(texts(&Document::from_text("a.txt", "a\nb\n")), vec!["a", "b"]);
    assert_eq!(texts(&Document::from_text("a.txt", "\n")), vec![""]);
    assert!(Document::from_text("a.txt", "").is_empty());
}

#[test]
fn open_keeps_carriage_returns() {
    assert_eq!(texts(&Document::from_text("a.txt", "a\r\nb\r\n")), vec!["a\r", "b\r"]);
}

#[test]
fn open_highlights_rows_and_is_clean() {
    let doc = Document::from_text("x.rs", "a 1\n");
    assert!(!doc.is_dirty());
    assert_eq!(doc.file_name, Some(String::from("x.rs")));
    assert_eq!(
        doc.row(0).unwrap().highlighting(),
        &vec![Type::Normal, Type::Normal, Type::Number]
    );
    assert_eq!(Document::from_text("x.txt", "").file_type(), "No filetype");
}

#[test]
fn save_then_open_round_trip() {
    let doc = Document::from_text("abc.txt", "a\nb\nc");
    let saved = doc.contents();
    assert_eq!(saved, "a\nb\nc\n");
    let reopened = Document::from_text("abc.txt", &saved);
    assert_eq!(reopened.len(), 3);
    assert_eq!(texts(&reopened), vec!["a", "b", "c"]);
    assert!(!reopened.is_dirty());
}

#[test]
fn default_document_is_empty_and_clean() {
    let doc = Document::default();
    assert!(doc.is_empty());
    assert_eq!(doc.len(), 0);
    assert!(!doc.is_dirty());
    assert_eq!(doc.file_name, None);
    assert_eq!(doc.file_type(), "No filetype");
    assert!(doc.row(0).is_none());
}

#[test]
fn insert_into_empty_document_adds_row() {
    let mut doc = Document::default();
    doc.insert(&pos(0, 0), 'x');
    assert_eq!(texts(&doc), vec!["x"]);
    assert!(doc.is_dirty());
}

#[test]
fn insert_beyond_last_row_is_refused() {
    let mut doc = Document::from_text("a.txt", "ab\n");
    doc.insert(&pos(0, 2), 'x');
    assert_eq!(texts(&doc), vec!["ab"]);
    assert!(!doc.is_dirty());
}

#[test]
fn insert_into_existing_row() {
    let mut doc = Document::from_text("a.rs", "ac\n");
    doc.insert(&pos(1, 0), '5');
    assert_eq!(texts(&doc), vec!["a5c"]);
    assert!(doc.is_dirty());
    assert_eq!(
        doc.row(0).unwrap().highlighting(),
        &vec![Type::Normal, Type::Normal, Type::Normal]
    );
}

#[test]
fn newline_splits_row_after_cursor_cluster() {
    let mut doc = Document::from_text("a.txt", "hello\n");
    doc.insert(&pos(1, 0), '\n');
    assert_eq!(texts(&doc), vec!["he", "llo"]);
}

#[test]
fn newline_past_last_row_appends_empty_row() {
    let mut doc = Document::from_text("a.txt", "ab\n");
    doc.insert(&pos(0, 1), '\n');
    assert_eq!(texts(&doc), vec!["ab", ""]);
    assert!(doc.is_dirty());
}

#[test]
fn delete_at_end_of_row_merges_next() {
    let mut doc = Document::from_text("a.txt", "ab\ncd\n");
    doc.delete(&pos(2, 0));
    assert_eq!(texts(&doc), vec!["abcd"]);
    assert!(doc.is_dirty());
}

#[test]
fn delete_inside_row_removes_cluster() {
    let mut doc = Document::from_text("a.txt", "ab\ncd\n");
    doc.delete(&pos(0, 1));
    assert_eq!(texts(&doc), vec!["ab", "d"]);
}

#[test]
fn delete_at_end_of_last_row_does_not_merge() {
    let mut doc = Document::from_text("a.txt", "ab\n");
    doc.delete(&pos(2, 0));
    assert_eq!(texts(&doc), vec!["ab"]);
    assert!(doc.is_dirty());
}

#[test]
fn delete_beyond_rows_is_refused() {
    let mut doc = Document::from_text("a.txt", "ab\n");
    doc.delete(&pos(0, 1));
    assert_eq!(texts(&doc), vec!["ab"]);
    assert!(!doc.is_dirty());
}

#[test]
fn newline_at_end_then_delete_restores_rows() {
    let mut doc = Document::from_text("a.txt", "ab\ncd\n");
    doc.insert(&pos(2, 0), '\n');
    assert_eq!(texts(&doc), vec!["ab", "", "cd"]);
    doc.delete(&pos(0, 1));
    assert_eq!(texts(&doc), vec!["ab", "cd"]);
}

#[test]
fn newline_at_end_of_single_row_then_delete_leaves_empty_row() {
    let mut doc = Document::from_text("a.txt", "ab\n");
    doc.insert(&pos(2, 0), '\n');
    doc.delete(&pos(0, 1));
    assert_eq!(texts(&doc), vec!["ab", ""]);
}

#[test]
fn find_forward_across_rows() {
    let doc = Document::from_text("a.txt", "abc\nxyz\nabc\n");
    assert_eq!(doc.find("abc", &pos(1, 0), SearchDirection::Forward), Some(pos(0, 2)));
    assert_eq!(doc.find("xyz", &pos(1, 1), SearchDirection::Forward), None);
    assert_eq!(doc.find("abc", &pos(0, 3), SearchDirection::Forward), None);
}

#[test]
fn find_backward_across_rows() {
    let doc = Document::from_text("a.txt", "abc\nxyz\nabc\n");
    assert_eq!(doc.find("abc", &pos(0, 2), SearchDirection::Backward), Some(pos(0, 0)));
    assert_eq!(doc.find("y", &pos(0, 2), SearchDirection::Backward), Some(pos(1, 1)));
    assert_eq!(doc.find("q", &pos(3, 2), SearchDirection::Backward), None);
}

#[test]
fn backward_search_starts_prior_row_at_its_own_end() {
    let doc = Document::from_text("a.txt", "abcdefgh\nz\n");
    assert_eq!(doc.find("gh", &pos(0, 1), SearchDirection::Backward), Some(pos(6, 0)));
}

#[test]
fn highlight_word_across_document() {
    let mut doc = Document::from_text("a.txt", "ab\nba\n");
    doc.highlight(Some("a"));
    assert_eq!(doc.row(0).unwrap().highlighting(), &vec![Type::Match, Type::Normal]);
    assert_eq!(doc.row(1).unwrap().highlighting(), &vec![Type::Normal, Type::Match]);
    doc.highlight(None);
    assert_eq!(doc.row(1).unwrap().highlighting(), &vec![Type::Normal, Type::Normal]);
}

#[test]
fn mark_saved_rederives_file_type_and_cleans() {
    let mut doc = Document::from_text("a.txt", "7\n");
    doc.insert(&pos(1, 0), '1');
    assert!(doc.is_dirty());
    doc.file_name = Some(String::from("b.rs"));
    doc.mark_saved();
    assert!(!doc.is_dirty());
    assert_eq!(doc.file_type(), "Rust");
    assert_eq!(doc.row(0).unwrap().highlighting(), &vec![Type::Number, Type::Number]);
}

#[test]
fn mark_saved_without_name_changes_nothing() {
    let mut doc = Document::default();
    doc.insert(&pos(0, 0), 'x');
    doc.mark_saved();
    assert!(doc.is_dirty());
}

#[test]
fn typing_leaves_other_rows_tags_alone() {
    let mut doc = Document::from_text("a.txt", "ab\nb\nbb\n");
    doc.highlight(Some("b"));
    doc.insert(&pos(0, 1), 'x');
    assert_eq!(texts(&doc), vec!["ab", "xb", "bb"]);
    assert_eq!(doc.row(0).unwrap().highlighting(), &vec![Type::Normal, Type::Match]);
    assert_eq!(doc.row(1).unwrap().highlighting(), &vec![Type::Normal, Type::Normal]);
    assert_eq!(doc.row(2).unwrap().highlighting(), &vec![Type::Match, Type::Match]);
}

#[test]
fn line_break_shifts_later_rows_whole() {
    let mut doc = Document::from_text("a.txt", "ab\ncd\nb\n");
    doc.highlight(Some("b"));
    doc.insert(&pos(0, 1), '\n');
    assert_eq!(texts(&doc), vec!["ab", "c", "d", "b"]);
    assert_eq!(doc.row(0).unwrap().highlighting(), &vec![Type::Normal, Type::Match]);
    assert_eq!(doc.row(3).unwrap().highlighting(), &vec![Type::Match]);
}

#[test]
fn merge_shifts_later_rows_whole() {
    let mut doc = Document::from_text("a.txt", "b\ncd\ne\nb\n");
    doc.highlight(Some("b"));
    doc.delete(&pos(2, 1));
    assert_eq!(texts(&doc), vec!["b", "cde", "b"]);
    assert_eq!(doc.row(0).unwrap().highlighting(), &vec![Type::Match]);
    assert_eq!(doc.row(2).unwrap().highlighting(), &vec![Type::Match]);
}
