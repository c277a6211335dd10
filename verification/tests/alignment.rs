use diffview::diff::{align_full_file, clean_line};
use diffview::model::RowKind;

#[test]
fn equal_lines_align_in_lock_step() {
    let rows = align_full_file("a\nb\n", "a\nb\n");
    assert_eq!(rows.len(), 2);
    assert_eq!(rows[0].left_line_no, Some(1));
    assert_eq!(rows[0].right_line_no, Some(1));
    assert_eq!(rows[0].left_text, "a");
    assert_eq!(rows[0].right_text, "a");
    assert_eq!(rows[0].kind, RowKind::Equal);
    assert_eq!(rows[1].left_line_no, Some(2));
    assert_eq!(rows[1].right_line_no, Some(2));
    assert_eq!(rows[1].kind, RowKind::Equal);
}

#[test]
fn replaced_line_pairs_into_one_changed_row() {
    let rows = align_full_file("a\nb\nc\n", "a\nB\nc\n");
    assert_eq!(rows.len(), 3);
    assert_eq!(rows[0].kind, RowKind::Equal);
    assert_eq!(rows[1].kind, RowKind::Changed);
    assert_eq!(rows[1].left_text, "b");
    assert_eq!(rows[1].right_text, "B");
    assert_eq!(rows[1].left_line_no, Some(2));
    assert_eq!(rows[1].right_line_no, Some(2));
    assert_eq!(rows[2].kind, RowKind::Equal);
    assert_eq!(rows[2].left_line_no, Some(3));
    assert_eq!(rows[2].right_line_no, Some(3));
}

#[test]
fn inserted_line_leaves_baseline_cell_blank() {
    let rows = align_full_file("a\n", "a\nb\n");
    assert_eq!(rows.len(), 2);
    assert_eq!(rows[1].kind, RowKind::Insert);
    assert_eq!(rows[1].left_line_no, None);
    assert_eq!(rows[1].right_line_no, Some(2));
    assert_eq!(rows[1].left_text, "");
    assert_eq!(rows[1].right_text, "b");
}

#[test]
fn deleted_line_leaves_working_cell_blank() {
    let rows = align_full_file("a\nb\n", "a\n");
    assert_eq!(rows.len(), 2);
    assert_eq!(rows[1].kind, RowKind::Delete);
    assert_eq!(rows[1].left_line_no, Some(2));
    assert_eq!(rows[1].right_line_no, None);
    assert_eq!(rows[1].left_text, "b");
    assert_eq!(rows[1].right_text, "");
}

#[test]
fn unequal_replace_lengths_zip_by_index() {
    let rows = align_full_file("x\ny\nz\n", "X\n");
    assert_eq!(rows.len(), 3);
    assert_eq!(rows[0].kind, RowKind::Changed);
    assert_eq!(rows[0].left_text, "x");
    assert_eq!(rows[0].right_text, "X");
    assert_eq!(rows[1].kind, RowKind::Delete);
    assert_eq!(rows[1].left_line_no, Some(2));
    assert_eq!(rows[1].right_line_no, None);
    assert_eq!(rows[2].kind, RowKind::Delete);
    assert_eq!(rows[2].left_line_no, Some(3));
    assert_eq!(rows[2].right_line_no, None);
}

#[test]
fn empty_inputs_yield_single_synthetic_row() {
    let rows = align_full_file("", "");
    assert_eq!(rows.len(), 1);
    assert_eq!(rows[0].left_line_no, None);
    assert_eq!(rows[0].right_line_no, None);
    assert_eq!(rows[0].left_text, "");
    assert_eq!(rows[0].right_text, "");
    assert_eq!(rows[0].kind, RowKind::Equal);
}

#[test]
fn every_row_satisfies_the_presence_invariant() {
    let cases = [
        ("a\nb\nc\n", "a\nc\n"),
        ("", "x\ny\n"),
        ("one\ntwo\n", ""),
        ("same\n", "same\n"),
        ("a\nb\n", "b\na\n"),
    ];
    for (old, new) in cases {
        let rows = align_full_file(old, new);
        assert!(!rows.is_empty());
        for row in &rows {
            match row.kind {
                RowKind::Equal => {
                    assert_eq!(row.left_text, row.right_text);
                    assert!(row.left_line_no.is_some());
                    assert!(row.right_line_no.is_some());
                }
                RowKind::Changed => {
                    assert!(row.left_line_no.is_some());
                    assert!(row.right_line_no.is_some());
                }
                RowKind::Insert => {
                    assert!(row.left_line_no.is_none());
                    assert!(row.right_line_no.is_some());
                }
                RowKind::Delete => {
                    assert!(row.left_line_no.is_some());
                    assert!(row.right_line_no.is_none());
                }
            }
        }
    }
}

#[test]
fn clean_line_strips_trailing_newline_and_carriage_return() {
    assert_eq!(clean_line("abc\n"), "abc");
    assert_eq!(clean_line("abc\r\n"), "abc");
    assert_eq!(clean_line("abc"), "abc");
    assert_eq!(clean_line("abc\r"), "abc\r");
    assert_eq!(clean_line("ab\rc\n"), "ab\rc");
    assert_eq!(clean_line(""), "");
    assert_eq!(clean_line("\n"), "");
    assert_eq!(clean_line("\r\n"), "");
    assert_eq!(clean_line("\r"), "\r");
}

#[test]
fn crlf_lines_display_without_line_endings() {
    let rows = align_full_file("a\r\nb\r\n", "a\r\nc\r\n");
    assert_eq!(rows[0].left_text, "a");
    assert_eq!(rows[0].kind, RowKind::Equal);
    assert_eq!(rows[1].left_text, "b");
    assert_eq!(rows[1].right_text, "c");
}
