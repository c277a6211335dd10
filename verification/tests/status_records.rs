use diffview::status::{collect_changed_files, parse_xy, split_fields};

fn entries(list: &[&str]) -> Vec<String> {
    list.iter().map(|s| s.to_string()).collect()
}

#[test]
fn tracked_records_carry_flags_and_path() {
    let files = collect_changed_files(&entries(&[
        "# branch.oid deadbeef",
        "1 .M N... 100644 100644 100644 0123 4567 src/lib.rs",
        "1 M. N... 100644 100644 100644 89ab cdef src/app.rs",
    ]));

    assert_eq!(files.len(), 2);
    assert_eq!(files[0].path, "src/app.rs");
    assert!(files[0].status.staged);
    assert!(!files[0].status.unstaged);
    assert!(!files[0].status.untracked);
    assert_eq!(files[1].path, "src/lib.rs");
    assert!(!files[1].status.staged);
    assert!(files[1].status.unstaged);
}

#[test]
fn untracked_records_are_flagged_and_directories_dropped() {
    let files = collect_changed_files(&entries(&["? notes.txt", "? build/"]));

    assert_eq!(files.len(), 1);
    assert_eq!(files[0].path, "notes.txt");
    assert!(files[0].status.untracked);
    assert!(files[0].status.unstaged);
    assert!(!files[0].status.staged);
    assert!(files[0].old_content.is_none());
    assert!(files[0].aligned_rows.is_none());
}

#[test]
fn rename_records_consume_the_original_path_entry() {
    let files = collect_changed_files(&entries(&[
        "2 R. N... 100644 100644 100644 0123 4567 R100 renamed.rs",
        "original.rs",
        "1 .M N... 100644 100644 100644 89ab cdef zz.rs",
    ]));

    assert_eq!(files.len(), 2);
    assert_eq!(files[0].path, "renamed.rs");
    assert!(files[0].status.staged);
    assert!(!files[0].status.unstaged);
    assert_eq!(files[1].path, "zz.rs");
}

#[test]
fn files_come_back_sorted_by_path() {
    let files = collect_changed_files(&entries(&[
        "? zebra.txt",
        "? alpha.txt",
        "? middle/file.txt",
    ]));

    let paths: Vec<&str> = files.iter().map(|f| f.path.as_str()).collect();
    assert_eq!(paths, vec!["alpha.txt", "middle/file.txt", "zebra.txt"]);
}

#[test]
fn paths_sort_component_wise() {
    let files = collect_changed_files(&entries(&["? a-b.txt", "? a.txt", "? a/c.txt"]));

    let paths: Vec<&str> = files.iter().map(|f| f.path.as_str()).collect();
    assert_eq!(paths, vec!["a/c.txt", "a-b.txt", "a.txt"]);
}

#[test]
fn malformed_records_are_skipped() {
    let files = collect_changed_files(&entries(&["1", "stray words", "# header"]));
    assert!(files.is_empty());
}

#[test]
fn parse_xy_reads_both_sides() {
    assert_eq!(parse_xy("MM"), (true, true));
    assert_eq!(parse_xy(".M"), (false, true));
    assert_eq!(parse_xy("M."), (true, false));
    assert_eq!(parse_xy(".."), (false, false));
    assert_eq!(parse_xy(""), (false, false));
    assert_eq!(parse_xy("A"), (true, false));
}

#[test]
fn split_fields_drops_empty_runs() {
    assert_eq!(split_fields("a  b\tc"), vec!["a", "b", "c"]);
    assert_eq!(split_fields("  leading"), vec!["leading"]);
    assert_eq!(split_fields(""), Vec::<String>::new());
    assert_eq!(split_fields("a\u{a0}b\u{2003}c"), vec!["a", "b", "c"]);
}
