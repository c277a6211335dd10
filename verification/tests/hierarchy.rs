use diffview::model::{ChangedFile, FileStatus};
use diffview::tree::{build_tree, flatten_tree, split_path, str_lex_lt};

fn unstaged_file(path: &str) -> ChangedFile {
    ChangedFile::new(
        path.to_string(),
        FileStatus {
            staged: false,
            unstaged: true,
            untracked: false,
        },
    )
}

#[test]
fn flattened_rows_order_directories_before_files_lexicographically() {
    let files = vec![
        unstaged_file("b/x.txt"),
        unstaged_file("a.txt"),
        unstaged_file("b/a.txt"),
    ];
    let tree = build_tree(&files);
    let rows = flatten_tree(&tree, &files);

    assert_eq!(rows.len(), 4);

    assert_eq!(rows[0].depth, 0);
    assert!(rows[0].is_dir);
    assert_eq!(rows[0].label, "b/");
    assert_eq!(rows[0].file_index, None);

    assert_eq!(rows[1].depth, 1);
    assert!(!rows[1].is_dir);
    assert_eq!(rows[1].label, "[U] a.txt");
    assert_eq!(rows[1].file_index, Some(2));

    assert_eq!(rows[2].depth, 1);
    assert!(!rows[2].is_dir);
    assert_eq!(rows[2].label, "[U] x.txt");
    assert_eq!(rows[2].file_index, Some(0));

    assert_eq!(rows[3].depth, 0);
    assert!(!rows[3].is_dir);
    assert_eq!(rows[3].label, "[U] a.txt");
    assert_eq!(rows[3].file_index, Some(1));
}

#[test]
fn deep_paths_share_intermediate_directories() {
    let files = vec![
        unstaged_file("src/app/one.rs"),
        unstaged_file("src/app/two.rs"),
        unstaged_file("src/lib.rs"),
    ];
    let tree = build_tree(&files);
    let rows = flatten_tree(&tree, &files);

    let labels: Vec<&str> = rows.iter().map(|r| r.label.as_str()).collect();
    assert_eq!(
        labels,
        vec!["src/", "app/", "[U] one.rs", "[U] two.rs", "[U] lib.rs"]
    );
    let depths: Vec<usize> = rows.iter().map(|r| r.depth).collect();
    assert_eq!(depths, vec![0, 1, 2, 2, 1]);
}

#[test]
fn status_indicators_follow_the_five_way_rule() {
    let cases = [
        (false, false, false, "[ ]"),
        (true, false, false, "[S]"),
        (false, true, false, "[U]"),
        (true, true, false, "[SU]"),
        (true, true, true, "[N]"),
        (false, false, true, "[N]"),
    ];
    for (staged, unstaged, untracked, expected) in cases {
        let status = FileStatus {
            staged,
            unstaged,
            untracked,
        };
        assert_eq!(status.indicator(), expected);
    }
}

#[test]
fn untracked_files_show_their_indicator_in_the_tree() {
    let files = vec![ChangedFile::new(
        "fresh.txt".to_string(),
        FileStatus {
            staged: false,
            unstaged: true,
            untracked: true,
        },
    )];
    let tree = build_tree(&files);
    let rows = flatten_tree(&tree, &files);
    assert_eq!(rows.len(), 1);
    assert_eq!(rows[0].label, "[N] fresh.txt");
}

#[test]
fn split_path_drops_empty_and_dot_segments() {
    let segs = split_path("a//b/./c/../d");
    assert_eq!(segs, vec!["a", "b", "c", "d"]);
    assert_eq!(split_path(""), Vec::<String>::new());
    assert_eq!(split_path("plain.txt"), vec!["plain.txt"]);
    assert_eq!(split_path("dir/"), vec!["dir"]);
}

#[test]
fn lexicographic_order_compares_by_code_point() {
    assert!(str_lex_lt("a", "b"));
    assert!(!str_lex_lt("b", "a"));
    assert!(str_lex_lt("a", "ab"));
    assert!(!str_lex_lt("ab", "a"));
    assert!(!str_lex_lt("same", "same"));
    assert!(str_lex_lt("A", "a"));
}
