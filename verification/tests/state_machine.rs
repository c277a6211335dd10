use diffview::app::{App, Action, Effect};
use diffview::model::ContentData;
use diffview::model::{AlignedRow, ChangedFile, FileStatus, RowKind};

fn app_for_test() -> App {
    App {
        files: Vec::new(),
        tree_rows: Vec::new(),
        show_tree: true,
        tree_h_scroll: 0,
        selected_file_idx: 0,
        v_scroll: 0,
        h_scroll: 0,
        viewport_rows: 1,
        highlight_epoch: 0,
        rows_version: 0,
        g_prefix_pending: false,
        should_quit: false,
    }
}

fn changed_file(path: &str) -> ChangedFile {
    ChangedFile::new(
        path.to_string(),
        FileStatus {
            staged: false,
            unstaged: true,
            untracked: false,
        },
    )
}

fn equal_row(no: usize, text: &str) -> AlignedRow {
    AlignedRow {
        left_line_no: Some(no),
        right_line_no: Some(no),
        left_text: text.to_string(),
        right_text: text.to_string(),
        kind: RowKind::Equal,
    }
}

fn changed_row(no: usize, left: &str, right: &str) -> AlignedRow {
    AlignedRow {
        left_line_no: Some(no),
        right_line_no: Some(no),
        left_text: left.to_string(),
        right_text: right.to_string(),
        kind: RowKind::Changed,
    }
}

fn insert_row(no: usize, text: &str) -> AlignedRow {
    AlignedRow {
        left_line_no: None,
        right_line_no: Some(no),
        left_text: String::new(),
        right_text: text.to_string(),
        kind: RowKind::Insert,
    }
}

#[test]
fn toggle_tree_action_flips_visibility_flag() {
    let mut app = app_for_test();

    app.on_action(Action::ToggleTree);
    assert!(!app.show_tree);

    app.on_action(Action::ToggleTree);
    assert!(app.show_tree);
}

#[test]
fn tree_horizontal_scroll_actions_adjust_tree_offset() {
    let mut app = app_for_test();

    app.on_action(Action::TreeScrollRight);
    app.on_action(Action::TreeScrollRight);
    assert_eq!(app.tree_h_scroll, 2);

    app.on_action(Action::TreeScrollLeft);
    app.on_action(Action::TreeScrollLeft);
    app.on_action(Action::TreeScrollLeft);
    assert_eq!(app.tree_h_scroll, 0);
}

#[test]
fn apply_refreshed_files_preserves_selection_by_path() {
    let mut app = app_for_test();
    app.files = vec![changed_file("a.rs"), changed_file("b.rs")];
    app.selected_file_idx = 1;
    app.v_scroll = 9;
    app.h_scroll = 4;

    app.apply_refreshed_files(vec![changed_file("b.rs"), changed_file("c.rs")]);

    assert_eq!(app.selected_file_idx, 0);
    assert_eq!(app.v_scroll, 9);
    assert_eq!(app.h_scroll, 4);
}

#[test]
fn apply_refreshed_files_resets_scroll_if_selection_replaced() {
    let mut app = app_for_test();
    app.files = vec![changed_file("a.rs"), changed_file("b.rs")];
    app.selected_file_idx = 1;
    app.v_scroll = 9;
    app.h_scroll = 4;

    app.apply_refreshed_files(vec![changed_file("a.rs"), changed_file("c.rs")]);

    assert_eq!(app.selected_file_idx, 1);
    assert_eq!(app.v_scroll, 0);
    assert_eq!(app.h_scroll, 0);
}

#[test]
fn apply_refreshed_files_bumps_highlight_epoch() {
    let mut app = app_for_test();
    app.highlight_epoch = u64::MAX;

    app.apply_refreshed_files(vec![changed_file("a.rs")]);

    assert_eq!(app.highlight_epoch, 0);
}

#[test]
fn refresh_action_reports_refresh_wanted() {
    let mut app = app_for_test();
    let effect = app.on_action(Action::Refresh);
    assert!(matches!(effect, Effect::RefreshWanted));
    let effect = app.on_action(Action::ScrollDown);
    assert!(matches!(effect, Effect::Handled));
}

#[test]
fn quit_action_sets_quit_flag() {
    let mut app = app_for_test();
    assert!(!app.should_quit);
    app.on_action(Action::Quit);
    assert!(app.should_quit);
}

#[test]
fn prefix_twice_jumps_to_top_and_other_actions_disarm_it() {
    let mut app = app_for_test();
    app.files = vec![{
        let mut f = changed_file("a.rs");
        f.aligned_rows = Some((1..=10).map(|n| equal_row(n, "x")).collect());
        f
    }];
    app.viewport_rows = 4;
    app.v_scroll = 5;

    app.on_action(Action::PrefixG);
    assert!(app.g_prefix_pending);
    assert_eq!(app.v_scroll, 5);

    app.on_action(Action::ScrollDown);
    assert!(!app.g_prefix_pending);

    app.on_action(Action::PrefixG);
    app.on_action(Action::PrefixG);
    assert_eq!(app.v_scroll, 0);
    assert!(!app.g_prefix_pending);
}

#[test]
fn scroll_down_clamps_to_max_offset() {
    let mut app = app_for_test();
    app.files = vec![{
        let mut f = changed_file("a.rs");
        f.aligned_rows = Some((1..=10).map(|n| equal_row(n, "line")).collect());
        f
    }];
    app.viewport_rows = 4;

    for _ in 0..20 {
        app.on_action(Action::ScrollDown);
        assert!(app.v_scroll <= 6);
    }
    assert_eq!(app.v_scroll, 6);

    app.set_viewport_rows(20);
    assert_eq!(app.v_scroll, 0);
}

#[test]
fn go_bottom_and_page_actions_respect_bounds() {
    let mut app = app_for_test();
    app.files = vec![{
        let mut f = changed_file("a.rs");
        f.aligned_rows = Some((1..=10).map(|n| equal_row(n, "line")).collect());
        f
    }];
    app.viewport_rows = 4;

    app.on_action(Action::GoBottom);
    assert_eq!(app.v_scroll, 6);

    app.on_action(Action::PageUp);
    assert_eq!(app.v_scroll, 4);

    app.on_action(Action::PageDown);
    assert_eq!(app.v_scroll, 6);
}

#[test]
fn change_block_jumps_cycle_through_blocks() {
    let rows = vec![
        equal_row(1, "a"),
        changed_row(2, "b", "B"),
        changed_row(3, "c", "C"),
        equal_row(4, "d"),
        insert_row(5, "e"),
        equal_row(5, "f"),
    ];
    let starts = diffview::app::change_block_starts(&rows);
    assert_eq!(starts, vec![1, 4]);

    let mut app = app_for_test();
    app.files = vec![{
        let mut f = changed_file("a.rs");
        f.aligned_rows = Some(rows);
        f
    }];
    app.viewport_rows = 1;

    app.on_action(Action::NextChange);
    assert_eq!(app.v_scroll, 1);
    app.on_action(Action::NextChange);
    assert_eq!(app.v_scroll, 4);
    app.on_action(Action::NextChange);
    assert_eq!(app.v_scroll, 1);

    app.on_action(Action::PrevChange);
    assert_eq!(app.v_scroll, 4);
}

#[test]
fn selection_wraps_over_reachable_files() {
    let mut app = app_for_test();
    app.files = vec![changed_file("a.rs"), changed_file("b.rs")];
    let tree = diffview::tree::build_tree(&app.files);
    app.tree_rows = diffview::tree::flatten_tree(&tree, &app.files);
    app.selected_file_idx = 0;

    app.on_action(Action::SelectNextFile);
    assert_eq!(app.selected_file_idx, 1);
    app.on_action(Action::SelectNextFile);
    assert_eq!(app.selected_file_idx, 0);
    app.on_action(Action::SelectPrevFile);
    assert_eq!(app.selected_file_idx, 1);
}

#[test]
fn loading_selected_file_is_idempotent() {
    let mut app = app_for_test();
    app.files = vec![changed_file("a.rs")];

    app.ensure_selected_loaded(
        ContentData::Text("old\n".to_string()),
        ContentData::Text("new\n".to_string()),
    );
    let first_rows = app.files[0].aligned_rows.clone().expect("rows loaded");
    let first_version = app.rows_version;

    app.ensure_selected_loaded(
        ContentData::Text("other\n".to_string()),
        ContentData::Text("values\n".to_string()),
    );
    let second_rows = app.files[0].aligned_rows.clone().expect("rows still loaded");

    assert_eq!(second_rows.len(), first_rows.len());
    for (a, b) in first_rows.iter().zip(second_rows.iter()) {
        assert_eq!(a.left_text, b.left_text);
        assert_eq!(a.right_text, b.right_text);
        assert_eq!(a.kind, b.kind);
        assert_eq!(a.left_line_no, b.left_line_no);
        assert_eq!(a.right_line_no, b.right_line_no);
    }
    assert_eq!(app.rows_version, first_version);
}

#[test]
fn binary_content_yields_placeholder_row() {
    let mut app = app_for_test();
    app.files = vec![changed_file("blob.bin")];

    app.ensure_selected_loaded(
        ContentData::Binary,
        ContentData::Text("text\n".to_string()),
    );
    let rows = app.files[0].aligned_rows.as_ref().expect("rows loaded");
    assert_eq!(rows.len(), 1);
    assert_eq!(rows[0].left_text, "[binary or non-utf8 file]");
    assert_eq!(rows[0].right_text, "[binary or non-utf8 file]");
    assert_eq!(rows[0].kind, RowKind::Changed);
    assert_eq!(rows[0].left_line_no, None);
    assert_eq!(rows[0].right_line_no, None);
}

#[test]
fn new_app_starts_on_first_file_with_fresh_state() {
    let app = App::new(vec![changed_file("a.rs"), changed_file("b.rs")]);
    assert_eq!(app.selected_file_idx, 0);
    assert_eq!(app.v_scroll, 0);
    assert_eq!(app.h_scroll, 0);
    assert_eq!(app.highlight_epoch, 0);
    assert!(app.show_tree);
    assert!(!app.should_quit);
    assert_eq!(app.tree_rows.len(), 2);
}
