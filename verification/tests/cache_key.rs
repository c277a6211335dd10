use diffview::cache::HighlightCache;
use diffview::model::{ChangedFile, ContentData, FileStatus};

#[test]
fn first_lookup_misses_and_repeat_hits() {
    let mut cache = HighlightCache::new();
    let path = "src/lib.rs".to_string();

    assert!(cache.check_and_update(&path, 1, 1, 10));
    assert!(!cache.check_and_update(&path, 1, 1, 10));
    assert!(!cache.check_and_update(&path, 1, 1, 10));
}

#[test]
fn any_changed_component_invalidates() {
    let path = "src/lib.rs".to_string();
    let other = "src/main.rs".to_string();

    let mut cache = HighlightCache::new();
    cache.check_and_update(&path, 1, 1, 10);
    assert!(cache.check_and_update(&path, 2, 1, 10), "epoch bump must miss");

    let mut cache = HighlightCache::new();
    cache.check_and_update(&path, 1, 1, 10);
    assert!(
        cache.check_and_update(&path, 1, 2, 10),
        "row-buffer replacement must miss"
    );

    let mut cache = HighlightCache::new();
    cache.check_and_update(&path, 1, 1, 10);
    assert!(cache.check_and_update(&path, 1, 1, 11), "row count change must miss");

    let mut cache = HighlightCache::new();
    cache.check_and_update(&path, 1, 1, 10);
    assert!(cache.check_and_update(&other, 1, 1, 10), "file change must miss");
}

#[test]
fn selecting_back_and_forth_recomputes_each_time() {
    let mut cache = HighlightCache::new();
    let a = "a.rs".to_string();
    let b = "b.rs".to_string();

    assert!(cache.check_and_update(&a, 1, 1, 3));
    assert!(cache.check_and_update(&b, 1, 1, 5));
    assert!(cache.check_and_update(&a, 1, 1, 3));
}

#[test]
fn load_bumps_version_so_fresh_rows_invalidate() {
    let mut app = diffview::app::App::new(vec![ChangedFile::new(
        "a.txt".to_string(),
        FileStatus {
            staged: false,
            unstaged: true,
            untracked: false,
        },
    )]);
    let mut cache = HighlightCache::new();
    let path = "a.txt".to_string();

    let before = app.rows_version;
    assert!(cache.check_and_update(&path, app.highlight_epoch, app.rows_version, 0));

    app.ensure_selected_loaded(
        ContentData::Text("x\n".to_string()),
        ContentData::Text("y\n".to_string()),
    );
    assert_ne!(app.rows_version, before);
    assert!(cache.check_and_update(&path, app.highlight_epoch, app.rows_version, 1));
}

#[test]
fn utf8_bytes_decode_to_text_and_others_to_binary() {
    match diffview::model::bytes_to_content(b"hello\n".to_vec()) {
        ContentData::Text(s) => assert_eq!(s, "hello\n"),
        ContentData::Binary => panic!("valid utf-8 must decode"),
    }
    assert!(matches!(
        diffview::model::bytes_to_content(vec![0xff, 0xfe, 0x00]),
        ContentData::Binary
    ));
}
