//! View-state machine: owns the changed-file list, the flattened tree
//! rows, selection, scroll offsets, viewport size, the highlight
//! invalidation epoch, and the two-step prefix state, and exposes a single
//! action-dispatch entry point whose behaviour is [`dispatch_spec`].
//!
//! Reading file content and enumerating changed paths are outside
//! collaborators: dispatch reports when a refresh is wanted, and loaded
//! content is handed in as plain values.

use vstd::prelude::*;

use crate::diff::aligned_of;
use crate::diff::align_full_file;
use crate::model::AlignedRow;
use crate::model::AlignedRowV;
use crate::model::ChangedFile;
use crate::model::ChangedFileV;
use crate::model::ContentData;
use crate::model::ContentDataV;
use crate::model::FileStatus;
use crate::model::RowKind;
use crate::model::TreeRow;
use crate::model::TreeRowV;
use crate::model::content_view;
use crate::model::file_view;
use crate::model::files_view;
use crate::model::row_view;
use crate::model::rows_view;
use crate::model::tree_row_view;
use crate::model::tree_rows_view;
use crate::tree::build_tree;
use crate::tree::build_tree_spec;
use crate::tree::flatten_spec;
use crate::tree::flatten_tree;
use crate::tree::paths_of;
use crate::tree::statuses_of;

verus! {

/// The closed set of user actions the state machine dispatches.
#[derive(Debug, Clone, Copy, PartialEq, Eq, Structural)]
pub enum Action {
    SelectPrevFile,
    SelectNextFile,
    ToggleTree,
    Refresh,
    TreeScrollLeft,
    TreeScrollRight,
    ScrollDown,
    ScrollUp,
    PageDown,
    PageUp,
    ScrollLeft,
    ScrollRight,
    PrefixG,
    GoBottom,
    NextChange,
    PrevChange,
    Quit,
    Noop,
}

/// What the caller of `on_action` owes the state machine afterwards:
/// nothing, or a re-enumeration of the changed files.
#[derive(Debug, Clone, Copy, PartialEq, Eq, Structural)]
pub enum Effect {
    Handled,
    RefreshWanted,
}

/// The view state of the change viewer.
pub struct App {
    pub files: Vec<ChangedFile>,
    pub tree_rows: Vec<TreeRow>,
    pub show_tree: bool,
    pub tree_h_scroll: usize,
    pub selected_file_idx: usize,
    pub v_scroll: usize,
    pub h_scroll: usize,
    pub viewport_rows: usize,
    pub highlight_epoch: u64,
    pub rows_version: u64,
    pub g_prefix_pending: bool,
    pub should_quit: bool,
}

/// Mathematical view of `App`.
#[verifier::ext_equal]
pub ghost struct AppV {
    pub files: Seq<ChangedFileV>,
    pub tree_rows: Seq<TreeRowV>,
    pub show_tree: bool,
    pub tree_h_scroll: usize,
    pub selected_file_idx: usize,
    pub v_scroll: usize,
    pub h_scroll: usize,
    pub viewport_rows: usize,
    pub highlight_epoch: u64,
    pub rows_version: u64,
    pub g_prefix_pending: bool,
    pub should_quit: bool,
}

pub open spec fn app_view(a: App) -> AppV {
    AppV {
        files: files_view(a.files@),
        tree_rows: tree_rows_view(a.tree_rows@),
        show_tree: a.show_tree,
        tree_h_scroll: a.tree_h_scroll,
        selected_file_idx: a.selected_file_idx,
        v_scroll: a.v_scroll,
        h_scroll: a.h_scroll,
        viewport_rows: a.viewport_rows,
        highlight_epoch: a.highlight_epoch,
        rows_version: a.rows_version,
        g_prefix_pending: a.g_prefix_pending,
        should_quit: a.should_quit,
    }
}

/// Saturating addition on `usize`.
pub open spec fn sat_add(x: usize, y: usize) -> usize {
    if x + y <= usize::MAX {
        (x + y) as usize
    } else {
        usize::MAX
    }
}

/// Saturating subtraction on `usize`.
pub open spec fn sat_sub(x: usize, y: usize) -> usize {
    if x >= y {
        (x - y) as usize
    } else {
        0
    }
}

/// Incrementing a wrap-around counter: the maximum value wraps to zero.
pub open spec fn wrap_inc(e: u64) -> u64 {
    if e == u64::MAX {
        0
    } else {
        (e + 1) as u64
    }
}

/// The aligned rows of the currently selected file, if any are loaded.
pub open spec fn selected_rows_v(a: AppV) -> Option<Seq<AlignedRowV>> {
    if a.selected_file_idx < a.files.len() {
        a.files[a.selected_file_idx as int].aligned_rows
    } else {
        Option::None
    }
}

pub open spec fn total_rows_v(a: AppV) -> int {
    match selected_rows_v(a) {
        Option::Some(rows) => rows.len() as int,
        Option::None => 0,
    }
}

/// The largest valid vertical scroll offset for the current selection and
/// viewport.
pub open spec fn max_v_scroll_v(a: AppV) -> int {
    if total_rows_v(a) >= a.viewport_rows {
        total_rows_v(a) - a.viewport_rows
    } else {
        0
    }
}

/// The scroll clamp that ends every dispatch: the vertical offset is
/// forced into `[0, max_v_scroll_v]`.
pub open spec fn clamp_v(a: AppV) -> AppV {
    if a.v_scroll > max_v_scroll_v(a) {
        AppV { v_scroll: max_v_scroll_v(a) as usize, ..a }
    } else {
        a
    }
}

/// The file indices reachable as leaves of the flattened tree, in display
/// order.
pub open spec fn file_indices(rows: Seq<TreeRowV>) -> Seq<usize>
    decreases rows.len(),
{
    if rows.len() == 0 {
        Seq::<usize>::empty()
    } else {
        file_indices(rows.drop_last()) + match rows.last().file_index {
            Option::Some(i) => seq![i],
            Option::None => Seq::<usize>::empty(),
        }
    }
}

/// The first position of `v` in `s`, or -1.
pub open spec fn index_of_first(s: Seq<usize>, v: usize) -> int
    decreases s.len(),
{
    if s.len() == 0 {
        -1
    } else if s[0] == v {
        0
    } else {
        let r = index_of_first(s.drop_first(), v);
        if r < 0 {
            -1
        } else {
            r + 1
        }
    }
}

/// What `index_of_first` finds: the smallest matching position, if any.
pub proof fn lemma_index_of_first(s: Seq<usize>, v: usize)
    ensures
        index_of_first(s, v) == -1 ==> forall|k: int| 0 <= k < s.len() ==> s[k] != v,
        index_of_first(s, v) != -1 ==> {
            let r = index_of_first(s, v);
            &&& 0 <= r < s.len()
            &&& s[r] == v
            &&& forall|k: int| 0 <= k < r ==> s[k] != v
        },
    decreases s.len(),
{
    if s.len() > 0 && s[0] != v {
        lemma_index_of_first(s.drop_first(), v);
        assert(forall|k: int| 1 <= k < s.len() ==> s[k] == s.drop_first()[k - 1]);
    }
}

/// Selecting the previous reachable file, wrapping from the first to the
/// last; scroll offsets reset on any selection.
pub open spec fn select_prev_v(a: AppV) -> AppV {
    if a.files.len() == 0 {
        a
    } else {
        let fis = file_indices(a.tree_rows);
        if fis.len() == 0 {
            a
        } else {
            let pos = index_of_first(fis, a.selected_file_idx);
            let new_pos: int = if pos <= 0 {
                fis.len() - 1
            } else {
                pos - 1
            };
            AppV { selected_file_idx: fis[new_pos], v_scroll: 0, h_scroll: 0, ..a }
        }
    }
}

/// Selecting the next reachable file, wrapping from the last to the
/// first; scroll offsets reset on any selection.
pub open spec fn select_next_v(a: AppV) -> AppV {
    if a.files.len() == 0 {
        a
    } else {
        let fis = file_indices(a.tree_rows);
        if fis.len() == 0 {
            a
        } else {
            let pos = index_of_first(fis, a.selected_file_idx);
            let new_pos: int = if pos < 0 {
                0
            } else {
                (pos + 1) % (fis.len() as int)
            };
            AppV { selected_file_idx: fis[new_pos], v_scroll: 0, h_scroll: 0, ..a }
        }
    }
}

/// Whether row `i` opens a change block: its kind is not `Equal` and it is
/// the first row or follows an `Equal` row.
pub open spec fn is_block_start(rows: Seq<AlignedRowV>, i: int) -> bool {
    rows[i].kind != RowKind::Equal && (i == 0 || rows[i - 1].kind == RowKind::Equal)
}

/// The start indices of the maximal runs of non-`Equal` rows, in order.
pub open spec fn block_starts(rows: Seq<AlignedRowV>) -> Seq<usize>
    decreases rows.len(),
{
    if rows.len() == 0 {
        Seq::<usize>::empty()
    } else {
        block_starts(rows.drop_last()) + if is_block_start(rows, rows.len() - 1) {
            seq![(rows.len() - 1) as usize]
        } else {
            Seq::<usize>::empty()
        }
    }
}

/// For any row buffer a machine can hold, the block starts lie within it
/// and are strictly increasing: the first start after an offset is also
/// the least one, and the last start before it the greatest.
pub proof fn lemma_block_starts_sorted(rows: Seq<AlignedRowV>)
    requires
        rows.len() <= usize::MAX,
    ensures
        forall|i: int|
            0 <= i < block_starts(rows).len() ==> (#[trigger] block_starts(rows)[i]) < rows.len(),
        forall|i: int, j: int|
            0 <= i < j < block_starts(rows).len() ==> block_starts(rows)[i] < block_starts(
                rows,
            )[j],
    decreases rows.len(),
{
    if rows.len() > 0 {
        lemma_block_starts_sorted(rows.drop_last());
        let rest = block_starts(rows.drop_last());
        assert forall|i: int|
            0 <= i < block_starts(rows).len() implies (#[trigger] block_starts(rows)[i])
            < rows.len() by {
            if i < rest.len() {
                assert(block_starts(rows)[i] == rest[i]);
            }
        }
        assert forall|i: int, j: int|
            0 <= i < j < block_starts(rows).len() implies block_starts(rows)[i] < block_starts(
            rows,
        )[j] by {
            if j < rest.len() {
                assert(block_starts(rows)[i] == rest[i]);
                assert(block_starts(rows)[j] == rest[j]);
            } else {
                assert(block_starts(rows)[i] == rest[i]);
                assert(block_starts(rows)[j] == ((rows.len() - 1) as usize));
                assert(rest[i] < rows.drop_last().len());
            }
        }
    }
}

/// The first listed offset strictly over `cur`, if any.
pub open spec fn first_over(s: Seq<usize>, cur: usize) -> Option<usize>
    decreases s.len(),
{
    if s.len() == 0 {
        Option::None
    } else if s[0] > cur {
        Option::Some(s[0])
    } else {
        first_over(s.drop_first(), cur)
    }
}

/// The last listed offset strictly under `cur`, if any.
pub open spec fn last_under(s: Seq<usize>, cur: usize) -> Option<usize>
    decreases s.len(),
{
    if s.len() == 0 {
        Option::None
    } else if s.last() < cur {
        Option::Some(s.last())
    } else {
        last_under(s.drop_last(), cur)
    }
}

/// Jumping to the next change block: the first block start after the
/// current offset, wrapping to the first block; a no-op without blocks.
pub open spec fn jump_next_v(a: AppV) -> AppV {
    match selected_rows_v(a) {
        Option::None => a,
        Option::Some(rows) => {
            let starts = block_starts(rows);
            if starts.len() == 0 {
                a
            } else {
                match first_over(starts, a.v_scroll) {
                    Option::Some(next) => AppV { v_scroll: next, ..a },
                    Option::None => AppV { v_scroll: starts[0], ..a },
                }
            }
        },
    }
}

/// Jumping to the previous change block: the last block start before the
/// current offset, wrapping to the last block; a no-op without blocks.
pub open spec fn jump_prev_v(a: AppV) -> AppV {
    match selected_rows_v(a) {
        Option::None => a,
        Option::Some(rows) => {
            let starts = block_starts(rows);
            if starts.len() == 0 {
                a
            } else {
                match last_under(starts, a.v_scroll) {
                    Option::Some(prev) => AppV { v_scroll: prev, ..a },
                    Option::None => AppV { v_scroll: starts.last(), ..a },
                }
            }
        },
    }
}

/// The page step: half the viewport, at least one row.
pub open spec fn page_step_v(a: AppV) -> usize {
    let s = a.viewport_rows / 2;
    if s < 1 {
        1usize
    } else {
        s
    }
}

/// One dispatch, before the final scroll clamp: the two-step prefix
/// machine, then the action's own transition, with the pending prefix
/// cleared by every action but `Noop`.
pub open spec fn dispatch_core(a: AppV, action: Action) -> AppV {
    if action == Action::PrefixG {
        if a.g_prefix_pending {
            AppV { v_scroll: 0, g_prefix_pending: false, ..a }
        } else {
            AppV { g_prefix_pending: true, ..a }
        }
    } else {
        let b = if action == Action::Noop {
            a
        } else {
            AppV { g_prefix_pending: false, ..a }
        };
        match action {
            Action::SelectPrevFile => select_prev_v(b),
            Action::SelectNextFile => select_next_v(b),
            Action::ToggleTree => AppV { show_tree: !b.show_tree, ..b },
            Action::Refresh => b,
            Action::TreeScrollLeft => AppV { tree_h_scroll: sat_sub(b.tree_h_scroll, 1), ..b },
            Action::TreeScrollRight => AppV { tree_h_scroll: sat_add(b.tree_h_scroll, 1), ..b },
            Action::ScrollDown => AppV { v_scroll: sat_add(b.v_scroll, 1), ..b },
            Action::ScrollUp => AppV { v_scroll: sat_sub(b.v_scroll, 1), ..b },
            Action::PageDown => AppV { v_scroll: sat_add(b.v_scroll, page_step_v(b)), ..b },
            Action::PageUp => AppV { v_scroll: sat_sub(b.v_scroll, page_step_v(b)), ..b },
            Action::ScrollLeft => AppV { h_scroll: sat_sub(b.h_scroll, 1), ..b },
            Action::ScrollRight => AppV { h_scroll: sat_add(b.h_scroll, 1), ..b },
            Action::GoBottom => AppV { v_scroll: max_v_scroll_v(b) as usize, ..b },
            Action::NextChange => jump_next_v(b),
            Action::PrevChange => jump_prev_v(b),
            Action::Quit => AppV { should_quit: true, ..b },
            Action::Noop => b,
            Action::PrefixG => b,
        }
    }
}

/// One dispatch: [`dispatch_core`], then the scroll clamp.
pub open spec fn dispatch_spec(a: AppV, action: Action) -> AppV {
    clamp_v(dispatch_core(a, action))
}

/// The paths of a file-record sequence, in order.
pub open spec fn paths_v(files: Seq<ChangedFileV>) -> Seq<Seq<char>> {
    files.map_values(|f: ChangedFileV| f.path)
}

/// The statuses of a file-record sequence, in order.
pub open spec fn statuses_v(files: Seq<ChangedFileV>) -> Seq<FileStatus> {
    files.map_values(|f: ChangedFileV| f.status)
}

/// The first position whose record carries path `p`, or -1.
pub open spec fn index_of_path(files: Seq<ChangedFileV>, p: Seq<char>) -> int
    decreases files.len(),
{
    if files.len() == 0 {
        -1
    } else if files[0].path == p {
        0
    } else {
        let r = index_of_path(files.drop_first(), p);
        if r < 0 {
            -1
        } else {
            r + 1
        }
    }
}

/// What `index_of_path` finds: the smallest matching position, if any.
pub proof fn lemma_index_of_path(files: Seq<ChangedFileV>, p: Seq<char>)
    ensures
        index_of_path(files, p) == -1 ==> forall|k: int|
            0 <= k < files.len() ==> (#[trigger] files[k]).path != p,
        index_of_path(files, p) != -1 ==> {
            let r = index_of_path(files, p);
            &&& 0 <= r < files.len()
            &&& files[r].path == p
            &&& forall|k: int| 0 <= k < r ==> (#[trigger] files[k]).path != p
        },
    decreases files.len(),
{
    if files.len() > 0 && files[0].path != p {
        lemma_index_of_path(files.drop_first(), p);
        assert(forall|k: int| 1 <= k < files.len() ==> files[k] == files.drop_first()[k - 1]);
    }
}

/// The smaller of two machine integers.
pub open spec fn min_usize(a: usize, b: usize) -> usize {
    if a <= b {
        a
    } else {
        b
    }
}

/// A refresh: the file list and the flattened tree are replaced wholesale
/// and the invalidation epoch bumps, wrapping at its maximum. Selection is
/// reconciled by path identity: a still-present path keeps its selection
/// and scroll exactly; otherwise the old numeric index is clamped into the
/// new bounds and scroll resets.
pub open spec fn refresh_spec(a: AppV, files: Seq<ChangedFileV>) -> AppV {
    let trows = flatten_spec(build_tree_spec(paths_v(files)), statuses_v(files));
    let base = AppV {
        files: files,
        tree_rows: trows,
        highlight_epoch: wrap_inc(a.highlight_epoch),
        ..a
    };
    if files.len() == 0 {
        AppV { selected_file_idx: 0, v_scroll: 0, h_scroll: 0, ..base }
    } else {
        let fallback = min_usize(a.selected_file_idx, (files.len() - 1) as usize);
        if a.selected_file_idx < a.files.len() {
            let p = a.files[a.selected_file_idx as int].path;
            let j = index_of_path(files, p);
            if j >= 0 {
                AppV { selected_file_idx: j as usize, ..base }
            } else {
                AppV { selected_file_idx: fallback, v_scroll: 0, h_scroll: 0, ..base }
            }
        } else {
            AppV { selected_file_idx: fallback, v_scroll: 0, h_scroll: 0, ..base }
        }
    }
}

/// Selection is preserved by path identity across a refresh: when the
/// selected path survives into the new list, the new selection points at
/// that path and both scroll offsets are kept exactly; when it does not,
/// the scroll offsets reset and the old index is clamped into the new
/// bounds. The epoch bumps either way, wrapping at its maximum.
pub proof fn lemma_refresh_reconciles(a: AppV, files: Seq<ChangedFileV>)
    requires
        a.selected_file_idx < a.files.len(),
        0 < files.len() <= usize::MAX,
    ensures
        refresh_spec(a, files).highlight_epoch == wrap_inc(a.highlight_epoch),
        (exists|k: int|
            0 <= k < files.len() && (#[trigger] files[k]).path == a.files[
                a.selected_file_idx as int
            ].path) ==> {
            let b = refresh_spec(a, files);
            &&& b.selected_file_idx < files.len()
            &&& files[b.selected_file_idx as int].path == a.files[
                a.selected_file_idx as int
            ].path
            &&& b.v_scroll == a.v_scroll
            &&& b.h_scroll == a.h_scroll
        },
        !(exists|k: int|
            0 <= k < files.len() && (#[trigger] files[k]).path == a.files[
                a.selected_file_idx as int
            ].path) ==> {
            let b = refresh_spec(a, files);
            &&& b.selected_file_idx == min_usize(a.selected_file_idx, (files.len() - 1) as usize)
            &&& b.v_scroll == 0
            &&& b.h_scroll == 0
        },
{
    lemma_index_of_path(files, a.files[a.selected_file_idx as int].path);
}

/// The placeholder row shown for content that is not UTF-8 text.
pub open spec fn binary_row_v() -> AlignedRowV {
    AlignedRowV {
        left_line_no: Option::<usize>::None,
        right_line_no: Option::<usize>::None,
        left_text: "[binary or non-utf8 file]"@,
        right_text: "[binary or non-utf8 file]"@,
        kind: RowKind::Changed,
    }
}

/// The aligned rows of one loaded record: the display model of its two
/// texts, or the binary placeholder where either side is not text.
pub open spec fn rows_for(f: ChangedFileV) -> Seq<AlignedRowV> {
    match (f.old_content, f.new_content) {
        (Option::Some(ContentDataV::Text(o)), Option::Some(ContentDataV::Text(n))) => aligned_of(
            o,
            n,
        ),
        _ => seq![binary_row_v()],
    }
}

/// Loading one record: content is installed only where missing, and rows
/// are aligned only where missing — loading is idempotent.
pub open spec fn loaded_file_v(f: ChangedFileV, oc: ContentDataV, nc: ContentDataV) -> ChangedFileV {
    let f1 = if f.old_content is None || f.new_content is None {
        ChangedFileV { old_content: Option::Some(oc), new_content: Option::Some(nc), ..f }
    } else {
        f
    };
    if f1.aligned_rows is None {
        ChangedFileV { aligned_rows: Option::Some(rows_for(f1)), ..f1 }
    } else {
        f1
    }
}

/// Ensuring the selected record is loaded, the supplied values standing in
/// for its content where none is held yet; ends with the scroll clamp. The
/// row-buffer version bumps exactly when a row buffer is computed.
pub open spec fn load_spec(a: AppV, oc: ContentDataV, nc: ContentDataV) -> AppV {
    if a.files.len() == 0 || a.selected_file_idx >= a.files.len() {
        a
    } else {
        let idx = a.selected_file_idx as int;
        let f = a.files[idx];
        let f2 = loaded_file_v(f, oc, nc);
        let ver = if f.aligned_rows is None {
            wrap_inc(a.rows_version)
        } else {
            a.rows_version
        };
        clamp_v(AppV { files: a.files.update(idx, f2), rows_version: ver, ..a })
    }
}

/// The initial view state over an enumerated file list: everything at its
/// starting value, the tree freshly built.
pub open spec fn new_spec(files: Seq<ChangedFileV>) -> AppV {
    AppV {
        files: files,
        tree_rows: flatten_spec(build_tree_spec(paths_v(files)), statuses_v(files)),
        show_tree: true,
        tree_h_scroll: 0,
        selected_file_idx: 0,
        v_scroll: 0,
        h_scroll: 0,
        viewport_rows: 1,
        highlight_epoch: 0,
        rows_version: 0,
        g_prefix_pending: false,
        should_quit: false,
    }
}

/// Resizing the viewport: at least one row, then the scroll clamp.
pub open spec fn set_viewport_spec(a: AppV, rows: usize) -> AppV {
    clamp_v(
        AppV {
            viewport_rows: if rows < 1 {
                1usize
            } else {
                rows
            },
            ..a
        },
    )
}

/// The scroll clamp leaves the bound itself unchanged, so a clamped state
/// is within bounds and clamping twice is clamping once.
pub proof fn lemma_clamp_bounds(a: AppV)
    ensures
        max_v_scroll_v(clamp_v(a)) == max_v_scroll_v(a),
        clamp_v(a).v_scroll <= max_v_scroll_v(clamp_v(a)),
        clamp_v(clamp_v(a)) == clamp_v(a),
{
}

/// Every dispatch leaves the vertical scroll offset within
/// `[0, max_v_scroll_v]` of the resulting state, whatever the action and
/// whatever the starting state.
pub proof fn lemma_dispatch_clamps(a: AppV, action: Action)
    ensures
        dispatch_spec(a, action).v_scroll <= max_v_scroll_v(dispatch_spec(a, action)),
{
    lemma_clamp_bounds(dispatch_core(a, action));
}

/// Loading is idempotent: loading the selected file a second time, with
/// any content, changes nothing — in particular its aligned rows stay as
/// they are.
pub proof fn lemma_load_idempotent(
    a: AppV,
    oc1: ContentDataV,
    nc1: ContentDataV,
    oc2: ContentDataV,
    nc2: ContentDataV,
)
    ensures
        load_spec(load_spec(a, oc1, nc1), oc2, nc2) == load_spec(a, oc1, nc1),
{
    let b = load_spec(a, oc1, nc1);
    if a.files.len() == 0 || a.selected_file_idx >= a.files.len() {
        assert(load_spec(b, oc2, nc2) =~= b);
    } else {
        let idx = a.selected_file_idx as int;
        let f2 = loaded_file_v(a.files[idx], oc1, nc1);
        assert(f2.old_content is Some && f2.new_content is Some && f2.aligned_rows is Some);
        assert(b.files[idx] == f2);
        assert(b.files.len() == a.files.len());
        let f3 = loaded_file_v(b.files[idx], oc2, nc2);
        assert(f3 == f2);
        assert(b.files.update(idx, f3) =~= b.files);
        lemma_clamp_bounds(
            AppV { files: a.files.update(idx, f2), rows_version: b.rows_version, ..a },
        );
        assert(clamp_v(AppV { files: b.files.update(idx, f3), rows_version: b.rows_version, ..b })
            =~= b);
        assert(load_spec(b, oc2, nc2) =~= b);
    }
}

/// The start indices of the change blocks of a row buffer, exactly as
/// [`block_starts`] states.
pub fn change_block_starts(rows: &Vec<AlignedRow>) -> (starts: Vec<usize>)
    ensures
        starts@ == block_starts(rows_view(rows@)),
{
    let ghost rv = rows_view(rows@);
    let n = rows.len();
    let mut starts: Vec<usize> = Vec::new();
    let mut in_change = false;
    let mut i: usize = 0;
    proof {
        assert(rv.take(0) =~= Seq::<AlignedRowV>::empty());
        assert(starts@ =~= block_starts(rv.take(0)));
    }
    while i < n
        invariant
            0 <= i <= n,
            n == rows@.len(),
            rv == rows_view(rows@),
            rv.len() == n,
            starts@ == block_starts(rv.take(i as int)),
            in_change == (i > 0 && rv[i as int - 1].kind != RowKind::Equal),
        decreases n - i,
    {
        proof {
            assert(rv.take(i as int + 1).drop_last() =~= rv.take(i as int));
            assert(rv.take(i as int + 1).last() == rv[i as int]);
            assert(rv[i as int] == row_view(rows@[i as int]));
        }
        let kind_equal = rows[i].kind == RowKind::Equal;
        if !kind_equal {
            if !in_change {
                starts.push(i);
            }
            in_change = true;
        } else {
            in_change = false;
        }
        proof {
            if !kind_equal && !(i > 0 && rv[i as int - 1].kind != RowKind::Equal) {
                assert(is_block_start(rv.take(i as int + 1), i as int));
            }
        }
        i = i + 1;
    }
    proof {
        assert(rv.take(n as int) =~= rv);
    }
    starts
}

/// The reachable file indices of the flattened tree, exactly as
/// [`file_indices`] states.
fn file_indices_exec(tree_rows: &Vec<TreeRow>) -> (fis: Vec<usize>)
    ensures
        fis@ == file_indices(tree_rows_view(tree_rows@)),
{
    let ghost tv = tree_rows_view(tree_rows@);
    let n = tree_rows.len();
    let mut fis: Vec<usize> = Vec::new();
    let mut i: usize = 0;
    proof {
        assert(tv.take(0) =~= Seq::<TreeRowV>::empty());
        assert(fis@ =~= file_indices(tv.take(0)));
    }
    while i < n
        invariant
            0 <= i <= n,
            n == tree_rows@.len(),
            tv == tree_rows_view(tree_rows@),
            tv.len() == n,
            fis@ == file_indices(tv.take(i as int)),
        decreases n - i,
    {
        proof {
            assert(tv.take(i as int + 1).drop_last() =~= tv.take(i as int));
            assert(tv.take(i as int + 1).last() == tv[i as int]);
            assert(tv[i as int] == tree_row_view(tree_rows@[i as int]));
        }
        match tree_rows[i].file_index {
            Option::Some(idx) => {
                fis.push(idx);
            },
            Option::None => {},
        }
        i = i + 1;
    }
    proof {
        assert(tv.take(n as int) =~= tv);
    }
    fis
}

/// The first position of `v` in the list, if any, exactly as
/// [`index_of_first`] states.
fn position_of(s: &Vec<usize>, v: usize) -> (r: Option<usize>)
    ensures
        match r {
            Option::Some(p) => index_of_first(s@, v) == p as int,
            Option::None => index_of_first(s@, v) == -1,
        },
{
    let n = s.len();
    let mut i: usize = 0;
    while i < n
        invariant
            0 <= i <= n,
            n == s@.len(),
            forall|k: int| 0 <= k < i ==> s@[k] != v,
        decreases n - i,
    {
        if s[i] == v {
            proof {
                lemma_index_of_first(s@, v);
                let r = index_of_first(s@, v);
                if r == -1 {
                    assert(s@[i as int] != v);
                    assert(false);
                } else {
                    if r < i {
                        assert(s@[r] != v);
                        assert(false);
                    }
                    if r > i {
                        assert(s@[i as int] != v);
                        assert(false);
                    }
                }
            }
            return Option::Some(i);
        }
        i = i + 1;
    }
    proof {
        lemma_index_of_first(s@, v);
        if index_of_first(s@, v) != -1 {
            let r = index_of_first(s@, v);
            assert(s@[r] == v);
            assert(false);
        }
    }
    Option::None
}

/// The first position whose record carries the given path, if any,
/// exactly as [`index_of_path`] states.
fn position_of_path(files: &Vec<ChangedFile>, p: &String) -> (r: Option<usize>)
    ensures
        match r {
            Option::Some(j) => index_of_path(files_view(files@), p@) == j as int,
            Option::None => index_of_path(files_view(files@), p@) == -1,
        },
{
    let ghost fv = files_view(files@);
    let n = files.len();
    let mut i: usize = 0;
    proof {
        assert(fv.len() == n);
    }
    while i < n
        invariant
            0 <= i <= n,
            n == files@.len(),
            fv == files_view(files@),
            fv.len() == n,
            forall|k: int| 0 <= k < i ==> (#[trigger] fv[k]).path != p@,
        decreases n - i,
    {
        proof {
            assert(fv[i as int] == file_view(files@[i as int]));
        }
        if files[i].path == *p {
            proof {
                lemma_index_of_path(fv, p@);
                let r = index_of_path(fv, p@);
                if r == -1 {
                    assert(fv[i as int].path != p@);
                    assert(false);
                } else {
                    if r < i {
                        assert(fv[r].path != p@);
                        assert(false);
                    }
                    if r > i {
                        assert(fv[i as int].path != p@);
                        assert(false);
                    }
                }
            }
            return Option::Some(i);
        }
        i = i + 1;
    }
    proof {
        lemma_index_of_path(fv, p@);
        if index_of_path(fv, p@) != -1 {
            let r = index_of_path(fv, p@);
            assert(fv[r].path == p@);
            assert(false);
        }
    }
    Option::None
}

/// The first flattened row that points at the file at `sel`, or -1.
pub open spec fn index_of_selected_row(rows: Seq<TreeRowV>, sel: usize) -> int
    decreases rows.len(),
{
    if rows.len() == 0 {
        -1
    } else if rows[0].file_index == Option::Some(sel) {
        0
    } else {
        let r = index_of_selected_row(rows.drop_first(), sel);
        if r < 0 {
            -1
        } else {
            r + 1
        }
    }
}

/// What `index_of_selected_row` finds: the smallest matching row, if any.
pub proof fn lemma_index_of_selected_row(rows: Seq<TreeRowV>, sel: usize)
    ensures
        index_of_selected_row(rows, sel) == -1 ==> forall|k: int|
            0 <= k < rows.len() ==> (#[trigger] rows[k]).file_index != Option::Some(sel),
        index_of_selected_row(rows, sel) != -1 ==> {
            let r = index_of_selected_row(rows, sel);
            &&& 0 <= r < rows.len()
            &&& rows[r].file_index == Option::Some(sel)
            &&& forall|k: int|
                0 <= k < r ==> (#[trigger] rows[k]).file_index != Option::Some(sel)
        },
    decreases rows.len(),
{
    if rows.len() > 0 && rows[0].file_index != Option::Some(sel) {
        lemma_index_of_selected_row(rows.drop_first(), sel);
        assert(forall|k: int| 1 <= k < rows.len() ==> rows[k] == rows.drop_first()[k - 1]);
    }
}

/// The tree row to highlight: the first whose leaf is the selected file.
pub fn selected_tree_row_idx(app: &App) -> (r: Option<usize>)
    ensures
        match r {
            Option::Some(i) => index_of_selected_row(
                tree_rows_view(app.tree_rows@),
                app.selected_file_idx,
            ) == i as int,
            Option::None => index_of_selected_row(
                tree_rows_view(app.tree_rows@),
                app.selected_file_idx,
            ) == -1,
        },
{
    let ghost tv = tree_rows_view(app.tree_rows@);
    let sel = app.selected_file_idx;
    let n = app.tree_rows.len();
    let mut i: usize = 0;
    while i < n
        invariant
            0 <= i <= n,
            n == app.tree_rows@.len(),
            tv == tree_rows_view(app.tree_rows@),
            tv.len() == n,
            sel == app.selected_file_idx,
            forall|k: int| 0 <= k < i ==> (#[trigger] tv[k]).file_index != Option::Some(sel),
        decreases n - i,
    {
        proof {
            assert(tv[i as int] == tree_row_view(app.tree_rows@[i as int]));
        }
        let matches_here = match app.tree_rows[i].file_index {
            Option::Some(idx) => idx == sel,
            Option::None => false,
        };
        if matches_here {
            proof {
                lemma_index_of_selected_row(tv, sel);
                let r = index_of_selected_row(tv, sel);
                if r == -1 {
                    assert(tv[i as int].file_index != Option::Some(sel));
                    assert(false);
                } else {
                    if r < i {
                        assert(tv[r].file_index != Option::Some(sel));
                        assert(false);
                    }
                    if r > i {
                        assert(tv[i as int].file_index != Option::Some(sel));
                        assert(false);
                    }
                }
            }
            return Option::Some(i);
        }
        i = i + 1;
    }
    proof {
        lemma_index_of_selected_row(tv, sel);
        if index_of_selected_row(tv, sel) != -1 {
            let r = index_of_selected_row(tv, sel);
            assert(tv[r].file_index == Option::Some(sel));
            assert(false);
        }
    }
    Option::None
}

impl App {
    /// A fresh view state over an enumerated file list, exactly as
    /// [`new_spec`] states: tree built, first file selected, nothing
    /// loaded, every offset and counter at zero, the tree pane shown.
    pub fn new(files: Vec<ChangedFile>) -> (a: App)
        ensures
            app_view(a) == new_spec(files_view(files@)),
    {
        let ghost fsnap = files@;
        let tree = build_tree(&files);
        let tree_rows = flatten_tree(&tree, &files);
        let a = App {
            files,
            tree_rows,
            show_tree: true,
            tree_h_scroll: 0,
            selected_file_idx: 0,
            v_scroll: 0,
            h_scroll: 0,
            viewport_rows: 1,
            highlight_epoch: 0,
            rows_version: 0,
            g_prefix_pending: false,
            should_quit: false,
        };
        proof {
            assert(paths_of(fsnap) =~= paths_v(files_view(fsnap)));
            assert(statuses_of(fsnap) =~= statuses_v(files_view(fsnap)));
            assert(app_view(a) =~= new_spec(files_view(fsnap)));
        }
        a
    }

    /// The currently selected file record, if the selection is in bounds.
    pub fn selected_file(&self) -> (r: Option<&ChangedFile>)
        ensures
            match r {
                Option::Some(f) => self.selected_file_idx < self.files@.len() && *f
                    == self.files@[self.selected_file_idx as int],
                Option::None => self.selected_file_idx >= self.files@.len(),
            },
    {
        if self.selected_file_idx < self.files.len() {
            Option::Some(&self.files[self.selected_file_idx])
        } else {
            Option::None
        }
    }

    /// The aligned rows of the selected file, if loaded.
    pub fn selected_rows(&self) -> (r: Option<&Vec<AlignedRow>>)
        ensures
            match r {
                Option::Some(rows) => selected_rows_v(app_view(*self)) == Option::Some(
                    rows_view(rows@),
                ),
                Option::None => selected_rows_v(app_view(*self)) is None,
            },
    {
        proof {
            if self.selected_file_idx < self.files@.len() {
                assert(app_view(*self).files[self.selected_file_idx as int] == file_view(
                    self.files@[self.selected_file_idx as int],
                ));
            }
        }
        match self.selected_file() {
            Option::Some(f) => match &f.aligned_rows {
                Option::Some(rows) => Option::Some(rows),
                Option::None => Option::None,
            },
            Option::None => Option::None,
        }
    }

    /// The largest valid vertical scroll offset for the current state.
    fn max_v_scroll(&self) -> (r: usize)
        ensures
            r as int == max_v_scroll_v(app_view(*self)),
    {
        let total = match self.selected_rows() {
            Option::Some(rows) => rows.len(),
            Option::None => 0,
        };
        if total >= self.viewport_rows {
            total - self.viewport_rows
        } else {
            0
        }
    }

    /// Forces the vertical offset into its valid range.
    fn clamp_scroll(&mut self)
        ensures
            app_view(*final(self)) == clamp_v(app_view(*old(self))),
    {
        let m = self.max_v_scroll();
        if self.v_scroll > m {
            self.v_scroll = m;
        }
        proof {
            assert(app_view(*self) =~= clamp_v(app_view(*old(self))));
        }
    }

    /// Resizes the viewport to at least one row and re-clamps the scroll
    /// state, exactly as [`set_viewport_spec`] states.
    pub fn set_viewport_rows(&mut self, rows: usize)
        ensures
            app_view(*final(self)) == set_viewport_spec(app_view(*old(self)), rows),
    {
        self.viewport_rows = if rows < 1 {
            1
        } else {
            rows
        };
        self.clamp_scroll();
        proof {
            assert(app_view(*self) =~= set_viewport_spec(app_view(*old(self)), rows));
        }
    }

    fn select_prev_file(&mut self)
        ensures
            app_view(*final(self)) == select_prev_v(app_view(*old(self))),
    {
        if self.files.len() == 0 {
            return;
        }
        let fis = file_indices_exec(&self.tree_rows);
        if fis.len() == 0 {
            return;
        }
        let pos = position_of(&fis, self.selected_file_idx);
        proof {
            lemma_index_of_first(fis@, self.selected_file_idx);
        }
        let new_pos: usize = match pos {
            Option::Some(p) => if p == 0 {
                fis.len() - 1
            } else {
                p - 1
            },
            Option::None => fis.len() - 1,
        };
        self.selected_file_idx = fis[new_pos];
        self.v_scroll = 0;
        self.h_scroll = 0;
        proof {
            assert(app_view(*self) =~= select_prev_v(app_view(*old(self))));
        }
    }

    fn select_next_file(&mut self)
        ensures
            app_view(*final(self)) == select_next_v(app_view(*old(self))),
    {
        if self.files.len() == 0 {
            return;
        }
        let fis = file_indices_exec(&self.tree_rows);
        if fis.len() == 0 {
            return;
        }
        let pos = position_of(&fis, self.selected_file_idx);
        proof {
            lemma_index_of_first(fis@, self.selected_file_idx);
        }
        let new_pos: usize = match pos {
            Option::Some(p) => if p + 1 == fis.len() {
                0
            } else {
                p + 1
            },
            Option::None => 0,
        };
        proof {
            let fisv = fis@;
            let posv = index_of_first(fisv, self.selected_file_idx);
            if posv >= 0 {
                if posv + 1 == fisv.len() {
                    vstd::arithmetic::div_mod::lemma_mod_self_0(fisv.len() as int);
                } else {
                    vstd::arithmetic::div_mod::lemma_small_mod((posv + 1) as nat, fisv.len());
                }
            }
        }
        self.selected_file_idx = fis[new_pos];
        self.v_scroll = 0;
        self.h_scroll = 0;
        proof {
            assert(app_view(*self) =~= select_next_v(app_view(*old(self))));
        }
    }

    fn jump_next_change(&mut self)
        ensures
            app_view(*final(self)) == jump_next_v(app_view(*old(self))),
    {
        let ghost av0 = app_view(*self);
        let starts: Vec<usize>;
        match self.selected_rows() {
            Option::None => {
                return;
            },
            Option::Some(rows) => {
                starts = change_block_starts(rows);
            },
        }
        if starts.len() == 0 {
            return;
        }
        let ghost sv = starts@;
        let n = starts.len();
        let mut i: usize = 0;
        proof {
            assert(sv.skip(0) =~= sv);
        }
        while i < n
            invariant
                0 <= i <= n,
                n == starts@.len(),
                sv == starts@,
                *self == *old(self),
                av0 == app_view(*old(self)),
                sv.len() > 0,
                match selected_rows_v(av0) {
                    Option::Some(rv) => sv == block_starts(rv),
                    Option::None => false,
                },
                first_over(sv, old(self).v_scroll) == first_over(
                    sv.skip(i as int),
                    old(self).v_scroll,
                ),
            decreases n - i,
        {
            let ghost rest = sv.skip(i as int);
            proof {
                assert(rest[0] == sv[i as int]);
                assert(rest.drop_first() =~= sv.skip(i as int + 1));
            }
            if starts[i] > self.v_scroll {
                self.v_scroll = starts[i];
                proof {
                    assert(app_view(*self) =~= jump_next_v(av0));
                }
                return;
            }
            i = i + 1;
        }
        proof {
            assert(sv.skip(n as int) =~= Seq::<usize>::empty());
        }
        self.v_scroll = starts[0];
        proof {
            assert(app_view(*self) =~= jump_next_v(av0));
        }
    }

    fn jump_prev_change(&mut self)
        ensures
            app_view(*final(self)) == jump_prev_v(app_view(*old(self))),
    {
        let ghost av0 = app_view(*self);
        let starts: Vec<usize>;
        match self.selected_rows() {
            Option::None => {
                return;
            },
            Option::Some(rows) => {
                starts = change_block_starts(rows);
            },
        }
        if starts.len() == 0 {
            return;
        }
        let ghost sv = starts@;
        let n = starts.len();
        let mut i: usize = n;
        proof {
            assert(sv.take(n as int) =~= sv);
        }
        while i > 0
            invariant
                0 <= i <= n,
                n == starts@.len(),
                sv == starts@,
                *self == *old(self),
                av0 == app_view(*old(self)),
                sv.len() > 0,
                match selected_rows_v(av0) {
                    Option::Some(rv) => sv == block_starts(rv),
                    Option::None => false,
                },
                last_under(sv, old(self).v_scroll) == last_under(
                    sv.take(i as int),
                    old(self).v_scroll,
                ),
            decreases i,
        {
            let ghost pre = sv.take(i as int);
            proof {
                assert(pre.last() == sv[i as int - 1]);
                assert(pre.drop_last() =~= sv.take(i as int - 1));
            }
            if starts[i - 1] < self.v_scroll {
                self.v_scroll = starts[i - 1];
                proof {
                    assert(app_view(*self) =~= jump_prev_v(av0));
                }
                return;
            }
            i = i - 1;
        }
        proof {
            assert(sv.take(0) =~= Seq::<usize>::empty());
        }
        self.v_scroll = starts[n - 1];
        proof {
            assert(sv.last() == sv[n as int - 1]);
            assert(app_view(*self) =~= jump_prev_v(av0));
        }
    }

    /// Dispatches one action, exactly as [`dispatch_spec`] states; reports
    /// whether the caller owes a re-enumeration of the changed files.
    pub fn on_action(&mut self, action: Action) -> (e: Effect)
        ensures
            app_view(*final(self)) == dispatch_spec(app_view(*old(self)), action),
            e == if action == Action::Refresh {
                Effect::RefreshWanted
            } else {
                Effect::Handled
            },
    {
        if matches!(action, Action::PrefixG) {
            if self.g_prefix_pending {
                self.v_scroll = 0;
                self.g_prefix_pending = false;
            } else {
                self.g_prefix_pending = true;
            }
            self.clamp_scroll();
            proof {
                assert(app_view(*self) =~= dispatch_spec(app_view(*old(self)), action));
            }
            return Effect::Handled;
        }
        if !matches!(action, Action::Noop) {
            self.g_prefix_pending = false;
        }
        let mut e = Effect::Handled;
        match action {
            Action::SelectPrevFile => self.select_prev_file(),
            Action::SelectNextFile => self.select_next_file(),
            Action::ToggleTree => {
                self.show_tree = !self.show_tree;
            },
            Action::Refresh => {
                e = Effect::RefreshWanted;
            },
            Action::TreeScrollLeft => {
                self.tree_h_scroll = if self.tree_h_scroll > 0 {
                    self.tree_h_scroll - 1
                } else {
                    0
                };
            },
            Action::TreeScrollRight => {
                self.tree_h_scroll = if self.tree_h_scroll < usize::MAX {
                    self.tree_h_scroll + 1
                } else {
                    usize::MAX
                };
            },
            Action::ScrollDown => {
                self.v_scroll = if self.v_scroll < usize::MAX {
                    self.v_scroll + 1
                } else {
                    usize::MAX
                };
            },
            Action::ScrollUp => {
                self.v_scroll = if self.v_scroll > 0 {
                    self.v_scroll - 1
                } else {
                    0
                };
            },
            Action::PageDown => {
                let half = self.viewport_rows / 2;
                let step = if half < 1 {
                    1
                } else {
                    half
                };
                self.v_scroll = if self.v_scroll <= usize::MAX - step {
                    self.v_scroll + step
                } else {
                    usize::MAX
                };
            },
            Action::PageUp => {
                let half = self.viewport_rows / 2;
                let step = if half < 1 {
                    1
                } else {
                    half
                };
                self.v_scroll = if self.v_scroll >= step {
                    self.v_scroll - step
                } else {
                    0
                };
            },
            Action::ScrollLeft => {
                self.h_scroll = if self.h_scroll > 0 {
                    self.h_scroll - 1
                } else {
                    0
                };
            },
            Action::ScrollRight => {
                self.h_scroll = if self.h_scroll < usize::MAX {
                    self.h_scroll + 1
                } else {
                    usize::MAX
                };
            },
            Action::GoBottom => {
                self.v_scroll = self.max_v_scroll();
            },
            Action::NextChange => self.jump_next_change(),
            Action::PrevChange => self.jump_prev_change(),
            Action::Quit => {
                self.should_quit = true;
            },
            Action::Noop => {},
            Action::PrefixG => {},
        }
        self.clamp_scroll();
        proof {
            assert(app_view(*self) =~= dispatch_spec(app_view(*old(self)), action));
        }
        e
    }
}

impl App {
    /// Replaces the file list after a re-enumeration, exactly as
    /// [`refresh_spec`] states: tree rebuilt, epoch bumped with wraparound,
    /// selection reconciled by path identity — a surviving path keeps its
    /// scroll exactly, a vanished one clamps the index and resets scroll.
    pub fn apply_refreshed_files(&mut self, files: Vec<ChangedFile>)
        ensures
            app_view(*final(self)) == refresh_spec(app_view(*old(self)), files_view(files@)),
    {
        let ghost pre = app_view(*self);
        let ghost fv = files_view(files@);
        let prev_idx = self.selected_file_idx;
        let prev_path: Option<String> = if self.selected_file_idx < self.files.len() {
            Option::Some(self.files[self.selected_file_idx].path.clone())
        } else {
            Option::None
        };
        let tree = build_tree(&files);
        let tree_rows = flatten_tree(&tree, &files);
        let ghost fsnap = files@;
        proof {
            assert(paths_of(fsnap) =~= paths_v(fv));
            assert(statuses_of(fsnap) =~= statuses_v(fv));
        }
        self.files = files;
        self.tree_rows = tree_rows;
        self.highlight_epoch = if self.highlight_epoch == u64::MAX {
            0
        } else {
            self.highlight_epoch + 1
        };
        if self.files.len() == 0 {
            self.selected_file_idx = 0;
            self.v_scroll = 0;
            self.h_scroll = 0;
            proof {
                assert(app_view(*self) =~= refresh_spec(pre, fv));
            }
            return;
        }
        let last = self.files.len() - 1;
        let fallback: usize = if prev_idx <= last {
            prev_idx
        } else {
            last
        };
        match &prev_path {
            Option::Some(p) => {
                proof {
                    assert(p@ == pre.files[prev_idx as int].path);
                }
                match position_of_path(&self.files, p) {
                    Option::Some(j) => {
                        self.selected_file_idx = j;
                        proof {
                            assert(app_view(*self) =~= refresh_spec(pre, fv));
                        }
                    },
                    Option::None => {
                        self.selected_file_idx = fallback;
                        self.v_scroll = 0;
                        self.h_scroll = 0;
                        proof {
                            assert(app_view(*self) =~= refresh_spec(pre, fv));
                        }
                    },
                }
            },
            Option::None => {
                self.selected_file_idx = fallback;
                self.v_scroll = 0;
                self.h_scroll = 0;
                proof {
                    assert(app_view(*self) =~= refresh_spec(pre, fv));
                }
            },
        }
    }

    /// Installs the supplied content on the selected file where none is
    /// held, aligns its rows where none are held, and re-clamps the
    /// scroll, exactly as [`load_spec`] states. Loading is idempotent: an
    /// already-loaded file is left untouched.
    pub fn ensure_selected_loaded(&mut self, oc: ContentData, nc: ContentData)
        ensures
            app_view(*final(self)) == load_spec(
                app_view(*old(self)),
                content_view(oc),
                content_view(nc),
            ),
    {
        let ghost pre = app_view(*self);
        let ghost ocv = content_view(oc);
        let ghost ncv = content_view(nc);
        if self.files.len() == 0 {
            return;
        }
        let idx = self.selected_file_idx;
        if idx >= self.files.len() {
            return;
        }
        let ghost before = self.files@;
        let mut f = self.files.remove(idx);
        let ghost f0 = file_view(f);
        proof {
            assert(f == before[idx as int]);
            assert(f0 == pre.files[idx as int]);
        }
        if f.old_content.is_none() || f.new_content.is_none() {
            f.old_content = Option::Some(oc);
            f.new_content = Option::Some(nc);
        }
        let ghost f1 = file_view(f);
        proof {
            assert(f1 == if f0.old_content is None || f0.new_content is None {
                ChangedFileV { old_content: Option::Some(ocv), new_content: Option::Some(ncv), ..f0 }
            } else {
                f0
            });
        }
        if f.aligned_rows.is_none() {
            let rows: Vec<AlignedRow> = match (&f.old_content, &f.new_content) {
                (Option::Some(ContentData::Text(o)), Option::Some(ContentData::Text(n))) => {
                    align_full_file(o.as_str(), n.as_str())
                },
                _ => {
                    let mut rows: Vec<AlignedRow> = Vec::new();
                    let row = AlignedRow {
                        left_line_no: Option::None,
                        right_line_no: Option::None,
                        left_text: "[binary or non-utf8 file]".to_owned(),
                        right_text: "[binary or non-utf8 file]".to_owned(),
                        kind: RowKind::Changed,
                    };
                    proof {
                        assert(rows_view(rows@.push(row)) =~= seq![binary_row_v()]);
                    }
                    rows.push(row);
                    rows
                },
            };
            proof {
                assert(rows_view(rows@) =~= rows_for(f1));
            }
            f.aligned_rows = Option::Some(rows);
            self.rows_version = if self.rows_version == u64::MAX {
                0
            } else {
                self.rows_version + 1
            };
        }
        proof {
            assert(file_view(f) =~= loaded_file_v(f0, ocv, ncv));
        }
        self.files.insert(idx, f);
        proof {
            assert(self.files@ =~= before.update(idx as int, f));
            assert(files_view(self.files@) =~= pre.files.update(
                idx as int,
                loaded_file_v(f0, ocv, ncv),
            ));
        }
        self.clamp_scroll();
        proof {
            assert(app_view(*self) =~= load_spec(pre, ocv, ncv));
        }
    }
}

} // verus!
