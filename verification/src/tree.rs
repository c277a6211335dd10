//! Hierarchy builder: turns the flat list of changed paths into a
//! directory/file tree and flattens it into display-ordered rows, with the
//! stable directories-then-files, lexicographic-by-name ordering.

use vstd::prelude::*;

use crate::model::ChangedFile;
use crate::model::FileStatus;
use crate::model::TreeNode;
use crate::model::TreeNodeV;
use crate::model::TreeRow;
use crate::model::TreeRowV;
use crate::model::indicator_spec;
use crate::model::lemma_tree_views_index;
use crate::model::lemma_tree_views_push;
use crate::model::tree_row_view;
use crate::model::tree_rows_view;
use crate::model::tree_view;
use crate::model::tree_views;
use vstd::string::StrSliceExecFns;
use vstd::string::StringExecFns;

verus! {

/// Whether a path segment names an actual directory or file: non-empty and
/// neither the current-directory nor the parent-directory marker.
pub open spec fn keep_segment(seg: Seq<char>) -> bool {
    seg.len() > 0 && seg != "."@ && seg != ".."@
}

/// The kept segments of the remaining path characters, with `cur` the
/// segment accumulated so far: segments are cut at `'/'`, and only those
/// satisfying [`keep_segment`] are kept.
pub open spec fn segments_from(s: Seq<char>, cur: Seq<char>) -> Seq<Seq<char>>
    decreases s.len(),
{
    if s.len() == 0 {
        if keep_segment(cur) {
            seq![cur]
        } else {
            Seq::<Seq<char>>::empty()
        }
    } else if s[0] == '/' {
        (if keep_segment(cur) {
            seq![cur]
        } else {
            Seq::<Seq<char>>::empty()
        }) + segments_from(s.drop_first(), Seq::<char>::empty())
    } else {
        segments_from(s.drop_first(), cur.push(s[0]))
    }
}

/// The segments of a relative path: split at `'/'`, with empty, `"."` and
/// `".."` segments dropped.
pub open spec fn path_segments(s: Seq<char>) -> Seq<Seq<char>> {
    segments_from(s, Seq::<char>::empty())
}

pub open spec fn string_views(s: Seq<String>) -> Seq<Seq<char>> {
    s.map_values(|x: String| x@)
}

/// Decides [`keep_segment`] for one already-cut segment.
fn is_kept_segment(seg: &str) -> (b: bool)
    ensures
        b == keep_segment(seg@),
{
    proof {
        reveal_strlit(".");
        reveal_strlit("..");
    }
    let n = seg.unicode_len();
    if n == 0 {
        return false;
    }
    if n == 1 && seg.get_char(0) == '.' {
        proof {
            assert(seg@ =~= "."@);
        }
        return false;
    }
    if n == 2 && seg.get_char(0) == '.' && seg.get_char(1) == '.' {
        proof {
            assert(seg@ =~= ".."@);
        }
        return false;
    }
    proof {
        if seg@ == "."@ {
            assert(n == 1 && seg@[0] == '.');
        }
        if seg@ == ".."@ {
            assert(n == 2 && seg@[0] == '.' && seg@[1] == '.');
        }
    }
    true
}

/// Splits a relative path into its kept segments, as [`path_segments`]
/// states.
pub fn split_path(path: &str) -> (segs: Vec<String>)
    ensures
        string_views(segs@) == path_segments(path@),
{
    let n = path.unicode_len();
    let mut segs: Vec<String> = Vec::new();
    let mut start: usize = 0;
    let mut i: usize = 0;
    proof {
        assert(path@.skip(0) =~= path@);
        assert(path@.subrange(0, 0) =~= Seq::<char>::empty());
        assert(string_views(segs@) =~= Seq::<Seq<char>>::empty());
    }
    while i < n
        invariant
            0 <= start <= i <= n,
            n == path@.len(),
            path_segments(path@) == string_views(segs@) + segments_from(
                path@.skip(i as int),
                path@.subrange(start as int, i as int),
            ),
        decreases n - i,
    {
        let ghost rest = path@.skip(i as int);
        let ghost cur = path@.subrange(start as int, i as int);
        if path.get_char(i) == '/' {
            let seg = path.substring_char(start, i);
            proof {
                assert(rest.drop_first() =~= path@.skip(i as int + 1));
                assert(path@.subrange(i as int + 1, i as int + 1) =~= Seq::<char>::empty());
            }
            if is_kept_segment(seg) {
                let owned = seg.to_owned();
                proof {
                    assert(string_views(segs@.push(owned)) =~= string_views(segs@).push(owned@));
                    assert(string_views(segs@).push(cur) + segments_from(
                        path@.skip(i as int + 1),
                        Seq::<char>::empty(),
                    ) =~= string_views(segs@) + (seq![cur] + segments_from(
                        path@.skip(i as int + 1),
                        Seq::<char>::empty(),
                    )));
                }
                segs.push(owned);
            }
            start = i + 1;
        } else {
            proof {
                assert(rest.drop_first() =~= path@.skip(i as int + 1));
                assert(path@.subrange(start as int, i as int + 1) =~= cur.push(path@[i as int]));
            }
        }
        i = i + 1;
    }
    let ghost cur = path@.subrange(start as int, n as int);
    proof {
        assert(path@.skip(n as int) =~= Seq::<char>::empty());
    }
    let seg = path.substring_char(start, n);
    if is_kept_segment(seg) {
        let owned = seg.to_owned();
        proof {
            assert(string_views(segs@.push(owned)) =~= string_views(segs@).push(owned@));
            assert(string_views(segs@).push(cur) =~= string_views(segs@) + seq![cur]);
        }
        segs.push(owned);
    }
    segs
}

/// Strict lexicographic order on character sequences, by code point; the
/// order in which names are sorted within one directory level.
pub open spec fn lex_lt(a: Seq<char>, b: Seq<char>) -> bool
    decreases a.len(),
{
    if b.len() == 0 {
        false
    } else if a.len() == 0 {
        true
    } else if (a[0] as int) < (b[0] as int) {
        true
    } else if (a[0] as int) > (b[0] as int) {
        false
    } else {
        lex_lt(a.drop_first(), b.drop_first())
    }
}

/// `lex_lt` is trichotomous: two sequences are ordered one way, the other
/// way, or equal.
pub proof fn lemma_lex_lt_total(a: Seq<char>, b: Seq<char>)
    ensures
        lex_lt(a, b) || lex_lt(b, a) || a == b,
        lex_lt(a, b) ==> !lex_lt(b, a) && a != b,
    decreases a.len(),
{
    if a.len() > 0 && b.len() > 0 && a[0] as int == b[0] as int {
        lemma_lex_lt_total(a.drop_first(), b.drop_first());
        assert(a[0] == b[0]);
        if a.drop_first() == b.drop_first() {
            assert forall|i: int| 0 <= i < a.len() implies a[i] == b[i] by {
                if i > 0 {
                    assert(a[i] == a.drop_first()[i - 1]);
                    assert(b[i] == b.drop_first()[i - 1]);
                }
            }
            assert(a =~= b);
        } else {
            assert(a != b) by {
                if a == b {
                    assert(a.drop_first() =~= b.drop_first());
                }
            }
        }
    }
}

/// `lex_lt` is transitive, also through equality on either side.
pub proof fn lemma_lex_lt_trans(a: Seq<char>, b: Seq<char>, c: Seq<char>)
    ensures
        lex_lt(a, b) && lex_lt(b, c) ==> lex_lt(a, c),
    decreases a.len() + b.len() + c.len(),
{
    if lex_lt(a, b) && lex_lt(b, c) {
        if a.len() > 0 && b.len() > 0 && c.len() > 0 {
            if a[0] as int == b[0] as int && b[0] as int == c[0] as int {
                lemma_lex_lt_trans(a.drop_first(), b.drop_first(), c.drop_first());
            }
        }
    }
}

/// Decides [`lex_lt`] on two strings.
pub fn str_lex_lt(a: &str, b: &str) -> (r: bool)
    ensures
        r == lex_lt(a@, b@),
{
    let an = a.unicode_len();
    let bn = b.unicode_len();
    let mut i: usize = 0;
    proof {
        assert(a@.skip(0) =~= a@);
        assert(b@.skip(0) =~= b@);
    }
    loop
        invariant
            0 <= i <= an,
            i <= bn,
            an == a@.len(),
            bn == b@.len(),
            lex_lt(a@, b@) == lex_lt(a@.skip(i as int), b@.skip(i as int)),
        decreases an - i,
    {
        let ghost ar = a@.skip(i as int);
        let ghost br = b@.skip(i as int);
        if i == bn {
            return false;
        }
        if i == an {
            return true;
        }
        let ca = a.get_char(i);
        let cb = b.get_char(i);
        if (ca as u32) < (cb as u32) {
            return true;
        }
        if (ca as u32) > (cb as u32) {
            return false;
        }
        proof {
            assert(ar.drop_first() =~= a@.skip(i as int + 1));
            assert(br.drop_first() =~= b@.skip(i as int + 1));
        }
        i = i + 1;
    }
}

/// A leaf node carrying one file.
pub open spec fn leaf_v(name: Seq<char>, file_idx: usize) -> TreeNodeV {
    TreeNodeV {
        name: name,
        is_dir: false,
        children: Seq::<TreeNodeV>::empty(),
        file_index: Option::Some(file_idx),
    }
}

/// A fresh, empty directory node.
pub open spec fn dir_v(name: Seq<char>) -> TreeNodeV {
    TreeNodeV {
        name: name,
        is_dir: true,
        children: Seq::<TreeNodeV>::empty(),
        file_index: Option::<usize>::None,
    }
}

/// The first child that is a directory of the given name, or -1.
pub open spec fn find_dir_child(cs: Seq<TreeNodeV>, name: Seq<char>) -> int
    decreases cs.len(),
{
    if cs.len() == 0 {
        -1
    } else if cs[0].is_dir && cs[0].name == name {
        0
    } else {
        let r = find_dir_child(cs.drop_first(), name);
        if r < 0 {
            -1
        } else {
            r + 1
        }
    }
}

/// What `find_dir_child` finds: the smallest matching index, if any.
pub proof fn lemma_find_dir_child(cs: Seq<TreeNodeV>, name: Seq<char>)
    ensures
        find_dir_child(cs, name) == -1 ==> forall|k: int|
            0 <= k < cs.len() ==> !((#[trigger] cs[k]).is_dir && cs[k].name == name),
        find_dir_child(cs, name) != -1 ==> {
            let r = find_dir_child(cs, name);
            &&& 0 <= r < cs.len()
            &&& cs[r].is_dir && cs[r].name == name
            &&& forall|k: int| 0 <= k < r ==> !((#[trigger] cs[k]).is_dir && cs[k].name == name)
        },
    decreases cs.len(),
{
    if cs.len() > 0 && !(cs[0].is_dir && cs[0].name == name) {
        lemma_find_dir_child(cs.drop_first(), name);
        assert(forall|k: int| 1 <= k < cs.len() ==> cs[k] == cs.drop_first()[k - 1]);
    }
}

/// Inserting one path into a tree: walk or create directory nodes for the
/// leading segments, and attach a leaf carrying the file index at the last.
pub open spec fn insert_path_spec(node: TreeNodeV, segs: Seq<Seq<char>>, file_idx: usize) -> TreeNodeV
    decreases segs.len(),
{
    if segs.len() == 0 {
        node
    } else if segs.len() == 1 {
        TreeNodeV { children: node.children.push(leaf_v(segs[0], file_idx)), ..node }
    } else {
        let j = find_dir_child(node.children, segs[0]);
        if j < 0 {
            let child = insert_path_spec(dir_v(segs[0]), segs.drop_first(), file_idx);
            TreeNodeV { children: node.children.push(child), ..node }
        } else {
            let child = insert_path_spec(node.children[j], segs.drop_first(), file_idx);
            TreeNodeV { children: node.children.update(j, child), ..node }
        }
    }
}

/// Inserting a run of paths, the file at `paths[k]` receiving index
/// `first + k`.
pub open spec fn insert_all(node: TreeNodeV, paths: Seq<Seq<char>>, first: int) -> TreeNodeV
    decreases paths.len(),
{
    if paths.len() == 0 {
        node
    } else {
        insert_all(
            insert_path_spec(node, path_segments(paths[0]), first as usize),
            paths.drop_first(),
            first + 1,
        )
    }
}

/// The display order within one directory level: directories before
/// files, and within each group by name, earlier-inserted nodes first
/// among equals.
pub open spec fn child_le(a: TreeNodeV, b: TreeNodeV) -> bool {
    if a.is_dir != b.is_dir {
        a.is_dir
    } else {
        lex_lt(a.name, b.name) || a.name == b.name
    }
}

/// `child_le` is a total order on sibling nodes.
pub proof fn lemma_child_le_total(a: TreeNodeV, b: TreeNodeV)
    ensures
        child_le(a, b) || child_le(b, a),
{
    if a.is_dir == b.is_dir {
        lemma_lex_lt_total(a.name, b.name);
    }
}

/// `child_le` is transitive.
pub proof fn lemma_child_le_trans(a: TreeNodeV, b: TreeNodeV, c: TreeNodeV)
    ensures
        child_le(a, b) && child_le(b, c) ==> child_le(a, c),
{
    lemma_lex_lt_trans(a.name, b.name, c.name);
}

/// One directory level in display order: no sibling comes before an
/// earlier one.
pub open spec fn children_ordered(s: Seq<TreeNodeV>) -> bool {
    forall|i: int, j: int| 0 <= i < j < s.len() ==> child_le(#[trigger] s[i], #[trigger] s[j])
}

/// Inserts a node into an already-ordered run of siblings, after every
/// sibling that does not come after it.
pub open spec fn sorted_insert(x: TreeNodeV, s: Seq<TreeNodeV>) -> Seq<TreeNodeV>
    decreases s.len(),
{
    if s.len() == 0 {
        seq![x]
    } else if child_le(s[0], x) {
        seq![s[0]] + sorted_insert(x, s.drop_first())
    } else {
        seq![x] + s
    }
}

/// Where `sorted_insert` places the node: right after the maximal prefix
/// of siblings that do not come after it.
pub proof fn lemma_sorted_insert_at(x: TreeNodeV, s: Seq<TreeNodeV>, k: int)
    requires
        0 <= k <= s.len(),
        forall|j: int| 0 <= j < k ==> child_le(#[trigger] s[j], x),
        k < s.len() ==> !child_le(s[k], x),
    ensures
        sorted_insert(x, s) == s.subrange(0, k) + seq![x] + s.subrange(k, s.len() as int),
    decreases s.len(),
{
    if s.len() == 0 {
        assert(sorted_insert(x, s) =~= s.subrange(0, k) + seq![x] + s.subrange(k, s.len() as int));
    } else if k == 0 {
        assert(sorted_insert(x, s) =~= s.subrange(0, 0) + seq![x] + s.subrange(0, s.len() as int));
    } else {
        assert(child_le(s[0], x));
        assert(forall|j: int| 0 <= j < k - 1 ==> s.drop_first()[j] == s[j + 1]);
        lemma_sorted_insert_at(x, s.drop_first(), k - 1);
        assert(sorted_insert(x, s) =~= s.subrange(0, k) + seq![x] + s.subrange(k, s.len() as int));
    }
}

/// Ordered insertion keeps a run ordered, and adds exactly the inserted
/// node to its members.
proof fn lemma_sorted_insert_ordered(x: TreeNodeV, s: Seq<TreeNodeV>)
    requires
        children_ordered(s),
    ensures
        children_ordered(sorted_insert(x, s)),
        sorted_insert(x, s).len() == s.len() + 1,
        forall|i: int|
            0 <= i < sorted_insert(x, s).len() ==> (#[trigger] sorted_insert(x, s)[i]) == x
                || s.contains(sorted_insert(x, s)[i]),
    decreases s.len(),
{
    let r = sorted_insert(x, s);
    if s.len() == 0 {
        assert(r =~= seq![x]);
    } else if child_le(s[0], x) {
        let t = s.drop_first();
        assert(children_ordered(t)) by {
            assert(forall|i: int| 0 <= i < t.len() ==> t[i] == s[i + 1]);
        }
        lemma_sorted_insert_ordered(x, t);
        let rt = sorted_insert(x, t);
        assert(r =~= seq![s[0]] + rt);
        assert forall|i: int, j: int| 0 <= i < j < r.len() implies child_le(
            #[trigger] r[i],
            #[trigger] r[j],
        ) by {
            if i == 0 {
                assert(r[j] == rt[j - 1]);
                if rt[j - 1] == x {
                } else {
                    let k = choose|k: int| 0 <= k < t.len() && t[k] == rt[j - 1];
                    assert(t[k] == s[k + 1]);
                    assert(child_le(s[0], s[k + 1]));
                }
            } else {
                assert(r[i] == rt[i - 1] && r[j] == rt[j - 1]);
            }
        }
        assert forall|i: int|
            0 <= i < r.len() implies (#[trigger] r[i]) == x || s.contains(r[i]) by {
            if i == 0 {
                assert(s.contains(s[0]));
            } else {
                assert(r[i] == rt[i - 1]);
                if rt[i - 1] != x {
                    let k = choose|k: int| 0 <= k < t.len() && t[k] == rt[i - 1];
                    assert(s[k + 1] == rt[i - 1]);
                }
            }
        }
    } else {
        lemma_child_le_total(s[0], x);
        assert(r =~= seq![x] + s);
        assert forall|i: int, j: int| 0 <= i < j < r.len() implies child_le(
            #[trigger] r[i],
            #[trigger] r[j],
        ) by {
            if i == 0 {
                assert(r[j] == s[j - 1]);
                if j > 1 {
                    assert(child_le(s[0], s[j - 1]));
                }
                lemma_child_le_trans(x, s[0], s[j - 1]);
            } else {
                assert(r[i] == s[i - 1] && r[j] == s[j - 1]);
            }
        }
    }
}

/// Sorts one run of siblings by successive ordered insertion.
pub open spec fn sort_children(s: Seq<TreeNodeV>) -> Seq<TreeNodeV>
    decreases s.len(),
{
    if s.len() == 0 {
        Seq::<TreeNodeV>::empty()
    } else {
        sorted_insert(s.last(), sort_children(s.drop_last()))
    }
}

/// Sorting always yields an ordered run whose members come from the input.
proof fn lemma_sort_children_ordered(s: Seq<TreeNodeV>)
    ensures
        children_ordered(sort_children(s)),
        sort_children(s).len() == s.len(),
        forall|i: int|
            0 <= i < sort_children(s).len() ==> s.contains(#[trigger] sort_children(s)[i]),
    decreases s.len(),
{
    if s.len() > 0 {
        let t = s.drop_last();
        lemma_sort_children_ordered(t);
        lemma_sorted_insert_ordered(s.last(), sort_children(t));
        let r = sort_children(s);
        assert forall|i: int| 0 <= i < r.len() implies s.contains(#[trigger] r[i]) by {
            if r[i] == s.last() {
                assert(s[s.len() - 1] == s.last());
            } else {
                assert(sort_children(t).contains(r[i]));
                let k = choose|k: int| 0 <= k < sort_children(t).len() && sort_children(t)[k]
                    == r[i];
                lemma_sorted_insert_ordered(s.last(), sort_children(t));
                let m = choose|m: int| 0 <= m < t.len() && t[m] == r[i];
                assert(s[m] == t[m]);
            }
        }
    }
}

/// Sorts a whole tree: every node's children are recursively sorted, then
/// ordered directories-then-files, lexicographically by name.
pub open spec fn sort_tree_spec(node: TreeNodeV) -> TreeNodeV
    decreases node,
{
    TreeNodeV { children: sort_children(sort_trees_spec(node.children)), ..node }
}

pub open spec fn sort_trees_spec(s: Seq<TreeNodeV>) -> Seq<TreeNodeV>
    decreases s,
{
    if s.len() == 0 {
        Seq::<TreeNodeV>::empty()
    } else {
        seq![sort_tree_spec(s[0])] + sort_trees_spec(s.drop_first())
    }
}

/// `sort_trees_spec` maps `sort_tree_spec` element by element.
pub proof fn lemma_sort_trees_index(s: Seq<TreeNodeV>)
    ensures
        sort_trees_spec(s).len() == s.len(),
        forall|i: int|
            0 <= i < s.len() ==> #[trigger] sort_trees_spec(s)[i] == sort_tree_spec(s[i]),
    decreases s.len(),
{
    if s.len() > 0 {
        lemma_sort_trees_index(s.drop_first());
        assert forall|i: int| 0 <= i < s.len() implies #[trigger] sort_trees_spec(s)[i]
            == sort_tree_spec(s[i]) by {
            if i > 0 {
                assert(sort_trees_spec(s)[i] == sort_trees_spec(s.drop_first())[i - 1]);
                assert(s.drop_first()[i - 1] == s[i]);
            }
        }
    }
}

/// Every directory level of a tree is in display order.
pub open spec fn tree_ordered(node: TreeNodeV) -> bool
    decreases node,
{
    children_ordered(node.children) && trees_ordered(node.children)
}

pub open spec fn trees_ordered(s: Seq<TreeNodeV>) -> bool
    decreases s,
{
    forall|i: int| 0 <= i < s.len() ==> tree_ordered(#[trigger] s[i])
}

/// Sorting a whole tree orders every directory level.
pub proof fn lemma_sort_tree_ordered(node: TreeNodeV)
    ensures
        tree_ordered(sort_tree_spec(node)),
    decreases node,
{
    let mapped = sort_trees_spec(node.children);
    let sorted = sort_children(mapped);
    lemma_sort_trees_index(node.children);
    lemma_sort_children_ordered(mapped);
    assert forall|i: int| 0 <= i < sorted.len() implies tree_ordered(#[trigger] sorted[i]) by {
        assert(mapped.contains(sorted[i]));
        let k = choose|k: int| 0 <= k < mapped.len() && mapped[k] == sorted[i];
        assert(mapped[k] == sort_tree_spec(node.children[k]));
        assert(decreases_to!(node => node.children));
        assert(decreases_to!(node.children => node.children[k]));
        lemma_sort_tree_ordered(node.children[k]);
    }
    assert(sort_tree_spec(node).children == sorted);
}

/// The display tree of any path list is ordered at every level:
/// subdirectories before files, lexicographically by name within each
/// group.
pub proof fn lemma_build_tree_ordered(paths: Seq<Seq<char>>)
    ensures
        tree_ordered(build_tree_spec(paths)),
{
    lemma_sort_tree_ordered(insert_all(root_v(), paths, 0));
}

/// The status indicator to show for the file at `idx`, a blank one where
/// the index points outside the list.
pub open spec fn indicator_of(stats: Seq<FileStatus>, idx: usize) -> Seq<char> {
    if idx < stats.len() {
        indicator_spec(stats[idx as int])
    } else {
        "[ ]"@
    }
}

/// The label of one flattened row: status indicator and name for a file,
/// name and a path separator for a directory.
pub open spec fn row_label(node: TreeNodeV, stats: Seq<FileStatus>) -> Seq<char> {
    match node.file_index {
        Option::Some(idx) => indicator_of(stats, idx) + " "@ + node.name,
        Option::None => node.name + "/"@,
    }
}

pub open spec fn row_of(node: TreeNodeV, depth: usize, stats: Seq<FileStatus>) -> TreeRowV {
    TreeRowV {
        depth: depth,
        label: row_label(node, stats),
        is_dir: node.is_dir,
        file_index: node.file_index,
    }
}

/// One step deeper in indentation, capped at the machine limit.
pub open spec fn next_depth(depth: usize) -> usize {
    if depth < usize::MAX {
        (depth + 1) as usize
    } else {
        depth
    }
}

/// Depth-first pre-order flattening of a run of siblings: each node's row,
/// a directory's recursively flattened children right after its own row.
pub open spec fn flatten_children(cs: Seq<TreeNodeV>, depth: usize, stats: Seq<FileStatus>) -> Seq<
    TreeRowV,
>
    decreases cs,
{
    if cs.len() == 0 {
        Seq::<TreeRowV>::empty()
    } else {
        seq![row_of(cs[0], depth, stats)] + (if cs[0].is_dir {
            flatten_children(cs[0].children, next_depth(depth), stats)
        } else {
            Seq::<TreeRowV>::empty()
        }) + flatten_children(cs.drop_first(), depth, stats)
    }
}

/// The flattened rows of a whole tree; the root itself is not shown.
pub open spec fn flatten_spec(root: TreeNodeV, stats: Seq<FileStatus>) -> Seq<TreeRowV> {
    flatten_children(root.children, 0, stats)
}

/// Finds the position of the first directory child of the given name.
fn find_dir_pos(children: &Vec<TreeNode>, name: &String) -> (r: Option<usize>)
    ensures
        match r {
            Option::Some(j) => j < children@.len() && find_dir_child(
                tree_views(children@),
                name@,
            ) == j as int,
            Option::None => find_dir_child(tree_views(children@), name@) == -1,
        },
{
    let ghost cv = tree_views(children@);
    let n = children.len();
    let mut j: usize = 0;
    while j < n
        invariant
            0 <= j <= n,
            n == children@.len(),
            cv == tree_views(children@),
            forall|k: int| 0 <= k < j ==> !((#[trigger] cv[k]).is_dir && cv[k].name == name@),
        decreases n - j,
    {
        proof {
            lemma_tree_views_index(children@);
        }
        let c = &children[j];
        if c.is_dir && c.name == *name {
            proof {
                lemma_find_dir_child(cv, name@);
                assert(cv[j as int].is_dir && cv[j as int].name == name@);
                let r = find_dir_child(cv, name@);
                if r == -1 {
                    assert(!(cv[j as int].is_dir && cv[j as int].name == name@));
                    assert(false);
                } else {
                    if r < j {
                        assert(!(cv[r].is_dir && cv[r].name == name@));
                        assert(false);
                    }
                    if r > j {
                        assert(!(cv[j as int].is_dir && cv[j as int].name == name@));
                        assert(false);
                    }
                }
            }
            return Option::Some(j);
        }
        proof {
            assert(cv[j as int] == tree_view(children@[j as int]));
        }
        j = j + 1;
    }
    proof {
        lemma_tree_views_index(children@);
        lemma_find_dir_child(cv, name@);
        if find_dir_child(cv, name@) != -1 {
            let r = find_dir_child(cv, name@);
            assert(cv[r].is_dir && cv[r].name == name@);
            assert(false);
        }
    }
    Option::None
}

/// Inserts the path whose segments start at `segs[pos]` into the tree,
/// attaching a leaf that carries `file_idx`, exactly as
/// [`insert_path_spec`] states.
pub fn insert_path(node: &mut TreeNode, segs: &Vec<String>, pos: usize, file_idx: usize)
    requires
        pos <= segs@.len(),
    ensures
        tree_view(*final(node)) == insert_path_spec(
            tree_view(*old(node)),
            string_views(segs@).skip(pos as int),
            file_idx,
        ),
    decreases segs@.len() - pos,
{
    let ghost tail = string_views(segs@).skip(pos as int);
    let remaining = segs.len() - pos;
    if remaining == 0 {
        return;
    }
    let name = &segs[pos];
    proof {
        assert(tail[0] == segs@[pos as int]@);
    }
    if remaining == 1 {
        let leaf = TreeNode {
            name: name.clone(),
            is_dir: false,
            children: Vec::new(),
            file_index: Option::Some(file_idx),
        };
        proof {
            assert(tree_view(leaf) =~= leaf_v(tail[0], file_idx));
        }
        let ghost before = node.children@;
        node.children.push(leaf);
        proof {
            lemma_tree_views_push(before, leaf);
            assert(tree_view(*node) =~= insert_path_spec(tree_view(*old(node)), tail, file_idx));
        }
        return;
    }
    proof {
        assert(tail.drop_first() =~= string_views(segs@).skip(pos as int + 1));
    }
    match find_dir_pos(&node.children, name) {
        Option::None => {
            let mut child = TreeNode {
                name: name.clone(),
                is_dir: true,
                children: Vec::new(),
                file_index: Option::None,
            };
            proof {
                assert(tree_view(child) =~= dir_v(tail[0]));
            }
            insert_path(&mut child, segs, pos + 1, file_idx);
            let ghost before = node.children@;
            node.children.push(child);
            proof {
                lemma_tree_views_push(before, child);
                assert(tree_view(*node) =~= insert_path_spec(
                    tree_view(*old(node)),
                    tail,
                    file_idx,
                ));
            }
        },
        Option::Some(j) => {
            let ghost before = node.children@;
            proof {
                lemma_tree_views_index(before);
            }
            let mut child = node.children.remove(j);
            proof {
                assert(child == before[j as int]);
                assert(tree_view(child) == tree_views(before)[j as int]);
            }
            insert_path(&mut child, segs, pos + 1, file_idx);
            node.children.insert(j, child);
            proof {
                assert(node.children@ =~= before.update(j as int, child));
                lemma_tree_views_index(node.children@);
                lemma_tree_views_index(before);
                assert(tree_views(node.children@) =~= tree_views(before).update(
                    j as int,
                    tree_view(child),
                ));
                assert(tree_view(*node) =~= insert_path_spec(
                    tree_view(*old(node)),
                    tail,
                    file_idx,
                ));
            }
        },
    }
}

/// Decides [`child_le`] on two nodes.
fn child_le_exec(a: &TreeNode, b: &TreeNode) -> (r: bool)
    ensures
        r == child_le(tree_view(*a), tree_view(*b)),
{
    if a.is_dir != b.is_dir {
        a.is_dir
    } else {
        proof {
            lemma_lex_lt_total(b.name@, a.name@);
        }
        !str_lex_lt(b.name.as_str(), a.name.as_str())
    }
}

/// The position at which a node joins an already-ordered run: right after
/// every sibling that does not come after it.
fn insertion_point(sorted: &Vec<TreeNode>, x: &TreeNode) -> (k: usize)
    ensures
        k <= sorted@.len(),
        forall|m: int|
            0 <= m < k ==> child_le(#[trigger] tree_views(sorted@)[m], tree_view(*x)),
        k < sorted@.len() ==> !child_le(tree_views(sorted@)[k as int], tree_view(*x)),
{
    let n = sorted.len();
    let mut k: usize = 0;
    while k < n
        invariant
            0 <= k <= n,
            n == sorted@.len(),
            forall|m: int|
                0 <= m < k ==> child_le(#[trigger] tree_views(sorted@)[m], tree_view(*x)),
        decreases n - k,
    {
        proof {
            lemma_tree_views_index(sorted@);
        }
        if !child_le_exec(&sorted[k], x) {
            return k;
        }
        k = k + 1;
    }
    k
}

/// Returns the tree reordered for display, exactly as [`sort_tree_spec`]
/// states: children recursively ordered, directories before files,
/// lexicographically by name within each group.
pub fn sort_node(node: &TreeNode) -> (r: TreeNode)
    ensures
        tree_view(r) == sort_tree_spec(tree_view(*node)),
    decreases *node,
{
    let ghost mapped = sort_trees_spec(tree_views(node.children@));
    let n = node.children.len();
    let mut sorted: Vec<TreeNode> = Vec::new();
    let mut i: usize = 0;
    proof {
        lemma_tree_views_index(node.children@);
        lemma_sort_trees_index(tree_views(node.children@));
        assert(mapped.take(0) =~= Seq::<TreeNodeV>::empty());
        assert(tree_views(sorted@) =~= Seq::<TreeNodeV>::empty());
    }
    while i < n
        invariant
            0 <= i <= n,
            n == node.children@.len(),
            mapped == sort_trees_spec(tree_views(node.children@)),
            mapped.len() == n,
            sorted@.len() == i,
            tree_views(sorted@) == sort_children(mapped.take(i as int)),
        decreases n - i,
    {
        proof {
            lemma_tree_views_index(node.children@);
            lemma_sort_trees_index(tree_views(node.children@));
            assert(tree_views(node.children@)[i as int] == tree_view(node.children@[i as int]));
        }
        let c = &node.children[i];
        proof {
            assert(decreases_to!(*node => node.children));
            assert(decreases_to!(node.children => node.children@));
            assert(decreases_to!(node.children@ => node.children@[i as int]));
            assert(decreases_to!(*node => *c));
        }
        let sc = sort_node(c);
        proof {
            assert(tree_view(sc) == mapped[i as int]);
        }
        let ghost sv = tree_views(sorted@);
        let k = insertion_point(&sorted, &sc);
        proof {
            lemma_tree_views_index(sorted@);
            lemma_sorted_insert_at(tree_view(sc), sv, k as int);
        }
        let ghost before = sorted@;
        sorted.insert(k, sc);
        proof {
            lemma_tree_views_index(sorted@);
            lemma_tree_views_index(before);
            assert(sorted@ =~= before.subrange(0, k as int) + seq![sc] + before.subrange(
                k as int,
                before.len() as int,
            ));
            assert(tree_views(sorted@) =~= sv.subrange(0, k as int) + seq![tree_view(sc)]
                + sv.subrange(k as int, sv.len() as int));
            assert(tree_views(sorted@) == sorted_insert(tree_view(sc), sv));
            assert(mapped.take(i as int + 1).drop_last() =~= mapped.take(i as int));
            assert(mapped.take(i as int + 1).last() == mapped[i as int]);
            assert(tree_views(sorted@) == sort_children(mapped.take(i as int + 1)));
        }
        i = i + 1;
    }
    proof {
        assert(mapped.take(n as int) =~= mapped);
    }
    let r = TreeNode {
        name: node.name.clone(),
        is_dir: node.is_dir,
        children: sorted,
        file_index: node.file_index,
    };
    proof {
        assert(tree_view(r) =~= sort_tree_spec(tree_view(*node)));
    }
    r
}

/// The paths of the file list, in list order.
pub open spec fn paths_of(files: Seq<ChangedFile>) -> Seq<Seq<char>> {
    files.map_values(|f: ChangedFile| f.path@)
}

/// The statuses of the file list, in list order.
pub open spec fn statuses_of(files: Seq<ChangedFile>) -> Seq<FileStatus> {
    files.map_values(|f: ChangedFile| f.status)
}

/// The view of the synthetic root directory.
pub open spec fn root_v() -> TreeNodeV {
    dir_v(Seq::<char>::empty())
}

/// The display tree of a path list: every path inserted in order under the
/// synthetic root, then the whole tree sorted.
pub open spec fn build_tree_spec(paths: Seq<Seq<char>>) -> TreeNodeV {
    sort_tree_spec(insert_all(root_v(), paths, 0))
}

/// Builds the display tree of the changed-file list, exactly as
/// [`build_tree_spec`] states.
pub fn build_tree(files: &Vec<ChangedFile>) -> (root: TreeNode)
    ensures
        tree_view(root) == build_tree_spec(paths_of(files@)),
{
    let ghost paths = paths_of(files@);
    let mut root = TreeNode::root();
    let n = files.len();
    let mut i: usize = 0;
    proof {
        assert(tree_view(root) =~= root_v());
        assert(paths.skip(0) =~= paths);
    }
    while i < n
        invariant
            0 <= i <= n,
            n == files@.len(),
            paths == paths_of(files@),
            paths.len() == n,
            insert_all(root_v(), paths, 0) == insert_all(
                tree_view(root),
                paths.skip(i as int),
                i as int,
            ),
        decreases n - i,
    {
        let segs = split_path(files[i].path.as_str());
        let ghost tv0 = tree_view(root);
        proof {
            assert(paths[i as int] == files@[i as int].path@);
            assert(string_views(segs@).skip(0) =~= string_views(segs@));
        }
        insert_path(&mut root, &segs, 0, i);
        proof {
            let rest = paths.skip(i as int);
            assert(rest[0] == paths[i as int]);
            assert(rest.drop_first() =~= paths.skip(i as int + 1));
            assert(insert_all(tv0, rest, i as int) == insert_all(
                tree_view(root),
                paths.skip(i as int + 1),
                i as int + 1,
            ));
        }
        i = i + 1;
    }
    proof {
        assert(paths.skip(n as int) =~= Seq::<Seq<char>>::empty());
    }
    sort_node(&root)
}

/// Emits the flattened rows of every child of `node`, depth-first, after
/// whatever `rows` already holds.
fn flatten_rec(node: &TreeNode, depth: usize, files: &Vec<ChangedFile>, rows: &mut Vec<TreeRow>)
    ensures
        tree_rows_view(final(rows)@) == tree_rows_view(old(rows)@) + flatten_children(
            tree_view(*node).children,
            depth,
            statuses_of(files@),
        ),
    decreases *node,
{
    let ghost cv = tree_view(*node).children;
    let ghost stats = statuses_of(files@);
    let ghost base = tree_rows_view(rows@);
    let n = node.children.len();
    let mut i: usize = 0;
    proof {
        lemma_tree_views_index(node.children@);
        assert(cv.skip(0) =~= cv);
    }
    while i < n
        invariant
            0 <= i <= n,
            n == node.children@.len(),
            cv == tree_view(*node).children,
            cv.len() == n,
            stats == statuses_of(files@),
            base == tree_rows_view(old(rows)@),
            base + flatten_children(cv, depth, stats) == tree_rows_view(rows@) + flatten_children(
                cv.skip(i as int),
                depth,
                stats,
            ),
        decreases n - i,
    {
        proof {
            lemma_tree_views_index(node.children@);
            assert(cv[i as int] == tree_view(node.children@[i as int]));
        }
        let c = &node.children[i];
        let label: String = match c.file_index {
            Option::Some(idx) => {
                let ind = if idx < files.len() {
                    files[idx].status.indicator()
                } else {
                    "[ ]"
                };
                proof {
                    assert(statuses_of(files@).len() == files@.len());
                    if idx < files.len() {
                        assert(statuses_of(files@)[idx as int] == files@[idx as int].status);
                    }
                    assert(ind@ == indicator_of(stats, idx));
                }
                let mut l = ind.to_owned();
                l.append(" ");
                l.append(c.name.as_str());
                l
            },
            Option::None => {
                let mut l = c.name.as_str().to_owned();
                l.append("/");
                l
            },
        };
        let row = TreeRow { depth: depth, label: label, is_dir: c.is_dir, file_index: c.file_index };
        proof {
            assert(tree_row_view(row) =~= row_of(cv[i as int], depth, stats));
        }
        let ghost before = rows@;
        rows.push(row);
        proof {
            assert(tree_rows_view(before.push(row)) =~= tree_rows_view(before).push(
                tree_row_view(row),
            ));
        }
        if c.is_dir {
            let nd = if depth < usize::MAX {
                depth + 1
            } else {
                depth
            };
            proof {
                assert(decreases_to!(*node => node.children));
                assert(decreases_to!(node.children => node.children@));
                assert(decreases_to!(node.children@ => node.children@[i as int]));
                assert(decreases_to!(*node => *c));
            }
            flatten_rec(c, nd, files, rows);
        }
        proof {
            let rest = cv.skip(i as int);
            assert(rest[0] == cv[i as int]);
            assert(rest.drop_first() =~= cv.skip(i as int + 1));
        }
        i = i + 1;
    }
    proof {
        assert(cv.skip(n as int) =~= Seq::<TreeNodeV>::empty());
        assert(flatten_children(cv.skip(n as int), depth, stats) =~= Seq::<TreeRowV>::empty());
        assert(tree_rows_view(rows@) =~= base + flatten_children(cv, depth, stats));
    }
}

/// Flattens the display tree into render-ready rows, exactly as
/// [`flatten_spec`] states.
pub fn flatten_tree(root: &TreeNode, files: &Vec<ChangedFile>) -> (rows: Vec<TreeRow>)
    ensures
        tree_rows_view(rows@) == flatten_spec(tree_view(*root), statuses_of(files@)),
{
    let mut rows: Vec<TreeRow> = Vec::new();
    proof {
        assert(tree_rows_view(rows@) =~= Seq::<TreeRowV>::empty());
    }
    flatten_rec(root, 0, files, &mut rows);
    rows
}

} // verus!

