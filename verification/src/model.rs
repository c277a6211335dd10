//! Data model of the viewer: change status, file records, aligned display
//! rows, and the directory tree, together with their mathematical views.

use vstd::prelude::*;

verus! {

/// Per-file change status: three independent flags.
#[derive(Debug, Clone, Copy)]
pub struct FileStatus {
    pub staged: bool,
    pub unstaged: bool,
    pub untracked: bool,
}

/// The display indicator derived from a status: untracked dominates,
/// then staged+unstaged, staged only, unstaged only, and none.
pub open spec fn indicator_spec(s: FileStatus) -> Seq<char> {
    if s.untracked {
        "[N]"@
    } else if s.staged && s.unstaged {
        "[SU]"@
    } else if s.staged {
        "[S]"@
    } else if s.unstaged {
        "[U]"@
    } else {
        "[ ]"@
    }
}

impl FileStatus {
    /// The five-way display indicator of this status.
    pub fn indicator(&self) -> (r: &'static str)
        ensures
            r@ == indicator_spec(*self),
    {
        if self.untracked {
            "[N]"
        } else if self.staged && self.unstaged {
            "[SU]"
        } else if self.staged {
            "[S]"
        } else if self.unstaged {
            "[U]"
        } else {
            "[ ]"
        }
    }
}

/// Loaded content of one side of a file: UTF-8 text, or an opaque
/// marker for bytes that do not decode.
#[derive(Debug, Clone)]
pub enum ContentData {
    Text(String),
    Binary,
}

/// Relies on `String::from_utf8`: it returns `Ok` exactly on valid UTF-8,
/// decoding the bytes to their Unicode scalar values, and `Err` otherwise.
#[verifier::external_body]
pub fn bytes_to_content(bytes: Vec<u8>) -> (r: ContentData)
    ensures
        match r {
            ContentData::Text(s) => vstd::utf8::valid_utf8(bytes@) && s@ == vstd::utf8::decode_utf8(
                bytes@,
            ),
            ContentData::Binary => !vstd::utf8::valid_utf8(bytes@),
        },
{
    match String::from_utf8(bytes) {
        Ok(text) => ContentData::Text(text),
        Err(_) => ContentData::Binary,
    }
}

/// Mathematical view of `ContentData`.
pub ghost enum ContentDataV {
    Text(Seq<char>),
    Binary,
}

pub open spec fn content_view(c: ContentData) -> ContentDataV {
    match c {
        ContentData::Text(s) => ContentDataV::Text(s@),
        ContentData::Binary => ContentDataV::Binary,
    }
}

/// Kind of one aligned display row.
#[derive(Debug, Clone, Copy, PartialEq, Eq, Structural)]
pub enum RowKind {
    Equal,
    Changed,
    Insert,
    Delete,
}

/// One visual line of the two-pane display.
#[derive(Debug, Clone)]
pub struct AlignedRow {
    pub left_line_no: Option<usize>,
    pub right_line_no: Option<usize>,
    pub left_text: String,
    pub right_text: String,
    pub kind: RowKind,
}

/// Mathematical view of `AlignedRow`.
#[verifier::ext_equal]
pub ghost struct AlignedRowV {
    pub left_line_no: Option<usize>,
    pub right_line_no: Option<usize>,
    pub left_text: Seq<char>,
    pub right_text: Seq<char>,
    pub kind: RowKind,
}

pub open spec fn row_view(r: AlignedRow) -> AlignedRowV {
    AlignedRowV {
        left_line_no: r.left_line_no,
        right_line_no: r.right_line_no,
        left_text: r.left_text@,
        right_text: r.right_text@,
        kind: r.kind,
    }
}

pub open spec fn rows_view(s: Seq<AlignedRow>) -> Seq<AlignedRowV> {
    s.map_values(|r: AlignedRow| row_view(r))
}

/// One record of the changed-file list. The path is the identity key
/// across refreshes; content and aligned rows are loaded lazily.
#[derive(Debug, Clone)]
pub struct ChangedFile {
    pub path: String,
    pub status: FileStatus,
    pub old_content: Option<ContentData>,
    pub new_content: Option<ContentData>,
    pub aligned_rows: Option<Vec<AlignedRow>>,
}

/// Mathematical view of `ChangedFile`.
#[verifier::ext_equal]
pub ghost struct ChangedFileV {
    pub path: Seq<char>,
    pub status: FileStatus,
    pub old_content: Option<ContentDataV>,
    pub new_content: Option<ContentDataV>,
    pub aligned_rows: Option<Seq<AlignedRowV>>,
}

pub open spec fn file_view(f: ChangedFile) -> ChangedFileV {
    ChangedFileV {
        path: f.path@,
        status: f.status,
        old_content: match f.old_content {
            Option::Some(c) => Option::Some(content_view(c)),
            Option::None => Option::None,
        },
        new_content: match f.new_content {
            Option::Some(c) => Option::Some(content_view(c)),
            Option::None => Option::None,
        },
        aligned_rows: match f.aligned_rows {
            Option::Some(rows) => Option::Some(rows_view(rows@)),
            Option::None => Option::None,
        },
    }
}

pub open spec fn files_view(s: Seq<ChangedFile>) -> Seq<ChangedFileV> {
    s.map_values(|f: ChangedFile| file_view(f))
}

impl ChangedFile {
    /// A fresh record with nothing loaded yet.
    pub fn new(path: String, status: FileStatus) -> (r: ChangedFile)
        ensures
            file_view(r) == (ChangedFileV {
                path: path@,
                status: status,
                old_content: Option::<ContentDataV>::None,
                new_content: Option::<ContentDataV>::None,
                aligned_rows: Option::<Seq<AlignedRowV>>::None,
            }),
    {
        ChangedFile {
            path,
            status,
            old_content: Option::None,
            new_content: Option::None,
            aligned_rows: Option::None,
        }
    }
}

/// A node of the directory tree: a directory with ordered children, or a
/// leaf carrying the index of its file in the flat file list.
#[derive(Debug)]
pub struct TreeNode {
    pub name: String,
    pub is_dir: bool,
    pub children: Vec<TreeNode>,
    pub file_index: Option<usize>,
}

/// Mathematical view of `TreeNode`.
#[verifier::ext_equal]
pub ghost struct TreeNodeV {
    pub name: Seq<char>,
    pub is_dir: bool,
    pub children: Seq<TreeNodeV>,
    pub file_index: Option<usize>,
}

pub open spec fn tree_view(node: TreeNode) -> TreeNodeV
    decreases node,
{
    TreeNodeV {
        name: node.name@,
        is_dir: node.is_dir,
        children: tree_views(node.children@),
        file_index: node.file_index,
    }
}

pub open spec fn tree_views(s: Seq<TreeNode>) -> Seq<TreeNodeV>
    decreases s,
{
    if s.len() == 0 {
        Seq::<TreeNodeV>::empty()
    } else {
        seq![tree_view(s[0])] + tree_views(s.drop_first())
    }
}

/// `tree_views` maps `tree_view` over the sequence element by element.
pub proof fn lemma_tree_views_index(s: Seq<TreeNode>)
    ensures
        tree_views(s).len() == s.len(),
        forall|i: int| 0 <= i < s.len() ==> #[trigger] tree_views(s)[i] == tree_view(s[i]),
    decreases s.len(),
{
    if s.len() > 0 {
        lemma_tree_views_index(s.drop_first());
        assert forall|i: int| 0 <= i < s.len() implies #[trigger] tree_views(s)[i] == tree_view(
            s[i],
        ) by {
            if i > 0 {
                assert(tree_views(s)[i] == tree_views(s.drop_first())[i - 1]);
                assert(s.drop_first()[i - 1] == s[i]);
            }
        }
    }
}

/// `tree_views` distributes over `push`.
pub proof fn lemma_tree_views_push(s: Seq<TreeNode>, x: TreeNode)
    ensures
        tree_views(s.push(x)) =~= tree_views(s).push(tree_view(x)),
{
    lemma_tree_views_index(s.push(x));
    lemma_tree_views_index(s);
    assert(tree_views(s.push(x)).len() == s.len() + 1);
    assert forall|i: int| 0 <= i < s.len() + 1 implies tree_views(s.push(x))[i]
        == tree_views(s).push(tree_view(x))[i] by {
        if i < s.len() {
            assert(s.push(x)[i] == s[i]);
        } else {
            assert(s.push(x)[i] == x);
        }
    }
}

impl TreeNode {
    /// The synthetic unnamed directory that roots every tree.
    pub fn root() -> (r: TreeNode)
        ensures
            tree_view(r) == (TreeNodeV {
                name: Seq::<char>::empty(),
                is_dir: true,
                children: Seq::<TreeNodeV>::empty(),
                file_index: Option::<usize>::None,
            }),
    {
        let r = TreeNode {
            name: String::new(),
            is_dir: true,
            children: Vec::new(),
            file_index: Option::None,
        };
        proof {
            assert(tree_view(r) =~= TreeNodeV {
                name: Seq::<char>::empty(),
                is_dir: true,
                children: Seq::<TreeNodeV>::empty(),
                file_index: Option::<usize>::None,
            });
        }
        r
    }
}

/// A flattened, depth-annotated row of the rendered tree.
#[derive(Debug, Clone)]
pub struct TreeRow {
    pub depth: usize,
    pub label: String,
    pub is_dir: bool,
    pub file_index: Option<usize>,
}

/// Mathematical view of `TreeRow`.
#[verifier::ext_equal]
pub ghost struct TreeRowV {
    pub depth: usize,
    pub label: Seq<char>,
    pub is_dir: bool,
    pub file_index: Option<usize>,
}

pub open spec fn tree_row_view(r: TreeRow) -> TreeRowV {
    TreeRowV {
        depth: r.depth,
        label: r.label@,
        is_dir: r.is_dir,
        file_index: r.file_index,
    }
}

pub open spec fn tree_rows_view(s: Seq<TreeRow>) -> Seq<TreeRowV> {
    s.map_values(|r: TreeRow| tree_row_view(r))
}

} // verus!
