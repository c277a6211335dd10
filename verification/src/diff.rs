//! Row alignment engine: turns the operation list of the line-diff
//! primitive into the synchronized two-pane display model.
//!
//! The line-diff primitive itself is an external collaborator; its result is
//! modeled by the uninterpreted function [`line_chunks_of`]. Everything that
//! happens after it — trailing-newline normalization, the zipper pairing of
//! edit chunks, line numbering, and the degenerate single-row case — is
//! verified here against [`align_spec`].

use vstd::prelude::*;

use crate::model::AlignedRow;
use crate::model::AlignedRowV;
use crate::model::RowKind;
use crate::model::row_view;
use crate::model::rows_view;

verus! {

/// The lines one operation of the line-diff primitive covers: the
/// baseline-side lines and the working-side lines, raw (newlines kept),
/// plus whether the operation reported the ranges as equal.
#[derive(Debug, Clone)]
pub struct DiffChunk {
    pub is_equal: bool,
    pub old_lines: Vec<String>,
    pub new_lines: Vec<String>,
}

/// Mathematical view of `DiffChunk`.
#[verifier::ext_equal]
pub ghost struct DiffChunkV {
    pub is_equal: bool,
    pub old_lines: Seq<Seq<char>>,
    pub new_lines: Seq<Seq<char>>,
}

pub open spec fn chunk_view(c: DiffChunk) -> DiffChunkV {
    DiffChunkV {
        is_equal: c.is_equal,
        old_lines: c.old_lines@.map_values(|s: String| s@),
        new_lines: c.new_lines@.map_values(|s: String| s@),
    }
}

pub open spec fn chunk_views(s: Seq<DiffChunk>) -> Seq<DiffChunkV> {
    s.map_values(|c: DiffChunk| chunk_view(c))
}

/// The operation list that the line-diff primitive computes for a pair of
/// inputs. It is a pure function of the two character sequences; nothing
/// more is assumed of it here.
pub uninterp spec fn line_chunks_of(old: Seq<char>, new: Seq<char>) -> Seq<DiffChunkV>;

/// Relies on `similar::TextDiff::from_lines` and its change iteration: the
/// operation list depends on the two inputs alone, and each change carries
/// one raw line of the side(s) its tag names. The operations cover both
/// inputs completely, and a non-empty input holds at least one line, so a
/// non-empty side contributes at least one line to the chunks.
#[verifier::external_body]
fn compute_line_chunks(old: &str, new: &str) -> (r: Vec<DiffChunk>)
    ensures
        chunk_views(r@) == line_chunks_of(old@, new@),
        old@.len() > 0 ==> total_old_lines(chunk_views(r@)) > 0,
        new@.len() > 0 ==> total_new_lines(chunk_views(r@)) > 0,
{
    let diff = similar::TextDiff::from_lines(old, new);
    diff.ops().iter().map(|op| {
        let is_equal = matches!(op.tag(), similar::DiffTag::Equal);
        let mut c = DiffChunk { is_equal, old_lines: Vec::new(), new_lines: Vec::new() };
        for ch in diff.iter_changes(op) {
            let line = ch.as_str().unwrap_or("").to_owned();
            match ch.tag() {
                similar::ChangeTag::Equal => { c.old_lines.push(line.clone()); c.new_lines.push(line); }
                similar::ChangeTag::Delete => c.old_lines.push(line),
                similar::ChangeTag::Insert => c.new_lines.push(line),
            }
        }
        c
    }).collect()
}

/// Trailing-newline normalization: one trailing `'\n'` is removed if
/// present, together with a `'\r'` immediately before it. A `'\r'` that
/// no `'\n'` follows is kept.
pub open spec fn clean_spec(s: Seq<char>) -> Seq<char> {
    if s.len() > 0 && s.last() == '\n' {
        let t = s.drop_last();
        if t.len() > 0 && t.last() == '\r' {
            t.drop_last()
        } else {
            t
        }
    } else {
        s
    }
}

/// Strips a trailing newline, and a carriage return directly before it,
/// from one raw line, for comparison and display.
pub fn clean_line(line: &str) -> (r: String)
    ensures
        r@ == clean_spec(line@),
{
    let n = line.unicode_len();
    let end: usize = if n > 0 && line.get_char(n - 1) == '\n' {
        if n > 1 && line.get_char(n - 2) == '\r' {
            n - 2
        } else {
            n - 1
        }
    } else {
        n
    };
    proof {
        assert(line@.subrange(0, end as int) =~= clean_spec(line@));
    }
    line.substring_char(0, end).to_owned()
}

/// The synthetic row shown when the display model would otherwise be empty.
pub open spec fn empty_row_v() -> AlignedRowV {
    AlignedRowV {
        left_line_no: Option::<usize>::None,
        right_line_no: Option::<usize>::None,
        left_text: Seq::<char>::empty(),
        right_text: Seq::<char>::empty(),
        kind: RowKind::Equal,
    }
}

/// Rows of one equal chunk: one row per line, identical text on both
/// sides, both counters advancing in lock-step.
pub open spec fn equal_chunk_rows(c: DiffChunkV, lno: int, rno: int) -> Seq<AlignedRowV> {
    Seq::new(
        c.old_lines.len(),
        |j: int| AlignedRowV {
            left_line_no: Option::Some((lno + j) as usize),
            right_line_no: Option::Some((rno + j) as usize),
            left_text: clean_spec(c.old_lines[j]),
            right_text: clean_spec(c.old_lines[j]),
            kind: RowKind::Equal,
        },
    )
}

/// Rows of one insert/delete/replace chunk: pairwise by index, the shorter
/// side blank for the trailing rows, each side's counter advancing only
/// where that side's cell is present.
pub open spec fn edit_chunk_rows(c: DiffChunkV, lno: int, rno: int) -> Seq<AlignedRowV> {
    let n = if c.old_lines.len() >= c.new_lines.len() {
        c.old_lines.len()
    } else {
        c.new_lines.len()
    };
    Seq::new(
        n,
        |j: int| AlignedRowV {
            left_line_no: if j < c.old_lines.len() {
                Option::Some((lno + j) as usize)
            } else {
                Option::None
            },
            right_line_no: if j < c.new_lines.len() {
                Option::Some((rno + j) as usize)
            } else {
                Option::None
            },
            left_text: if j < c.old_lines.len() {
                clean_spec(c.old_lines[j])
            } else {
                Seq::<char>::empty()
            },
            right_text: if j < c.new_lines.len() {
                clean_spec(c.new_lines[j])
            } else {
                Seq::<char>::empty()
            },
            kind: if j < c.old_lines.len() && j < c.new_lines.len() {
                RowKind::Changed
            } else if j < c.old_lines.len() {
                RowKind::Delete
            } else {
                RowKind::Insert
            },
        },
    )
}

pub open spec fn chunk_rows(c: DiffChunkV, lno: int, rno: int) -> Seq<AlignedRowV> {
    if c.is_equal {
        equal_chunk_rows(c, lno, rno)
    } else {
        edit_chunk_rows(c, lno, rno)
    }
}

/// How far one chunk advances the baseline line counter.
pub open spec fn chunk_left_adv(c: DiffChunkV) -> int {
    c.old_lines.len() as int
}

/// How far one chunk advances the working line counter.
pub open spec fn chunk_right_adv(c: DiffChunkV) -> int {
    if c.is_equal {
        c.old_lines.len() as int
    } else {
        c.new_lines.len() as int
    }
}

/// All rows of a chunk sequence, starting from the given 1-based counters.
pub open spec fn align_rows_from(chunks: Seq<DiffChunkV>, lno: int, rno: int) -> Seq<AlignedRowV>
    decreases chunks.len(),
{
    if chunks.len() == 0 {
        Seq::<AlignedRowV>::empty()
    } else {
        chunk_rows(chunks[0], lno, rno) + align_rows_from(
            chunks.drop_first(),
            lno + chunk_left_adv(chunks[0]),
            rno + chunk_right_adv(chunks[0]),
        )
    }
}

/// The aligned display model of a chunk sequence: its rows, or the one
/// synthetic empty row if there are none.
pub open spec fn align_spec(chunks: Seq<DiffChunkV>) -> Seq<AlignedRowV> {
    let rows = align_rows_from(chunks, 1, 1);
    if rows.len() == 0 {
        seq![empty_row_v()]
    } else {
        rows
    }
}

/// Total number of baseline-side lines over a chunk sequence.
pub open spec fn total_old_lines(chunks: Seq<DiffChunkV>) -> int
    decreases chunks.len(),
{
    if chunks.len() == 0 {
        0
    } else {
        chunk_left_adv(chunks[0]) + total_old_lines(chunks.drop_first())
    }
}

/// Total advance of the working-side counter over a chunk sequence.
pub open spec fn total_new_lines(chunks: Seq<DiffChunkV>) -> int
    decreases chunks.len(),
{
    if chunks.len() == 0 {
        0
    } else {
        chunk_right_adv(chunks[0]) + total_new_lines(chunks.drop_first())
    }
}

/// A chunk sequence holding at least one line on either side aligns to at
/// least one row.
pub proof fn lemma_align_rows_nonempty(chunks: Seq<DiffChunkV>, lno: int, rno: int)
    requires
        total_old_lines(chunks) > 0 || total_new_lines(chunks) > 0,
    ensures
        align_rows_from(chunks, lno, rno).len() > 0,
    decreases chunks.len(),
{
    let c = chunks[0];
    if chunk_rows(c, lno, rno).len() == 0 {
        assert(chunk_left_adv(c) == 0 && chunk_right_adv(c) == 0);
        lemma_align_rows_nonempty(chunks.drop_first(), lno, rno);
    }
}

/// For a chunk sequence holding at least one line — every pair of inputs
/// that is not wholly empty — the display model is the alignment itself,
/// with no synthetic row, and every row satisfies the strict invariant: an
/// `Equal` row carries identical text and both line numbers.
pub proof fn lemma_align_spec_strict(chunks: Seq<DiffChunkV>)
    requires
        total_old_lines(chunks) > 0 || total_new_lines(chunks) > 0,
    ensures
        align_spec(chunks) == align_rows_from(chunks, 1, 1),
        forall|i: int|
            0 <= i < align_spec(chunks).len() ==> row_wf_strict(
                #[trigger] align_spec(chunks)[i],
            ),
{
    lemma_align_rows_nonempty(chunks, 1, 1);
    lemma_align_rows_wf(chunks, 1, 1);
}

/// The machine limit under which every emitted line number fits in `usize`.
pub open spec fn counts_ok(chunks: Seq<DiffChunkV>) -> bool {
    &&& 1 + total_old_lines(chunks) <= usize::MAX as int
    &&& 1 + total_new_lines(chunks) <= usize::MAX as int
}

proof fn lemma_totals_split(chunks: Seq<DiffChunkV>, i: int)
    requires
        0 <= i < chunks.len(),
    ensures
        total_old_lines(chunks.subrange(i, chunks.len() as int)) == chunk_left_adv(chunks[i])
            + total_old_lines(chunks.subrange(i + 1, chunks.len() as int)),
        total_new_lines(chunks.subrange(i, chunks.len() as int)) == chunk_right_adv(chunks[i])
            + total_new_lines(chunks.subrange(i + 1, chunks.len() as int)),
{
    let tail = chunks.subrange(i, chunks.len() as int);
    assert(tail[0] == chunks[i]);
    assert(tail.drop_first() =~= chunks.subrange(i + 1, chunks.len() as int));
}

proof fn lemma_totals_nonneg(chunks: Seq<DiffChunkV>)
    ensures
        total_old_lines(chunks) >= 0,
        total_new_lines(chunks) >= 0,
    decreases chunks.len(),
{
    if chunks.len() > 0 {
        lemma_totals_nonneg(chunks.drop_first());
    }
}

/// Whether every line number that aligning these chunks emits fits in `usize`.
pub fn chunks_fit(chunks: &Vec<DiffChunk>) -> (b: bool)
    ensures
        b == counts_ok(chunk_views(chunks@)),
{
    let ghost cv = chunk_views(chunks@);
    let n = chunks.len();
    let mut acc_old: Option<usize> = Option::Some(0);
    let mut acc_new: Option<usize> = Option::Some(0);
    let mut i: usize = n;
    while i > 0
        invariant
            0 <= i <= n,
            n == chunks@.len(),
            cv == chunk_views(chunks@),
            cv.len() == n,
            match acc_old {
                Option::Some(v) => v as int == total_old_lines(cv.subrange(i as int, n as int)),
                Option::None => total_old_lines(cv.subrange(i as int, n as int)) > usize::MAX as int,
            },
            match acc_new {
                Option::Some(v) => v as int == total_new_lines(cv.subrange(i as int, n as int)),
                Option::None => total_new_lines(cv.subrange(i as int, n as int)) > usize::MAX as int,
            },
        decreases i,
    {
        i = i - 1;
        let c = &chunks[i];
        proof {
            assert(cv[i as int] == chunk_view(chunks@[i as int]));
            lemma_totals_split(cv, i as int);
            lemma_totals_nonneg(cv.subrange(i as int + 1, n as int));
        }
        let left_adv = c.old_lines.len();
        let right_adv = if c.is_equal {
            c.old_lines.len()
        } else {
            c.new_lines.len()
        };
        acc_old = match acc_old {
            Option::Some(v) => v.checked_add(left_adv),
            Option::None => Option::None,
        };
        acc_new = match acc_new {
            Option::Some(v) => v.checked_add(right_adv),
            Option::None => Option::None,
        };
    }
    proof {
        assert(cv.subrange(0, n as int) =~= cv);
    }
    match (acc_old, acc_new) {
        (Option::Some(a), Option::Some(b)) => a < usize::MAX && b < usize::MAX,
        _ => false,
    }
}

/// Produces the aligned display model of a chunk sequence, exactly as
/// [`align_spec`] states it.
pub fn align_chunks(chunks: &Vec<DiffChunk>) -> (rows: Vec<AlignedRow>)
    requires
        counts_ok(chunk_views(chunks@)),
    ensures
        rows_view(rows@) == align_spec(chunk_views(chunks@)),
        rows@.len() > 0,
{
    let ghost cv = chunk_views(chunks@);
    let n = chunks.len();
    let mut rows: Vec<AlignedRow> = Vec::new();
    let mut lno: usize = 1;
    let mut rno: usize = 1;
    let mut i: usize = 0;
    proof {
        assert(cv.subrange(0, n as int) =~= cv);
    }
    while i < n
        invariant
            0 <= i <= n,
            n == chunks@.len(),
            cv == chunk_views(chunks@),
            cv.len() == n,
            counts_ok(cv),
            lno as int - 1 + total_old_lines(cv.subrange(i as int, n as int)) == total_old_lines(
                cv,
            ),
            rno as int - 1 + total_new_lines(cv.subrange(i as int, n as int)) == total_new_lines(
                cv,
            ),
            align_rows_from(cv, 1, 1) == rows_view(rows@) + align_rows_from(
                cv.subrange(i as int, n as int),
                lno as int,
                rno as int,
            ),
        decreases n - i,
    {
        let ghost lno0 = lno as int;
        let ghost rno0 = rno as int;
        let ghost base = rows_view(rows@);
        let ghost cview = cv[i as int];
        proof {
            assert(cview == chunk_view(chunks@[i as int]));
            lemma_totals_split(cv, i as int);
            lemma_totals_nonneg(cv.subrange(i as int + 1, n as int));
            lemma_totals_nonneg(cv.subrange(i as int, n as int));
        }
        let c = &chunks[i];
        if c.is_equal {
            let m = c.old_lines.len();
            let mut j: usize = 0;
            while j < m
                invariant
                    0 <= j <= m,
                    m == c.old_lines@.len(),
                    c == chunks@[i as int],
                    0 <= i < n,
                    n == chunks@.len(),
                    cv == chunk_views(chunks@),
                    cview == chunk_view(chunks@[i as int]),
                    cview.is_equal,
                    lno as int == lno0 + j,
                    rno as int == rno0 + j,
                    lno0 + m <= usize::MAX,
                    rno0 + m <= usize::MAX,
                    rows_view(rows@) == base + equal_chunk_rows(cview, lno0, rno0).subrange(
                        0,
                        j as int,
                    ),
                decreases m - j,
            {
                let line = clean_line(c.old_lines[j].as_str());
                let row = AlignedRow {
                    left_line_no: Option::Some(lno),
                    right_line_no: Option::Some(rno),
                    left_text: line.clone(),
                    right_text: line,
                    kind: RowKind::Equal,
                };
                proof {
                    assert(cview.old_lines[j as int] == chunks@[i as int].old_lines@[j as int]@);
                    assert(row_view(row) == equal_chunk_rows(cview, lno0, rno0)[j as int]);
                    assert(rows_view(rows@.push(row)) =~= rows_view(rows@).push(row_view(row)));
                    assert(equal_chunk_rows(cview, lno0, rno0).subrange(0, j as int + 1)
                        =~= equal_chunk_rows(cview, lno0, rno0).subrange(0, j as int).push(
                        equal_chunk_rows(cview, lno0, rno0)[j as int],
                    ));
                }
                rows.push(row);
                lno = lno + 1;
                rno = rno + 1;
                j = j + 1;
            }
            proof {
                assert(equal_chunk_rows(cview, lno0, rno0).subrange(0, m as int)
                    =~= equal_chunk_rows(cview, lno0, rno0));
            }
        } else {
            let old_len = c.old_lines.len();
            let new_len = c.new_lines.len();
            let m = if old_len >= new_len {
                old_len
            } else {
                new_len
            };
            let mut j: usize = 0;
            while j < m
                invariant
                    0 <= j <= m,
                    old_len == c.old_lines@.len(),
                    new_len == c.new_lines@.len(),
                    m == if old_len >= new_len {
                        old_len
                    } else {
                        new_len
                    },
                    c == chunks@[i as int],
                    0 <= i < n,
                    n == chunks@.len(),
                    cv == chunk_views(chunks@),
                    cview == chunk_view(chunks@[i as int]),
                    !cview.is_equal,
                    lno as int == lno0 + if j <= old_len {
                        j as int
                    } else {
                        old_len as int
                    },
                    rno as int == rno0 + if j <= new_len {
                        j as int
                    } else {
                        new_len as int
                    },
                    lno0 + old_len <= usize::MAX,
                    rno0 + new_len <= usize::MAX,
                    rows_view(rows@) == base + edit_chunk_rows(cview, lno0, rno0).subrange(
                        0,
                        j as int,
                    ),
                decreases m - j,
            {
                let in_old = j < old_len;
                let in_new = j < new_len;
                let left_text = if in_old {
                    clean_line(c.old_lines[j].as_str())
                } else {
                    String::new()
                };
                let right_text = if in_new {
                    clean_line(c.new_lines[j].as_str())
                } else {
                    String::new()
                };
                let row = AlignedRow {
                    left_line_no: if in_old {
                        Option::Some(lno)
                    } else {
                        Option::None
                    },
                    right_line_no: if in_new {
                        Option::Some(rno)
                    } else {
                        Option::None
                    },
                    left_text,
                    right_text,
                    kind: if in_old && in_new {
                        RowKind::Changed
                    } else if in_old {
                        RowKind::Delete
                    } else {
                        RowKind::Insert
                    },
                };
                proof {
                    if in_old {
                        assert(cview.old_lines[j as int] == chunks@[i as int].old_lines@[
                            j as int
                        ]@);
                    }
                    if in_new {
                        assert(cview.new_lines[j as int] == chunks@[i as int].new_lines@[
                            j as int
                        ]@);
                    }
                    assert(row_view(row) == edit_chunk_rows(cview, lno0, rno0)[j as int]);
                    assert(rows_view(rows@.push(row)) =~= rows_view(rows@).push(row_view(row)));
                    assert(edit_chunk_rows(cview, lno0, rno0).subrange(0, j as int + 1)
                        =~= edit_chunk_rows(cview, lno0, rno0).subrange(0, j as int).push(
                        edit_chunk_rows(cview, lno0, rno0)[j as int],
                    ));
                }
                rows.push(row);
                if in_old {
                    lno = lno + 1;
                }
                if in_new {
                    rno = rno + 1;
                }
                j = j + 1;
            }
            proof {
                assert(edit_chunk_rows(cview, lno0, rno0).subrange(0, m as int)
                    =~= edit_chunk_rows(cview, lno0, rno0));
            }
        }
        proof {
            let tail = cv.subrange(i as int, n as int);
            assert(tail[0] == cview);
            assert(tail.drop_first() =~= cv.subrange(i as int + 1, n as int));
            assert(align_rows_from(tail, lno0, rno0) == chunk_rows(cview, lno0, rno0)
                + align_rows_from(cv.subrange(i as int + 1, n as int), lno as int, rno as int));
            assert(align_rows_from(cv, 1, 1) == rows_view(rows@) + align_rows_from(
                cv.subrange(i as int + 1, n as int),
                lno as int,
                rno as int,
            ));
        }
        i = i + 1;
    }
    proof {
        assert(cv.subrange(n as int, n as int) =~= Seq::<DiffChunkV>::empty());
        assert(align_rows_from(cv, 1, 1) =~= rows_view(rows@));
    }
    if rows.len() == 0 {
        let row = AlignedRow {
            left_line_no: Option::None,
            right_line_no: Option::None,
            left_text: String::new(),
            right_text: String::new(),
            kind: RowKind::Equal,
        };
        proof {
            assert(rows_view(rows@.push(row)) =~= rows_view(rows@).push(row_view(row)));
            assert(rows_view(rows@).push(row_view(row)) =~= seq![empty_row_v()]);
        }
        rows.push(row);
    }
    rows
}

/// The row invariant of the display model: an `Equal` row shows the same
/// text on both sides; line numbers are present exactly on the sides whose
/// text participates in the original sequences. The one row whose kind is
/// `Equal` without line numbers is the synthetic row of an empty diff,
/// which carries empty text.
pub open spec fn row_wf(r: AlignedRowV) -> bool {
    &&& (r.kind == RowKind::Equal ==> r.left_text == r.right_text && ((r.left_line_no is Some
        && r.right_line_no is Some) || (r.left_line_no is None && r.right_line_no is None
        && r.left_text.len() == 0)))
    &&& (r.kind == RowKind::Changed ==> r.left_line_no is Some && r.right_line_no is Some)
    &&& (r.kind == RowKind::Insert ==> r.left_line_no is None && r.right_line_no is Some)
    &&& (r.kind == RowKind::Delete ==> r.left_line_no is Some && r.right_line_no is None)
}

/// The strict form of [`row_wf`] that holds of every row aligned from an
/// actual chunk: an `Equal` row always has both line numbers.
pub open spec fn row_wf_strict(r: AlignedRowV) -> bool {
    &&& row_wf(r)
    &&& (r.kind == RowKind::Equal ==> r.left_line_no is Some && r.right_line_no is Some)
}

/// Every row aligned from a chunk sequence satisfies the strict row
/// invariant: equal rows carry identical text and both line numbers,
/// changed rows both numbers, inserted rows only the working-side number,
/// deleted rows only the baseline-side number.
pub proof fn lemma_align_rows_wf(chunks: Seq<DiffChunkV>, lno: int, rno: int)
    ensures
        forall|i: int|
            0 <= i < align_rows_from(chunks, lno, rno).len() ==> row_wf_strict(
                #[trigger] align_rows_from(chunks, lno, rno)[i],
            ),
    decreases chunks.len(),
{
    if chunks.len() > 0 {
        let head = chunk_rows(chunks[0], lno, rno);
        let rest = align_rows_from(
            chunks.drop_first(),
            lno + chunk_left_adv(chunks[0]),
            rno + chunk_right_adv(chunks[0]),
        );
        lemma_align_rows_wf(
            chunks.drop_first(),
            lno + chunk_left_adv(chunks[0]),
            rno + chunk_right_adv(chunks[0]),
        );
        assert forall|i: int| 0 <= i < align_rows_from(chunks, lno, rno).len() implies row_wf_strict(
            #[trigger] align_rows_from(chunks, lno, rno)[i],
        ) by {
            if i < head.len() {
                assert(align_rows_from(chunks, lno, rno)[i] == head[i]);
            } else {
                assert(align_rows_from(chunks, lno, rno)[i] == rest[i - head.len()]);
            }
        }
    }
}

/// The display model of any chunk sequence is never empty, and every one
/// of its rows satisfies the row invariant.
pub proof fn lemma_align_spec_wf(chunks: Seq<DiffChunkV>)
    ensures
        align_spec(chunks).len() > 0,
        forall|i: int|
            0 <= i < align_spec(chunks).len() ==> row_wf(#[trigger] align_spec(chunks)[i]),
{
    lemma_align_rows_wf(chunks, 1, 1);
}

/// The display model of a baseline/working text pair: [`align_spec`] of
/// the chunks the line-diff primitive computes for the pair; should those
/// chunks hold more lines than any `usize` line number could count, the
/// model degrades to the single synthetic empty row.
pub open spec fn aligned_of(old: Seq<char>, new: Seq<char>) -> Seq<AlignedRowV> {
    if counts_ok(line_chunks_of(old, new)) {
        align_spec(line_chunks_of(old, new))
    } else {
        seq![empty_row_v()]
    }
}

/// Aligns a baseline/working text pair into the two-pane display model,
/// exactly as [`aligned_of`] states.
pub fn align_full_file(old: &str, new: &str) -> (rows: Vec<AlignedRow>)
    ensures
        rows_view(rows@) == aligned_of(old@, new@),
        rows@.len() > 0,
        forall|i: int| 0 <= i < rows@.len() ==> row_wf(row_view(#[trigger] rows@[i])),
        counts_ok(line_chunks_of(old@, new@)) && (old@.len() > 0 || new@.len() > 0)
            ==> forall|i: int|
            0 <= i < rows@.len() ==> row_wf_strict(row_view(#[trigger] rows@[i])),
{
    let chunks = compute_line_chunks(old, new);
    if chunks_fit(&chunks) {
        let rows = align_chunks(&chunks);
        proof {
            lemma_align_spec_wf(chunk_views(chunks@));
            if old@.len() > 0 || new@.len() > 0 {
                lemma_align_spec_strict(chunk_views(chunks@));
            }
            assert(forall|i: int|
                0 <= i < rows@.len() ==> row_view(#[trigger] rows@[i]) == rows_view(rows@)[i]);
        }
        rows
    } else {
        let mut rows: Vec<AlignedRow> = Vec::new();
        let row = AlignedRow {
            left_line_no: Option::None,
            right_line_no: Option::None,
            left_text: String::new(),
            right_text: String::new(),
            kind: RowKind::Equal,
        };
        proof {
            assert(rows_view(rows@.push(row)) =~= seq![empty_row_v()]);
        }
        rows.push(row);
        rows
    }
}

} // verus!
