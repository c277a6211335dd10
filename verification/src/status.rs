//! Parsing of the change enumeration: classifies the NUL-separated records
//! of the version-control status listing into fresh file records with
//! their status flags, and orders them by path.
//!
//! The records arrive as plain strings; running the enumeration itself and
//! decoding its bytes stay outside.

use vstd::prelude::*;

use crate::model::ChangedFile;
use crate::model::ChangedFileV;
use crate::model::FileStatus;
use crate::model::file_view;
use crate::model::files_view;
use crate::tree::string_views;
use vstd::string::StrSliceExecFns;

verus! {

/// The Unicode white-space characters; they separate the fields of one
/// record.
pub open spec fn is_field_space(c: char) -> bool {
    let u = c as int;
    u == 0x09 || u == 0x0A || u == 0x0B || u == 0x0C || u == 0x0D || u == 0x20 || u == 0x85
        || u == 0xA0 || u == 0x1680 || (0x2000 <= u && u <= 0x200A) || u == 0x2028 || u == 0x2029
        || u == 0x202F || u == 0x205F || u == 0x3000
}

/// The whitespace-separated fields of one record, with `cur` the field
/// accumulated so far; empty fields are dropped.
pub open spec fn fields_from(s: Seq<char>, cur: Seq<char>) -> Seq<Seq<char>>
    decreases s.len(),
{
    if s.len() == 0 {
        if cur.len() > 0 {
            seq![cur]
        } else {
            Seq::<Seq<char>>::empty()
        }
    } else if is_field_space(s[0]) {
        (if cur.len() > 0 {
            seq![cur]
        } else {
            Seq::<Seq<char>>::empty()
        }) + fields_from(s.drop_first(), Seq::<char>::empty())
    } else {
        fields_from(s.drop_first(), cur.push(s[0]))
    }
}

pub open spec fn fields_of(s: Seq<char>) -> Seq<Seq<char>> {
    fields_from(s, Seq::<char>::empty())
}

/// Decides whether one character separates fields.
fn is_field_space_exec(c: char) -> (b: bool)
    ensures
        b == is_field_space(c),
{
    let u = c as u32;
    u == 0x09 || u == 0x0A || u == 0x0B || u == 0x0C || u == 0x0D || u == 0x20 || u == 0x85
        || u == 0xA0 || u == 0x1680 || (0x2000 <= u && u <= 0x200A) || u == 0x2028 || u == 0x2029
        || u == 0x202F || u == 0x205F || u == 0x3000
}

/// Splits one record into its whitespace-separated fields, as
/// [`fields_of`] states.
pub fn split_fields(s: &str) -> (fields: Vec<String>)
    ensures
        string_views(fields@) == fields_of(s@),
{
    let n = s.unicode_len();
    let mut fields: Vec<String> = Vec::new();
    let mut start: usize = 0;
    let mut i: usize = 0;
    proof {
        assert(s@.skip(0) =~= s@);
        assert(s@.subrange(0, 0) =~= Seq::<char>::empty());
        assert(string_views(fields@) =~= Seq::<Seq<char>>::empty());
    }
    while i < n
        invariant
            0 <= start <= i <= n,
            n == s@.len(),
            fields_of(s@) == string_views(fields@) + fields_from(
                s@.skip(i as int),
                s@.subrange(start as int, i as int),
            ),
        decreases n - i,
    {
        let ghost rest = s@.skip(i as int);
        let ghost cur = s@.subrange(start as int, i as int);
        if is_field_space_exec(s.get_char(i)) {
            let field = s.substring_char(start, i);
            proof {
                assert(rest.drop_first() =~= s@.skip(i as int + 1));
                assert(s@.subrange(i as int + 1, i as int + 1) =~= Seq::<char>::empty());
            }
            if field.unicode_len() > 0 {
                let owned = field.to_owned();
                proof {
                    assert(string_views(fields@.push(owned)) =~= string_views(fields@).push(
                        owned@,
                    ));
                    assert(string_views(fields@).push(cur) + fields_from(
                        s@.skip(i as int + 1),
                        Seq::<char>::empty(),
                    ) =~= string_views(fields@) + (seq![cur] + fields_from(
                        s@.skip(i as int + 1),
                        Seq::<char>::empty(),
                    )));
                }
                fields.push(owned);
            }
            start = i + 1;
        } else {
            proof {
                assert(rest.drop_first() =~= s@.skip(i as int + 1));
                assert(s@.subrange(start as int, i as int + 1) =~= cur.push(s@[i as int]));
            }
        }
        i = i + 1;
    }
    let ghost cur = s@.subrange(start as int, n as int);
    proof {
        assert(s@.skip(n as int) =~= Seq::<char>::empty());
    }
    let field = s.substring_char(start, n);
    if field.unicode_len() > 0 {
        let owned = field.to_owned();
        proof {
            assert(string_views(fields@.push(owned)) =~= string_views(fields@).push(owned@));
            assert(string_views(fields@).push(cur) =~= string_views(fields@) + seq![cur]);
        }
        fields.push(owned);
    }
    fields
}

/// The staged/unstaged flags read from a two-letter state field: a side is
/// flagged unless its letter is `'.'` or `' '`, a missing letter counting
/// as `'.'`.
pub open spec fn xy_spec(xy: Seq<char>) -> (bool, bool) {
    let x = if xy.len() > 0 {
        xy[0]
    } else {
        '.'
    };
    let y = if xy.len() > 1 {
        xy[1]
    } else {
        '.'
    };
    (x != '.' && x != ' ', y != '.' && y != ' ')
}

/// Reads the staged/unstaged flags of a state field, as [`xy_spec`]
/// states.
pub fn parse_xy(xy: &str) -> (r: (bool, bool))
    ensures
        r == xy_spec(xy@),
{
    let n = xy.unicode_len();
    let x = if n > 0 {
        xy.get_char(0)
    } else {
        '.'
    };
    let y = if n > 1 {
        xy.get_char(1)
    } else {
        '.'
    };
    (x != '.' && x != ' ', y != '.' && y != ' ')
}

/// A record of a file nothing has been loaded for yet.
pub open spec fn fresh_file_v(path: Seq<char>, status: FileStatus) -> ChangedFileV {
    ChangedFileV {
        path: path,
        status: status,
        old_content: Option::None,
        new_content: Option::None,
        aligned_rows: Option::None,
    }
}

/// Whether a record opens with the given marker character and a space.
pub open spec fn has_marker(e: Seq<char>, m: char) -> bool {
    e.len() >= 2 && e[0] == m && e[1] == ' '
}

/// The unsorted file records read from the status records, in record
/// order. Header records are skipped; `?` records carry untracked files,
/// with directory listings dropped; `1`, `2` and `u` records carry tracked
/// changes, their flags read from the second field and their path from the
/// last, a rename record consuming the following record, which holds the
/// original path.
pub open spec fn status_files(entries: Seq<Seq<char>>) -> Seq<ChangedFileV>
    decreases entries.len(),
{
    if entries.len() == 0 {
        Seq::<ChangedFileV>::empty()
    } else {
        let e = entries[0];
        let rest = status_files(entries.drop_first());
        if e.len() >= 1 && e[0] == '#' {
            rest
        } else if has_marker(e, '?') {
            let path = e.skip(2);
            if path.len() > 0 && path.last() == '/' {
                rest
            } else {
                seq![
                    fresh_file_v(
                        path,
                        FileStatus { staged: false, unstaged: true, untracked: true },
                    ),
                ] + rest
            }
        } else if has_marker(e, '1') || has_marker(e, '2') || has_marker(e, 'u') {
            let parts = fields_of(e);
            if parts.len() < 2 {
                rest
            } else {
                let flags = xy_spec(parts[1]);
                let path = parts.last();
                let tail = if has_marker(e, '2') && entries.len() >= 2 {
                    status_files(entries.skip(2))
                } else {
                    rest
                };
                if path.len() == 0 {
                    tail
                } else {
                    seq![
                        fresh_file_v(
                            path,
                            FileStatus { staged: flags.0, unstaged: flags.1, untracked: false },
                        ),
                    ] + tail
                }
            }
        } else {
            rest
        }
    }
}

/// Order of two path characters: the separator comes before every other
/// character, which makes the plain character comparison of [`path_lt`]
/// agree with comparing paths component by component.
pub open spec fn path_char_lt(x: char, y: char) -> bool {
    if x == '/' {
        y != '/'
    } else {
        y != '/' && (x as int) < (y as int)
    }
}

/// Strict component-wise order on paths: lexicographic by character, with
/// the separator before every other character, so that `a/c` comes before
/// `a-b` just as comparing the component lists does.
pub open spec fn path_lt(a: Seq<char>, b: Seq<char>) -> bool
    decreases a.len(),
{
    if b.len() == 0 {
        false
    } else if a.len() == 0 {
        true
    } else if path_char_lt(a[0], b[0]) {
        true
    } else if path_char_lt(b[0], a[0]) {
        false
    } else {
        path_lt(a.drop_first(), b.drop_first())
    }
}

/// `path_lt` is trichotomous: two paths are ordered one way, the other
/// way, or equal.
pub proof fn lemma_path_lt_total(a: Seq<char>, b: Seq<char>)
    ensures
        path_lt(a, b) || path_lt(b, a) || a == b,
        path_lt(a, b) ==> !path_lt(b, a) && a != b,
    decreases a.len(),
{
    if a.len() > 0 && b.len() > 0 && !path_char_lt(a[0], b[0]) && !path_char_lt(b[0], a[0]) {
        assert(a[0] == b[0]);
        lemma_path_lt_total(a.drop_first(), b.drop_first());
        if a.drop_first() == b.drop_first() {
            assert forall|i: int| 0 <= i < a.len() implies a[i] == b[i] by {
                if i > 0 {
                    assert(a[i] == a.drop_first()[i - 1]);
                    assert(b[i] == b.drop_first()[i - 1]);
                }
            }
            assert(a =~= b);
        } else {
            assert(a != b) by {
                if a == b {
                    assert(a.drop_first() =~= b.drop_first());
                }
            }
        }
    }
}

/// `path_lt` is transitive.
pub proof fn lemma_path_lt_trans(a: Seq<char>, b: Seq<char>, c: Seq<char>)
    ensures
        path_lt(a, b) && path_lt(b, c) ==> path_lt(a, c),
    decreases a.len() + b.len() + c.len(),
{
    if path_lt(a, b) && path_lt(b, c) {
        if a.len() > 0 && b.len() > 0 && c.len() > 0 {
            if a[0] == b[0] && b[0] == c[0] {
                lemma_path_lt_trans(a.drop_first(), b.drop_first(), c.drop_first());
            }
        }
    }
}

/// The display order of the file list: by path, component-wise.
pub open spec fn path_le(a: ChangedFileV, b: ChangedFileV) -> bool {
    path_lt(a.path, b.path) || a.path == b.path
}

/// Inserts a record into an already-ordered run, after every record that
/// does not come after it.
pub open spec fn sorted_insert_file(x: ChangedFileV, s: Seq<ChangedFileV>) -> Seq<ChangedFileV>
    decreases s.len(),
{
    if s.len() == 0 {
        seq![x]
    } else if path_le(s[0], x) {
        seq![s[0]] + sorted_insert_file(x, s.drop_first())
    } else {
        seq![x] + s
    }
}

/// Where `sorted_insert_file` places the record.
proof fn lemma_sorted_insert_file_at(x: ChangedFileV, s: Seq<ChangedFileV>, k: int)
    requires
        0 <= k <= s.len(),
        forall|j: int| 0 <= j < k ==> path_le(#[trigger] s[j], x),
        k < s.len() ==> !path_le(s[k], x),
    ensures
        sorted_insert_file(x, s) == s.subrange(0, k) + seq![x] + s.subrange(k, s.len() as int),
    decreases s.len(),
{
    if s.len() == 0 {
        assert(sorted_insert_file(x, s) =~= s.subrange(0, k) + seq![x] + s.subrange(
            k,
            s.len() as int,
        ));
    } else if k == 0 {
        assert(sorted_insert_file(x, s) =~= s.subrange(0, 0) + seq![x] + s.subrange(
            0,
            s.len() as int,
        ));
    } else {
        assert(path_le(s[0], x));
        assert(forall|j: int| 0 <= j < k - 1 ==> s.drop_first()[j] == s[j + 1]);
        lemma_sorted_insert_file_at(x, s.drop_first(), k - 1);
        assert(sorted_insert_file(x, s) =~= s.subrange(0, k) + seq![x] + s.subrange(
            k,
            s.len() as int,
        ));
    }
}

/// Sorts the records by path, stably: among equal paths the earlier record
/// stays first.
pub open spec fn sort_files(s: Seq<ChangedFileV>) -> Seq<ChangedFileV>
    decreases s.len(),
{
    if s.len() == 0 {
        Seq::<ChangedFileV>::empty()
    } else {
        sorted_insert_file(s.last(), sort_files(s.drop_last()))
    }
}

/// A file list in display order: no record's path comes before an
/// earlier one's.
pub open spec fn files_ordered(s: Seq<ChangedFileV>) -> bool {
    forall|i: int, j: int| 0 <= i < j < s.len() ==> path_le(#[trigger] s[i], #[trigger] s[j])
}

/// Ordered insertion keeps a file list ordered, and adds exactly the
/// inserted record to its members.
proof fn lemma_sorted_insert_file_ordered(x: ChangedFileV, s: Seq<ChangedFileV>)
    requires
        files_ordered(s),
    ensures
        files_ordered(sorted_insert_file(x, s)),
        sorted_insert_file(x, s).len() == s.len() + 1,
        forall|i: int|
            0 <= i < sorted_insert_file(x, s).len() ==> (#[trigger] sorted_insert_file(x, s)[i])
                == x || s.contains(sorted_insert_file(x, s)[i]),
    decreases s.len(),
{
    let r = sorted_insert_file(x, s);
    if s.len() == 0 {
        assert(r =~= seq![x]);
    } else if path_le(s[0], x) {
        let t = s.drop_first();
        assert(files_ordered(t)) by {
            assert(forall|i: int| 0 <= i < t.len() ==> t[i] == s[i + 1]);
        }
        lemma_sorted_insert_file_ordered(x, t);
        let rt = sorted_insert_file(x, t);
        assert(r =~= seq![s[0]] + rt);
        assert forall|i: int, j: int| 0 <= i < j < r.len() implies path_le(
            #[trigger] r[i],
            #[trigger] r[j],
        ) by {
            if i == 0 {
                assert(r[j] == rt[j - 1]);
                if rt[j - 1] != x {
                    let k = choose|k: int| 0 <= k < t.len() && t[k] == rt[j - 1];
                    assert(t[k] == s[k + 1]);
                    assert(path_le(s[0], s[k + 1]));
                }
            } else {
                assert(r[i] == rt[i - 1] && r[j] == rt[j - 1]);
            }
        }
        assert forall|i: int|
            0 <= i < r.len() implies (#[trigger] r[i]) == x || s.contains(r[i]) by {
            if i == 0 {
                assert(s.contains(s[0]));
            } else {
                assert(r[i] == rt[i - 1]);
                if rt[i - 1] != x {
                    let k = choose|k: int| 0 <= k < t.len() && t[k] == rt[i - 1];
                    assert(s[k + 1] == rt[i - 1]);
                }
            }
        }
    } else {
        lemma_path_lt_total(x.path, s[0].path);
        assert(r =~= seq![x] + s);
        assert forall|i: int, j: int| 0 <= i < j < r.len() implies path_le(
            #[trigger] r[i],
            #[trigger] r[j],
        ) by {
            if i == 0 {
                assert(r[j] == s[j - 1]);
                if j > 1 {
                    assert(path_le(s[0], s[j - 1]));
                }
                lemma_path_lt_trans(x.path, s[0].path, s[j - 1].path);
            } else {
                assert(r[i] == s[i - 1] && r[j] == s[j - 1]);
            }
        }
    }
}

/// The changed-file list read from the status records: parsed, then
/// ordered by path.
pub open spec fn collect_spec(entries: Seq<Seq<char>>) -> Seq<ChangedFileV> {
    sort_files(status_files(entries))
}

/// The collected file list is always in display order: sorted by path,
/// whatever records came in.
pub proof fn lemma_collect_sorted(entries: Seq<Seq<char>>)
    ensures
        files_ordered(collect_spec(entries)),
{
    lemma_sort_files_ordered(status_files(entries));
}

proof fn lemma_sort_files_ordered(s: Seq<ChangedFileV>)
    ensures
        files_ordered(sort_files(s)),
    decreases s.len(),
{
    if s.len() > 0 {
        lemma_sort_files_ordered(s.drop_last());
        lemma_sorted_insert_file_ordered(s.last(), sort_files(s.drop_last()));
    }
}

/// Whether one record opens with the marker and a space.
fn has_marker_exec(e: &str, m: char) -> (b: bool)
    ensures
        b == has_marker(e@, m),
{
    e.unicode_len() >= 2 && e.get_char(0) == m && e.get_char(1) == ' '
}

/// Parses the status records into unsorted file records, as
/// [`status_files`] states.
fn parse_status_entries(entries: &Vec<String>) -> (files: Vec<ChangedFile>)
    ensures
        files_view(files@) == status_files(string_views(entries@)),
{
    let ghost ev = string_views(entries@);
    let n = entries.len();
    let mut files: Vec<ChangedFile> = Vec::new();
    let mut i: usize = 0;
    proof {
        assert(ev.skip(0) =~= ev);
        assert(files_view(files@) =~= Seq::<ChangedFileV>::empty());
    }
    while i < n
        invariant
            0 <= i <= n,
            n == entries@.len(),
            ev == string_views(entries@),
            ev.len() == n,
            status_files(ev) == files_view(files@) + status_files(ev.skip(i as int)),
        decreases n - i,
    {
        let ghost rest = ev.skip(i as int);
        proof {
            assert(rest[0] == ev[i as int]);
            assert(rest.drop_first() =~= ev.skip(i as int + 1));
            assert(ev[i as int] == entries@[i as int]@);
        }
        let e = entries[i].as_str();
        let en = e.unicode_len();
        if en >= 1 && e.get_char(0) == '#' {
            i = i + 1;
            continue;
        }
        if has_marker_exec(e, '?') {
            let path = e.substring_char(2, en);
            let pn = path.unicode_len();
            proof {
                assert(path@ =~= ev[i as int].skip(2));
            }
            if !(pn > 0 && path.get_char(pn - 1) == '/') {
                let file = ChangedFile::new(
                    path.to_owned(),
                    FileStatus { staged: false, unstaged: true, untracked: true },
                );
                proof {
                    assert(files_view(files@.push(file)) =~= files_view(files@).push(
                        file_view(file),
                    ));
                }
                files.push(file);
            }
            i = i + 1;
            continue;
        }
        if has_marker_exec(e, '1') || has_marker_exec(e, '2') || has_marker_exec(e, 'u') {
            let parts = split_fields(e);
            if parts.len() < 2 {
                i = i + 1;
                continue;
            }
            let flags = parse_xy(parts[1].as_str());
            let path = &parts[parts.len() - 1];
            proof {
                assert(string_views(parts@)[1] == parts@[1]@);
                assert(string_views(parts@).last() == parts@[parts@.len() - 1]@);
            }
            let next_i = if has_marker_exec(e, '2') && i + 1 < n {
                i + 2
            } else {
                i + 1
            };
            proof {
                if has_marker(ev[i as int], '2') && i as int + 2 <= n {
                    assert(ev.skip(i as int).skip(2) =~= ev.skip(i as int + 2));
                }
            }
            if path.as_str().unicode_len() > 0 {
                let file = ChangedFile::new(
                    path.clone(),
                    FileStatus { staged: flags.0, unstaged: flags.1, untracked: false },
                );
                proof {
                    assert(files_view(files@.push(file)) =~= files_view(files@).push(
                        file_view(file),
                    ));
                }
                files.push(file);
            }
            i = next_i;
            continue;
        }
        i = i + 1;
    }
    proof {
        assert(ev.skip(n as int) =~= Seq::<Seq<char>>::empty());
    }
    files
}

/// Decides [`path_lt`] on two path strings.
fn path_str_lt(a: &str, b: &str) -> (r: bool)
    ensures
        r == path_lt(a@, b@),
{
    let an = a.unicode_len();
    let bn = b.unicode_len();
    let mut i: usize = 0;
    proof {
        assert(a@.skip(0) =~= a@);
        assert(b@.skip(0) =~= b@);
    }
    loop
        invariant
            0 <= i <= an,
            i <= bn,
            an == a@.len(),
            bn == b@.len(),
            path_lt(a@, b@) == path_lt(a@.skip(i as int), b@.skip(i as int)),
        decreases an - i,
    {
        let ghost ar = a@.skip(i as int);
        let ghost br = b@.skip(i as int);
        if i == bn {
            return false;
        }
        if i == an {
            return true;
        }
        let ca = a.get_char(i);
        let cb = b.get_char(i);
        let ca_sep = ca == '/';
        let cb_sep = cb == '/';
        if ca_sep && !cb_sep {
            return true;
        }
        if !ca_sep && cb_sep {
            return false;
        }
        if !ca_sep && !cb_sep {
            if (ca as u32) < (cb as u32) {
                return true;
            }
            if (ca as u32) > (cb as u32) {
                return false;
            }
        }
        proof {
            assert(ar.drop_first() =~= a@.skip(i as int + 1));
            assert(br.drop_first() =~= b@.skip(i as int + 1));
        }
        i = i + 1;
    }
}

/// Decides [`path_le`] on two records.
fn path_le_exec(a: &ChangedFile, b: &ChangedFile) -> (r: bool)
    ensures
        r == path_le(file_view(*a), file_view(*b)),
{
    proof {
        lemma_path_lt_total(b.path@, a.path@);
    }
    !path_str_lt(b.path.as_str(), a.path.as_str())
}

/// The position at which a record joins an already-ordered run.
fn file_insertion_point(sorted: &Vec<ChangedFile>, x: &ChangedFile) -> (k: usize)
    ensures
        k <= sorted@.len(),
        forall|m: int|
            0 <= m < k ==> path_le(#[trigger] files_view(sorted@)[m], file_view(*x)),
        k < sorted@.len() ==> !path_le(files_view(sorted@)[k as int], file_view(*x)),
{
    let n = sorted.len();
    let mut k: usize = 0;
    while k < n
        invariant
            0 <= k <= n,
            n == sorted@.len(),
            forall|m: int|
                0 <= m < k ==> path_le(#[trigger] files_view(sorted@)[m], file_view(*x)),
        decreases n - k,
    {
        if !path_le_exec(&sorted[k], x) {
            return k;
        }
        k = k + 1;
    }
    k
}

/// Reads the changed-file list out of the status records, exactly as
/// [`collect_spec`] states: parsed, then ordered by path.
pub fn collect_changed_files(entries: &Vec<String>) -> (files: Vec<ChangedFile>)
    ensures
        files_view(files@) == collect_spec(string_views(entries@)),
{
    let mut parsed = parse_status_entries(entries);
    let ghost pv = files_view(parsed@);
    let ghost orig = parsed@;
    let n = parsed.len();
    let mut sorted: Vec<ChangedFile> = Vec::new();
    let mut i: usize = 0;
    proof {
        assert(pv.take(0) =~= Seq::<ChangedFileV>::empty());
        assert(files_view(sorted@) =~= Seq::<ChangedFileV>::empty());
        assert(orig.skip(0) =~= orig);
    }
    while i < n
        invariant
            0 <= i <= n,
            n == orig.len(),
            pv == files_view(orig),
            pv.len() == n,
            parsed@ == orig.skip(i as int),
            sorted@.len() == i,
            files_view(sorted@) == sort_files(pv.take(i as int)),
        decreases n - i,
    {
        proof {
            assert(pv[i as int] == file_view(orig[i as int]));
        }
        let x = parsed.remove(0);
        proof {
            assert(x == orig[i as int]);
            assert(parsed@ =~= orig.skip(i as int + 1));
        }
        let ghost sv = files_view(sorted@);
        let k = file_insertion_point(&sorted, &x);
        proof {
            lemma_sorted_insert_file_at(file_view(x), sv, k as int);
        }
        let ghost before = sorted@;
        let ghost xv = file_view(x);
        sorted.insert(k, x);
        proof {
            assert(sorted@ =~= before.subrange(0, k as int) + seq![orig[i as int]]
                + before.subrange(k as int, before.len() as int));
            assert(files_view(sorted@) =~= sv.subrange(0, k as int) + seq![xv] + sv.subrange(
                k as int,
                sv.len() as int,
            ));
            assert(files_view(sorted@) == sorted_insert_file(xv, sv));
            assert(pv.take(i as int + 1).drop_last() =~= pv.take(i as int));
            assert(pv.take(i as int + 1).last() == pv[i as int]);
        }
        i = i + 1;
    }
    proof {
        assert(pv.take(n as int) =~= pv);
    }
    sorted
}

} // verus!
