//! Working-tree status: porcelain codes for one entry and the sorted list
//! of files a git panel shows.

use vstd::prelude::*;

use crate::text::push_char;

verus! {

/// Status bit: the file is new in the index.
pub const STATUS_INDEX_NEW: u32 = 0x1;
/// Status bit: the file is modified in the index.
pub const STATUS_INDEX_MODIFIED: u32 = 0x2;
/// Status bit: the file is deleted in the index.
pub const STATUS_INDEX_DELETED: u32 = 0x4;
/// Status bit: the file is renamed in the index.
pub const STATUS_INDEX_RENAMED: u32 = 0x8;
/// Status bit: the file changed type in the index.
pub const STATUS_INDEX_TYPECHANGE: u32 = 0x10;
/// Status bit: the file is new in the working tree (untracked).
pub const STATUS_WT_NEW: u32 = 0x80;
/// Status bit: the file is modified in the working tree.
pub const STATUS_WT_MODIFIED: u32 = 0x100;
/// Status bit: the file is deleted in the working tree.
pub const STATUS_WT_DELETED: u32 = 0x200;
/// Status bit: the file changed type in the working tree.
pub const STATUS_WT_TYPECHANGE: u32 = 0x400;
/// Status bit: the file is renamed in the working tree.
pub const STATUS_WT_RENAMED: u32 = 0x800;
/// Status bit: the file is ignored.
pub const STATUS_IGNORED: u32 = 0x4000;
/// Status bit: the file has merge conflicts.
pub const STATUS_CONFLICTED: u32 = 0x8000;

/// All index-side change bits.
pub const STATUS_INDEX_CHANGES: u32 = STATUS_INDEX_NEW | STATUS_INDEX_MODIFIED | STATUS_INDEX_DELETED
    | STATUS_INDEX_RENAMED | STATUS_INDEX_TYPECHANGE;

/// `bits` carries every bit of `flag`.
pub open spec fn has_flag(bits: u32, flag: u32) -> bool {
    bits & flag == flag
}

/// `bits` carries at least one index-side change.
pub open spec fn index_changed(bits: u32) -> bool {
    bits & STATUS_INDEX_CHANGES != 0
}

/// The `X` column: what happened between HEAD and the index. A staged
/// rename with edits carries both the renamed and the modified bit and
/// shows as `R`, as in `git status`; otherwise the first of new, modified,
/// deleted, renamed and type change decides.
pub open spec fn index_column(bits: u32) -> char {
    if has_flag(bits, STATUS_INDEX_NEW) {
        'A'
    } else if has_flag(bits, STATUS_INDEX_RENAMED) && has_flag(bits, STATUS_INDEX_MODIFIED) {
        'R'
    } else if has_flag(bits, STATUS_INDEX_MODIFIED) {
        'M'
    } else if has_flag(bits, STATUS_INDEX_DELETED) {
        'D'
    } else if has_flag(bits, STATUS_INDEX_RENAMED) {
        'R'
    } else if has_flag(bits, STATUS_INDEX_TYPECHANGE) {
        'T'
    } else {
        ' '
    }
}

/// The `Y` column: what happened between the index and the working tree.
pub open spec fn worktree_column(bits: u32) -> char {
    if has_flag(bits, STATUS_WT_MODIFIED) {
        'M'
    } else if has_flag(bits, STATUS_WT_DELETED) {
        'D'
    } else if has_flag(bits, STATUS_WT_RENAMED) {
        'R'
    } else if has_flag(bits, STATUS_WT_TYPECHANGE) {
        'T'
    } else {
        ' '
    }
}

/// The entry is untracked: only the working-tree "new" bit, no index change.
pub open spec fn is_untracked(bits: u32) -> bool {
    has_flag(bits, STATUS_WT_NEW) && !index_changed(bits)
}

/// Porcelain `XY` code of an entry.
pub open spec fn porcelain_code(bits: u32) -> Seq<char> {
    if has_flag(bits, STATUS_CONFLICTED) {
        seq!['U', 'U']
    } else if is_untracked(bits) {
        seq!['?', '?']
    } else {
        seq![index_column(bits), worktree_column(bits)]
    }
}

/// The entry belongs in the staged list.
pub open spec fn porcelain_staged(bits: u32) -> bool {
    !has_flag(bits, STATUS_CONFLICTED) && !is_untracked(bits) && index_column(bits) != ' '
}

/// The entry belongs in the unstaged ("changes") list.
pub open spec fn porcelain_unstaged(bits: u32) -> bool {
    has_flag(bits, STATUS_CONFLICTED) || is_untracked(bits) || worktree_column(bits) != ' '
}

/// A two-character string.
fn two_chars(a: char, b: char) -> (res: String)
    ensures
        res@ == seq![a, b],
{
    let mut res = String::new();
    push_char(&mut res, a);
    push_char(&mut res, b);
    assert(res@ =~= seq![a, b]);
    res
}

/// Whether `bits` carries any index-side change.
pub fn has_index_change(bits: u32) -> (res: bool)
    ensures
        res == index_changed(bits),
{
    bits & STATUS_INDEX_CHANGES != 0
}

/// Porcelain `XY` status code plus staged/unstaged flags for one entry. A
/// file with both index and worktree changes (e.g. `MM`) is both.
pub fn porcelain(bits: u32) -> (res: (String, bool, bool))
    ensures
        res.0@ == porcelain_code(bits),
        res.1 == porcelain_staged(bits),
        res.2 == porcelain_unstaged(bits),
{
    if bits & STATUS_CONFLICTED == STATUS_CONFLICTED {
        return (two_chars('U', 'U'), false, true);
    }
    if bits & STATUS_WT_NEW == STATUS_WT_NEW && !has_index_change(bits) {
        return (two_chars('?', '?'), false, true);
    }
    let x = if bits & STATUS_INDEX_NEW == STATUS_INDEX_NEW {
        'A'
    } else if bits & STATUS_INDEX_RENAMED == STATUS_INDEX_RENAMED
        && bits & STATUS_INDEX_MODIFIED == STATUS_INDEX_MODIFIED {
        'R'
    } else if bits & STATUS_INDEX_MODIFIED == STATUS_INDEX_MODIFIED {
        'M'
    } else if bits & STATUS_INDEX_DELETED == STATUS_INDEX_DELETED {
        'D'
    } else if bits & STATUS_INDEX_RENAMED == STATUS_INDEX_RENAMED {
        'R'
    } else if bits & STATUS_INDEX_TYPECHANGE == STATUS_INDEX_TYPECHANGE {
        'T'
    } else {
        ' '
    };
    let y = if bits & STATUS_WT_MODIFIED == STATUS_WT_MODIFIED {
        'M'
    } else if bits & STATUS_WT_DELETED == STATUS_WT_DELETED {
        'D'
    } else if bits & STATUS_WT_RENAMED == STATUS_WT_RENAMED {
        'R'
    } else if bits & STATUS_WT_TYPECHANGE == STATUS_WT_TYPECHANGE {
        'T'
    } else {
        ' '
    };
    (two_chars(x, y), x != ' ', y != ' ')
}

/// Outside conflicts, an entry is listed as staged exactly when it carries
/// an index-side change.
pub proof fn lemma_staged_iff_index_change(bits: u32)
    requires
        !has_flag(bits, STATUS_CONFLICTED),
    ensures
        porcelain_staged(bits) <==> index_changed(bits),
{
    assert(index_changed(bits) <==> (has_flag(bits, 0x1) || has_flag(bits, 0x2) || has_flag(bits, 0x4)
        || has_flag(bits, 0x8) || has_flag(bits, 0x10))) by (bit_vector);
}

/// Conflicted entries read `UU` and untracked ones `??`; both are listed as
/// unstaged only.
pub proof fn lemma_porcelain_special_entries(bits: u32)
    ensures
        has_flag(bits, STATUS_CONFLICTED) ==> porcelain_code(bits) == seq!['U', 'U']
            && !porcelain_staged(bits) && porcelain_unstaged(bits),
        !has_flag(bits, STATUS_CONFLICTED) && has_flag(bits, STATUS_WT_NEW) && bits & STATUS_INDEX_CHANGES
            == 0 ==> porcelain_code(bits) == seq!['?', '?'] && !porcelain_staged(bits) && porcelain_unstaged(bits),
{
}

/// Outside conflicts and untracked files, the worktree column reads the
/// worktree bits alone, whatever index bits are also set: `M` exactly when
/// the file is modified in the worktree, else `D` exactly when it is
/// deleted there, else `R` when renamed, else `T` when its type changed,
/// else a blank. An entry is in the unstaged list exactly when that column
/// is not blank, and entries with the same worktree bits agree on both.
pub proof fn lemma_worktree_column_reads_worktree_bits(b1: u32, b2: u32)
    requires
        !has_flag(b1, STATUS_CONFLICTED),
        !has_flag(b2, STATUS_CONFLICTED),
        !(has_flag(b1, STATUS_WT_NEW) && b1 & STATUS_INDEX_CHANGES == 0),
        !(has_flag(b2, STATUS_WT_NEW) && b2 & STATUS_INDEX_CHANGES == 0),
        b1 & 0xf00u32 == b2 & 0xf00u32,
    ensures
        porcelain_code(b1).len() == 2,
        porcelain_code(b1)[1] == porcelain_code(b2)[1],
        porcelain_unstaged(b1) == porcelain_unstaged(b2),
        porcelain_code(b1)[1] == 'M' <==> has_flag(b1, STATUS_WT_MODIFIED),
        porcelain_code(b1)[1] == 'D' <==> has_flag(b1, STATUS_WT_DELETED) && !has_flag(b1, STATUS_WT_MODIFIED),
        porcelain_code(b1)[1] == 'R' <==> has_flag(b1, STATUS_WT_RENAMED) && !has_flag(b1, STATUS_WT_MODIFIED)
            && !has_flag(b1, STATUS_WT_DELETED),
        porcelain_code(b1)[1] == 'T' <==> has_flag(b1, STATUS_WT_TYPECHANGE) && !has_flag(b1, STATUS_WT_MODIFIED)
            && !has_flag(b1, STATUS_WT_DELETED) && !has_flag(b1, STATUS_WT_RENAMED),
        porcelain_code(b1)[1] == ' ' <==> b1 & 0xf00u32 == 0,
        porcelain_unstaged(b1) <==> porcelain_code(b1)[1] != ' ',
{
    assert(has_flag(b1, 0x100) == has_flag(b2, 0x100) && has_flag(b1, 0x200) == has_flag(b2, 0x200)
        && has_flag(b1, 0x400) == has_flag(b2, 0x400) && has_flag(b1, 0x800) == has_flag(b2, 0x800)
        && (b1 & 0xf00u32 == 0 <==> !has_flag(b1, 0x100) && !has_flag(b1, 0x200) && !has_flag(b1, 0x400)
        && !has_flag(b1, 0x800))) by (bit_vector)
        requires
            b1 & 0xf00u32 == b2 & 0xf00u32,
    ;
}

/// Outside conflicts and untracked files, the index column reads the index
/// bits alone: `A` exactly when the file is new in the index; otherwise `R`
/// for a rename (with edits, or without a deletion bit), `M` for a modified
/// file that is not a rename, `D` for a deletion without edits, `T` for a
/// type change only, and a blank exactly when no index bit is set; and an entry is in the staged list
/// exactly when that column is not blank.
pub proof fn lemma_index_column_reads_index_bits(b1: u32, b2: u32)
    requires
        !has_flag(b1, STATUS_CONFLICTED),
        !has_flag(b2, STATUS_CONFLICTED),
        !(has_flag(b1, STATUS_WT_NEW) && b1 & STATUS_INDEX_CHANGES == 0),
        !(has_flag(b2, STATUS_WT_NEW) && b2 & STATUS_INDEX_CHANGES == 0),
        b1 & 0x1fu32 == b2 & 0x1fu32,
    ensures
        porcelain_code(b1)[0] == porcelain_code(b2)[0],
        porcelain_staged(b1) == porcelain_staged(b2),
        porcelain_code(b1)[0] == 'A' <==> has_flag(b1, STATUS_INDEX_NEW),
        porcelain_code(b1)[0] == 'R' <==> !has_flag(b1, STATUS_INDEX_NEW) && has_flag(b1, STATUS_INDEX_RENAMED)
            && (has_flag(b1, STATUS_INDEX_MODIFIED) || !has_flag(b1, STATUS_INDEX_DELETED)),
        porcelain_code(b1)[0] == 'M' <==> !has_flag(b1, STATUS_INDEX_NEW) && has_flag(b1, STATUS_INDEX_MODIFIED)
            && !has_flag(b1, STATUS_INDEX_RENAMED),
        porcelain_code(b1)[0] == 'D' <==> !has_flag(b1, STATUS_INDEX_NEW) && !has_flag(b1, STATUS_INDEX_MODIFIED)
            && has_flag(b1, STATUS_INDEX_DELETED),
        porcelain_code(b1)[0] == 'T' <==> !has_flag(b1, STATUS_INDEX_NEW) && !has_flag(b1, STATUS_INDEX_MODIFIED)
            && !has_flag(b1, STATUS_INDEX_DELETED) && !has_flag(b1, STATUS_INDEX_RENAMED) && has_flag(
            b1,
            STATUS_INDEX_TYPECHANGE,
        ),
        porcelain_code(b1)[0] == ' ' <==> b1 & 0x1fu32 == 0,
        porcelain_staged(b1) <==> porcelain_code(b1)[0] != ' ',
{
    assert(has_flag(b1, 0x1) == has_flag(b2, 0x1) && has_flag(b1, 0x2) == has_flag(b2, 0x2)
        && has_flag(b1, 0x4) == has_flag(b2, 0x4) && has_flag(b1, 0x8) == has_flag(b2, 0x8)
        && has_flag(b1, 0x10) == has_flag(b2, 0x10)
        && (b1 & 0x1fu32 == 0 <==> !has_flag(b1, 0x1) && !has_flag(b1, 0x2) && !has_flag(b1, 0x4)
        && !has_flag(b1, 0x8) && !has_flag(b1, 0x10))) by (bit_vector)
        requires
            b1 & 0x1fu32 == b2 & 0x1fu32,
    ;
}

/// Every porcelain code has exactly two columns, and an entry with a code
/// other than two blanks is listed in at least one of the two lists.
pub proof fn lemma_porcelain_shape(bits: u32)
    ensures
        porcelain_code(bits).len() == 2,
        porcelain_code(bits) != seq![' ', ' '] ==> porcelain_staged(bits) || porcelain_unstaged(bits),
{
    if porcelain_code(bits) != seq![' ', ' '] && !has_flag(bits, STATUS_CONFLICTED) && !is_untracked(bits) {
        assert(porcelain_code(bits)[0] == index_column(bits));
        assert(porcelain_code(bits)[1] == worktree_column(bits));
        if index_column(bits) == ' ' && worktree_column(bits) == ' ' {
            assert(porcelain_code(bits) =~= seq![' ', ' ']);
        }
    }
}


/// One status entry as read from the repository.
pub struct StatusEntry {
    /// New-side path of the HEAD-to-index delta, when there is one.
    pub head_to_index_path: Option<String>,
    /// New-side path of the index-to-worktree delta, when there is one.
    pub index_to_workdir_path: Option<String>,
    /// The entry's own path (the old path of a rename).
    pub path: Option<String>,
    /// Status bits of the entry.
    pub bits: u32,
}

/// Mathematical view of a [`StatusEntry`].
pub struct StatusEntryView {
    pub head_to_index_path: Option<Seq<char>>,
    pub index_to_workdir_path: Option<Seq<char>>,
    pub path: Option<Seq<char>>,
    pub bits: u32,
}

/// View of an optional string.
pub open spec fn opt_text(o: Option<String>) -> Option<Seq<char>> {
    match o {
        Some(s) => Some(s@),
        None => None,
    }
}

impl View for StatusEntry {
    type V = StatusEntryView;

    open spec fn view(&self) -> StatusEntryView {
        StatusEntryView {
            head_to_index_path: opt_text(self.head_to_index_path),
            index_to_workdir_path: opt_text(self.index_to_workdir_path),
            path: opt_text(self.path),
            bits: self.bits,
        }
    }
}

/// One row of the file list.
pub struct FileStatus {
    pub path: String,
    pub status: String,
    pub staged: bool,
    pub unstaged: bool,
}

/// Mathematical view of a [`FileStatus`].
pub struct FileStatusView {
    pub path: Seq<char>,
    pub status: Seq<char>,
    pub staged: bool,
    pub unstaged: bool,
}

impl View for FileStatus {
    type V = FileStatusView;

    open spec fn view(&self) -> FileStatusView {
        FileStatusView {
            path: self.path@,
            status: self.status@,
            staged: self.staged,
            unstaged: self.unstaged,
        }
    }
}

/// Views of a sequence of entries.
pub open spec fn entries_view(es: Seq<StatusEntry>) -> Seq<StatusEntryView> {
    es.map_values(|e: StatusEntry| e@)
}

/// Views of a sequence of rows.
pub open spec fn rows_view(rs: Seq<FileStatus>) -> Seq<FileStatusView> {
    rs.map_values(|r: FileStatus| r@)
}

/// Where the file lives now: the new side of the staged delta, else the new
/// side of the unstaged delta, else the entry's own path.
pub open spec fn current_path(e: StatusEntryView) -> Option<Seq<char>> {
    if e.head_to_index_path is Some {
        e.head_to_index_path
    } else if e.index_to_workdir_path is Some {
        e.index_to_workdir_path
    } else {
        e.path
    }
}

/// The row an entry contributes: none when it has no path or is ignored.
pub open spec fn listed_row(e: StatusEntryView) -> Option<FileStatusView> {
    match current_path(e) {
        None => None,
        Some(p) => if has_flag(e.bits, STATUS_IGNORED) {
            None
        } else {
            Some(
                FileStatusView {
                    path: p,
                    status: porcelain_code(e.bits),
                    staged: porcelain_staged(e.bits),
                    unstaged: porcelain_unstaged(e.bits),
                },
            )
        },
    }
}

/// Rows of a sequence of entries, in entry order.
pub open spec fn listed_rows(es: Seq<StatusEntryView>) -> Seq<FileStatusView>
    decreases es.len(),
{
    if es.len() == 0 {
        seq![]
    } else {
        let prev = listed_rows(es.drop_last());
        match listed_row(es.last()) {
            Some(r) => prev.push(r),
            None => prev,
        }
    }
}

/// `x` placed into `s` after every row whose path is not greater than its own.
pub open spec fn insert_by_path(s: Seq<FileStatusView>, x: FileStatusView) -> Seq<FileStatusView>
    decreases s.len(),
{
    if s.len() == 0 {
        seq![x]
    } else if crate::text::text_le(s.last().path, x.path) {
        s.push(x)
    } else {
        insert_by_path(s.drop_last(), x).push(s.last())
    }
}

/// Stable sort of rows by path.
pub open spec fn sort_by_path(s: Seq<FileStatusView>) -> Seq<FileStatusView>
    decreases s.len(),
{
    if s.len() == 0 {
        seq![]
    } else {
        insert_by_path(sort_by_path(s.drop_last()), s.last())
    }
}

/// The file list of a status: the listed rows, stably sorted by path.
pub open spec fn status_file_list(es: Seq<StatusEntryView>) -> Seq<FileStatusView> {
    sort_by_path(listed_rows(es))
}

fn clone_opt(o: &Option<String>) -> (res: Option<String>)
    ensures
        opt_text(res) == opt_text(*o),
{
    match o {
        Some(s) => Some(s.clone()),
        None => None,
    }
}

/// Where the file of `e` lives now.
fn entry_current_path(e: &StatusEntry) -> (res: Option<String>)
    ensures
        opt_text(res) == current_path(e@),
{
    if e.head_to_index_path.is_some() {
        clone_opt(&e.head_to_index_path)
    } else if e.index_to_workdir_path.is_some() {
        clone_opt(&e.index_to_workdir_path)
    } else {
        clone_opt(&e.path)
    }
}

/// The row `e` contributes to the file list, if any.
pub fn entry_row(e: &StatusEntry) -> (res: Option<FileStatus>)
    ensures
        match res {
            Some(r) => listed_row(e@) == Some(r@),
            None => listed_row(e@) is None,
        },
{
    let path = match entry_current_path(e) {
        Some(p) => p,
        None => return None,
    };
    if e.bits & STATUS_IGNORED == STATUS_IGNORED {
        return None;
    }
    let (code, staged, unstaged) = porcelain(e.bits);
    Some(FileStatus { path, status: code, staged, unstaged })
}

/// The file list of a status: one row per entry that has a path and is not
/// ignored, stably sorted by path in the byte order of strings.
pub fn status_files(entries: &Vec<StatusEntry>) -> (res: Vec<FileStatus>)
    ensures
        rows_view(res@) == status_file_list(entries_view(entries@)),
{
    let ghost es = entries_view(entries@);
    let mut rows: Vec<FileStatus> = Vec::new();
    let n = entries.len();
    let mut i: usize = 0;
    assert(es.take(0) =~= Seq::<StatusEntryView>::empty());
    assert(rows_view(rows@) =~= Seq::<FileStatusView>::empty());
    while i < n
        invariant
            i <= n,
            n == entries@.len(),
            es == entries_view(entries@),
            rows_view(rows@) == listed_rows(es.take(i as int)),
        decreases n - i,
    {
        let ghost prev = rows_view(rows@);
        assert(es.take(i + 1).drop_last() =~= es.take(i as int));
        assert(es.take(i + 1).last() == entries@[i as int]@);
        match entry_row(&entries[i]) {
            Some(r) => {
                rows.push(r);
                assert(rows_view(rows@) =~= prev.push(rows@.last()@));
            },
            None => {},
        }
        i += 1;
    }
    assert(es.take(n as int) =~= es);
    let sorted = sort_rows(&rows, 0, rows.len());
    proof {
        let listed = rows_view(rows@);
        assert(listed.subrange(0, listed.len() as int) =~= listed);
        lemma_sort_sorted(listed);
        lemma_sorted_is_ordered(sort_by_path(listed));
        assert forall|p: Seq<char>| #[trigger] rows_at(rows_view(sorted@), p) == rows_at(sort_by_path(listed), p) by {
            lemma_sort_by_path_stable(listed, p);
        }
        lemma_ordered_rows_unique(rows_view(sorted@), sort_by_path(listed));
    }
    sorted
}

/// Each row's path is not greater than the next row's.
pub open spec fn sorted_by_path(s: Seq<FileStatusView>) -> bool {
    forall|i: int| 0 <= i < s.len() - 1 ==> crate::text::text_le(#[trigger] s[i].path, s[i + 1].path)
}

proof fn lemma_insert_last(s: Seq<FileStatusView>, x: FileStatusView)
    ensures
        insert_by_path(s, x).len() == s.len() + 1,
        insert_by_path(s, x).last() == x || (s.len() > 0 && insert_by_path(s, x).last() == s.last()),
    decreases s.len(),
{
    if s.len() > 0 && !crate::text::text_le(s.last().path, x.path) {
        lemma_insert_last(s.drop_last(), x);
    }
}

proof fn lemma_insert_sorted(s: Seq<FileStatusView>, x: FileStatusView)
    requires
        sorted_by_path(s),
    ensures
        sorted_by_path(insert_by_path(s, x)),
    decreases s.len(),
{
    if s.len() > 0 && !crate::text::text_le(s.last().path, x.path) {
        let d = s.drop_last();
        lemma_insert_sorted(d, x);
        lemma_insert_last(d, x);
        crate::text::lemma_text_le_total(s.last().path, x.path);
        let r = insert_by_path(d, x);
        assert(r.len() > 0);
        if r.last() != x {
            assert(s[s.len() - 2] == d.last());
        }
        assert(crate::text::text_le(r.last().path, s.last().path));
        assert forall|i: int| 0 <= i < r.push(s.last()).len() - 1 implies crate::text::text_le(
            #[trigger] r.push(s.last())[i].path,
            r.push(s.last())[i + 1].path,
        ) by {
            if i < r.len() - 1 {
                assert(r.push(s.last())[i] == r[i] && r.push(s.last())[i + 1] == r[i + 1]);
            }
        }
    }
}

proof fn lemma_insert_multiset(s: Seq<FileStatusView>, x: FileStatusView)
    ensures
        insert_by_path(s, x).to_multiset() == s.to_multiset().insert(x),
    decreases s.len(),
{
    broadcast use vstd::seq_lib::to_multiset_build;
    if s.len() == 0 {
        assert(s.push(x) =~= seq![x]);
    } else if !crate::text::text_le(s.last().path, x.path) {
        let d = s.drop_last();
        lemma_insert_multiset(d, x);
        assert(d.push(s.last()) =~= s);
        assert(insert_by_path(s, x).to_multiset() =~= s.to_multiset().insert(x));
    }
}

/// The file list of a status is sorted by path: each row's path is not
/// greater than the next row's, in the byte order of strings.
pub proof fn lemma_status_files_sorted(es: Seq<StatusEntryView>)
    ensures
        sorted_by_path(status_file_list(es)),
{
    lemma_sort_sorted(listed_rows(es));
}

proof fn lemma_sort_sorted(s: Seq<FileStatusView>)
    ensures
        sorted_by_path(sort_by_path(s)),
    decreases s.len(),
{
    if s.len() > 0 {
        lemma_sort_sorted(s.drop_last());
        lemma_insert_sorted(sort_by_path(s.drop_last()), s.last());
    }
}

/// Sorting by path neither drops nor adds rows: the sorted list holds the
/// same rows, each as often, as the unsorted one.
pub proof fn lemma_sort_by_path_permutes(s: Seq<FileStatusView>)
    ensures
        sort_by_path(s).to_multiset() == s.to_multiset(),
    decreases s.len(),
{
    broadcast use vstd::seq_lib::to_multiset_build;
    if s.len() > 0 {
        lemma_sort_by_path_permutes(s.drop_last());
        lemma_insert_multiset(sort_by_path(s.drop_last()), s.last());
        assert(s.drop_last().push(s.last()) =~= s);
    } else {
        assert(sort_by_path(s) =~= s);
    }
}


/// What HEAD looked like when the status was read.
pub enum HeadState {
    /// HEAD is a branch; its short name, when it has one.
    Branch(Option<String>),
    /// HEAD points at a commit directly.
    Detached,
    /// HEAD names a branch that has no commit yet; the symbolic target of
    /// the `HEAD` reference, when it could be read.
    Unborn(Option<String>),
}

/// `"HEAD"`.
pub open spec fn detached_label() -> Seq<char> {
    seq!['H', 'E', 'A', 'D']
}

/// `"refs/heads/"`.
pub open spec fn heads_prefix() -> Seq<char> {
    seq!['r', 'e', 'f', 's', '/', 'h', 'e', 'a', 'd', 's', '/']
}

/// The branch label shown for a HEAD state.
pub open spec fn branch_label_of(head: HeadState) -> Option<Seq<char>> {
    match head {
        HeadState::Branch(name) => opt_text(name),
        HeadState::Detached => Some(detached_label()),
        HeadState::Unborn(target) => match target {
            Some(t) => Some(crate::text::strip_prefix_repeatedly(t@, heads_prefix())),
            None => None,
        },
    }
}

/// The branch label for a HEAD state: the branch's short name, `HEAD` when
/// detached, and for an unborn branch its target without `refs/heads/`.
pub fn branch_label(head: HeadState) -> (res: Option<String>)
    ensures
        opt_text(res) == branch_label_of(head),
{
    match head {
        HeadState::Branch(name) => name,
        HeadState::Detached => {
            let res = String::from_str("HEAD");
            proof {
                reveal_strlit("HEAD");
            }
            assert(res@ =~= detached_label());
            Some(res)
        },
        HeadState::Unborn(target) => match target {
            Some(t) => {
                proof {
                    reveal_strlit("refs/heads/");
                }
                let prefix = "refs/heads/";
                assert(prefix@ =~= heads_prefix());
                Some(crate::text::trim_start_matches(t.as_str(), prefix))
            },
            None => None,
        },
    }
}

/// Result of a status request.
pub struct StatusResult {
    /// Whether the path is inside a repository.
    pub repo: bool,
    /// The working directory, without trailing slashes.
    pub root: Option<String>,
    /// The branch label.
    pub branch: Option<String>,
    /// The listed files, sorted by path.
    pub files: Vec<FileStatus>,
}

/// The status reported for a path outside any repository.
pub fn no_repository_status() -> (res: StatusResult)
    ensures
        !res.repo,
        res.root is None,
        res.branch is None,
        res.files@.len() == 0,
{
    StatusResult { repo: false, root: None, branch: None, files: Vec::new() }
}

/// The status of a repository: its working directory without trailing
/// slashes, its branch label and its sorted file list.
pub fn repository_status(workdir: Option<String>, head: HeadState, entries: &Vec<StatusEntry>) -> (res: StatusResult)
    ensures
        res.repo,
        opt_text(res.root) == match workdir {
            Some(w) => Some(crate::text::strip_suffix_repeatedly(w@, '/')),
            None => None,
        },
        opt_text(res.branch) == branch_label_of(head),
        rows_view(res.files@) == status_file_list(entries_view(entries@)),
{
    let root = match workdir {
        Some(w) => Some(crate::text::trim_end_matches(w.as_str(), '/')),
        None => None,
    };
    let branch = branch_label(head);
    let files = status_files(entries);
    StatusResult { repo: true, root, branch, files }
}


/// The rows of `s` whose path is `path`, in order.
pub open spec fn rows_at(s: Seq<FileStatusView>, path: Seq<char>) -> Seq<FileStatusView> {
    s.filter(|r: FileStatusView| r.path == path)
}

proof fn lemma_insert_rows_at(s: Seq<FileStatusView>, x: FileStatusView, path: Seq<char>)
    ensures
        rows_at(insert_by_path(s, x), path) == if x.path == path {
            rows_at(s, path).push(x)
        } else {
            rows_at(s, path)
        },
    decreases s.len(),
{
    broadcast use Seq::lemma_filter_push;
    let pred = |r: FileStatusView| r.path == path;
    if s.len() == 0 {
        assert(s.push(x) =~= seq![x]);
        reveal_with_fuel(Seq::filter, 1);
    } else if !crate::text::text_le(s.last().path, x.path) {
        let d = s.drop_last();
        lemma_insert_rows_at(d, x, path);
        assert(d.push(s.last()) =~= s);
        crate::text::lemma_text_le_reflexive(x.path);
    }
}

/// Sorting by path is stable: the rows that share a path keep the order
/// they had before sorting.
pub proof fn lemma_sort_by_path_stable(s: Seq<FileStatusView>, path: Seq<char>)
    ensures
        rows_at(sort_by_path(s), path) == rows_at(s, path),
    decreases s.len(),
{
    broadcast use Seq::lemma_filter_push;
    if s.len() > 0 {
        lemma_sort_by_path_stable(s.drop_last(), path);
        lemma_insert_rows_at(sort_by_path(s.drop_last()), s.last(), path);
        assert(s.drop_last().push(s.last()) =~= s);
    } else {
        assert(sort_by_path(s) =~= s);
    }
}


/// Every row's path is not greater than any later row's.
pub open spec fn ordered_by_path(s: Seq<FileStatusView>) -> bool {
    forall|i: int, j: int|
        #![trigger s[i], s[j]]
        0 <= i < j < s.len() ==> crate::text::text_le(s[i].path, s[j].path)
}

proof fn lemma_sorted_is_ordered(s: Seq<FileStatusView>)
    requires
        sorted_by_path(s),
    ensures
        ordered_by_path(s),
    decreases s.len(),
{
    if s.len() > 1 {
        let d = s.drop_last();
        assert(sorted_by_path(d)) by {
            assert forall|i: int| 0 <= i < d.len() - 1 implies crate::text::text_le(
                #[trigger] d[i].path,
                d[i + 1].path,
            ) by {
                assert(d[i] == s[i] && d[i + 1] == s[i + 1]);
            }
        }
        lemma_sorted_is_ordered(d);
        assert forall|i: int, j: int| 0 <= i < j < s.len() implies crate::text::text_le(
            #[trigger] s[i].path,
            #[trigger] s[j].path,
        ) by {
            if j < s.len() - 1 {
                assert(d[i] == s[i] && d[j] == s[j]);
            } else if i < s.len() - 2 {
                let k = s.len() - 2;
                assert(d[i] == s[i] && d[k] == s[k]);
                assert(crate::text::text_le(s[k].path, s[k + 1].path));
                crate::text::lemma_text_le_transitive(s[i].path, s[k].path, s[j].path);
            }
        }
    }
}

/// The file list of a status is ordered by path: no row's path is greater
/// than that of any row after it.
pub proof fn lemma_status_files_ordered(es: Seq<StatusEntryView>)
    ensures
        ordered_by_path(status_file_list(es)),
{
    lemma_status_files_sorted(es);
    lemma_sorted_is_ordered(status_file_list(es));
}

proof fn lemma_filter_member<A>(s: Seq<A>, pred: spec_fn(A) -> bool, k: int)
    requires
        0 <= k < s.filter(pred).len(),
    ensures
        exists|i: int| 0 <= i < s.len() && s[i] == s.filter(pred)[k],
    decreases s.len(),
{
    broadcast use Seq::lemma_filter_push;
    let d = s.drop_last();
    assert(d.push(s.last()) =~= s);
    if s.len() == 0 {
        reveal_with_fuel(Seq::filter, 1);
    } else if pred(s.last()) && k == d.filter(pred).len() {
        assert(s[s.len() - 1] == s.filter(pred)[k]);
    } else {
        lemma_filter_member(d, pred, k);
        let i = choose|i: int| 0 <= i < d.len() && d[i] == d.filter(pred)[k];
        assert(s[i] == s.filter(pred)[k]);
    }
}

proof fn lemma_rows_at_nonempty(s: Seq<FileStatusView>, i: int)
    requires
        0 <= i < s.len(),
    ensures
        rows_at(s, s[i].path).len() > 0,
{
    let pred = |r: FileStatusView| r.path == s[i].path;
    s.lemma_filter_contains(pred, i);
}

proof fn lemma_rows_at_member(s: Seq<FileStatusView>, path: Seq<char>)
    requires
        rows_at(s, path).len() > 0,
    ensures
        exists|i: int| 0 <= i < s.len() && s[i].path == path,
{
    let pred = |r: FileStatusView| r.path == path;
    lemma_filter_member(s, pred, 0);
    s.lemma_filter_pred(pred, 0);
    let i = choose|i: int| 0 <= i < s.len() && s[i] == s.filter(pred)[0];
    assert(s[i].path == path);
}

/// Two lists ordered by path that hold, for every path, the same rows in
/// the same order are equal.
pub proof fn lemma_ordered_rows_unique(r1: Seq<FileStatusView>, r2: Seq<FileStatusView>)
    requires
        ordered_by_path(r1),
        ordered_by_path(r2),
        forall|p: Seq<char>| #[trigger] rows_at(r1, p) == rows_at(r2, p),
    ensures
        r1 == r2,
    decreases r1.len(),
{
    broadcast use Seq::lemma_filter_push;
    if r1.len() == 0 {
        if r2.len() > 0 {
            lemma_rows_at_nonempty(r2, 0);
            assert(rows_at(r1, r2[0].path) == rows_at(r2, r2[0].path));
            reveal_with_fuel(Seq::filter, 1);
        }
        assert(r1 =~= r2);
    } else {
        let x = r1.last();
        let m = x.path;
        lemma_rows_at_nonempty(r1, r1.len() - 1);
        assert(rows_at(r1, m) == rows_at(r2, m));
        r2.lemma_filter_len(|r: FileStatusView| r.path == m);
        let y = r2.last();
        lemma_rows_at_nonempty(r2, r2.len() - 1);
        assert(rows_at(r1, y.path) == rows_at(r2, y.path));
        lemma_rows_at_member(r1, y.path);
        let i1 = choose|i: int| 0 <= i < r1.len() && r1[i].path == y.path;
        if i1 < r1.len() - 1 {
            assert(crate::text::text_le(r1[i1].path, r1[r1.len() - 1].path));
        } else {
            crate::text::lemma_text_le_reflexive(m);
        }
        lemma_rows_at_member(r2, m);
        let i2 = choose|i: int| 0 <= i < r2.len() && r2[i].path == m;
        if i2 < r2.len() - 1 {
            assert(crate::text::text_le(r2[i2].path, r2[r2.len() - 1].path));
        } else {
            crate::text::lemma_text_le_reflexive(m);
        }
        crate::text::lemma_text_le_antisymmetric(m, y.path);
        let (d1, d2) = (r1.drop_last(), r2.drop_last());
        assert(d1.push(x) =~= r1);
        assert(d2.push(y) =~= r2);
        assert(rows_at(r1, m) == rows_at(d1, m).push(x));
        assert(rows_at(r2, m) == rows_at(d2, m).push(y));
        assert(x == rows_at(r1, m).last());
        assert(rows_at(d1, m) =~= rows_at(r1, m).drop_last());
        assert(rows_at(d2, m) =~= rows_at(r2, m).drop_last());
        assert forall|p: Seq<char>| #[trigger] rows_at(d1, p) == rows_at(d2, p) by {
            if p != m {
                assert(rows_at(r1, p) == rows_at(d1, p));
                assert(rows_at(r2, p) == rows_at(d2, p));
                assert(rows_at(r1, p) == rows_at(r2, p));
            }
        }
        assert(ordered_by_path(d1)) by {
            assert forall|i: int, j: int| 0 <= i < j < d1.len() implies crate::text::text_le(
                #[trigger] d1[i].path,
                #[trigger] d1[j].path,
            ) by {
                assert(d1[i] == r1[i] && d1[j] == r1[j]);
            }
        }
        assert(ordered_by_path(d2)) by {
            assert forall|i: int, j: int| 0 <= i < j < d2.len() implies crate::text::text_le(
                #[trigger] d2[i].path,
                #[trigger] d2[j].path,
            ) by {
                assert(d2[i] == r2[i] && d2[j] == r2[j]);
            }
        }
        lemma_ordered_rows_unique(d1, d2);
    }
}


/// State of merging the path-ordered `a` and `b` after taking `i` rows of
/// `a` and `j` rows of `b` into `out`.
spec fn merge_state(
    out: Seq<FileStatusView>,
    a: Seq<FileStatusView>,
    b: Seq<FileStatusView>,
    i: int,
    j: int,
) -> bool {
    &&& 0 <= i <= a.len()
    &&& 0 <= j <= b.len()
    &&& ordered_by_path(out)
    &&& forall|k: int, m: int|
        #![trigger out[k], a[m]]
        0 <= k < out.len() && i <= m < a.len() ==> crate::text::text_le(out[k].path, a[m].path)
    &&& forall|k: int, m: int|
        #![trigger out[k], b[m]]
        0 <= k < out.len() && j <= m < b.len() ==> crate::text::text_le(out[k].path, b[m].path)
    &&& forall|k: int, m: int|
        #![trigger b[k], a[m]]
        0 <= k < j && i <= m < a.len() ==> !crate::text::text_le(a[m].path, b[k].path)
    &&& forall|p: Seq<char>| #[trigger] rows_at(out, p) == rows_at(a.take(i), p) + rows_at(b.take(j), p)
}

proof fn lemma_merge_take_a(out: Seq<FileStatusView>, a: Seq<FileStatusView>, b: Seq<FileStatusView>, i: int, j: int)
    requires
        ordered_by_path(a),
        ordered_by_path(b),
        merge_state(out, a, b, i, j),
        i < a.len(),
        j == b.len() || crate::text::text_le(a[i].path, b[j].path),
    ensures
        merge_state(out.push(a[i]), a, b, i + 1, j),
{
    broadcast use Seq::lemma_filter_push;
    let x = a[i];
    let o2 = out.push(x);
    assert(a.take(i + 1) =~= a.take(i).push(x));
    assert forall|p: Seq<char>| #[trigger] rows_at(o2, p) == rows_at(a.take(i + 1), p) + rows_at(b.take(j), p) by {
        assert(rows_at(out, p) == rows_at(a.take(i), p) + rows_at(b.take(j), p));
        if x.path == p {
            if rows_at(b.take(j), p).len() > 0 {
                lemma_rows_at_member(b.take(j), p);
                let k = choose|k: int| 0 <= k < b.take(j).len() && b.take(j)[k].path == p;
                assert(b.take(j)[k] == b[k]);
                assert(!crate::text::text_le(a[i].path, b[k].path));
                crate::text::lemma_text_le_reflexive(p);
            }
            assert(rows_at(b.take(j), p) =~= Seq::<FileStatusView>::empty());
            assert((rows_at(a.take(i), p) + rows_at(b.take(j), p)).push(x) =~= rows_at(a.take(i), p).push(x)
                + rows_at(b.take(j), p));
        }
    }
    assert forall|k: int, m: int| 0 <= k < m < o2.len() implies crate::text::text_le(
        #[trigger] o2[k].path,
        #[trigger] o2[m].path,
    ) by {
        if m < out.len() {
            assert(o2[k] == out[k] && o2[m] == out[m]);
        } else {
            assert(o2[k] == out[k]);
        }
    }
    assert forall|k: int, m: int| 0 <= k < o2.len() && i + 1 <= m < a.len() implies crate::text::text_le(
        #[trigger] o2[k].path,
        #[trigger] a[m].path,
    ) by {
        if k < out.len() {
            assert(o2[k] == out[k]);
        }
    }
    assert forall|k: int, m: int| 0 <= k < o2.len() && j <= m < b.len() implies crate::text::text_le(
        #[trigger] o2[k].path,
        #[trigger] b[m].path,
    ) by {
        if k < out.len() {
            assert(o2[k] == out[k]);
        } else if m > j {
            assert(crate::text::text_le(b[j].path, b[m].path));
            crate::text::lemma_text_le_transitive(a[i].path, b[j].path, b[m].path);
        }
    }
}

proof fn lemma_merge_take_b(out: Seq<FileStatusView>, a: Seq<FileStatusView>, b: Seq<FileStatusView>, i: int, j: int)
    requires
        ordered_by_path(a),
        ordered_by_path(b),
        merge_state(out, a, b, i, j),
        j < b.len(),
        i == a.len() || !crate::text::text_le(a[i].path, b[j].path),
    ensures
        merge_state(out.push(b[j]), a, b, i, j + 1),
{
    broadcast use Seq::lemma_filter_push;
    let y = b[j];
    let o2 = out.push(y);
    assert(b.take(j + 1) =~= b.take(j).push(y));
    assert forall|p: Seq<char>| #[trigger] rows_at(o2, p) == rows_at(a.take(i), p) + rows_at(b.take(j + 1), p) by {
        assert(rows_at(out, p) == rows_at(a.take(i), p) + rows_at(b.take(j), p));
        if y.path == p {
            assert((rows_at(a.take(i), p) + rows_at(b.take(j), p)).push(y) =~= rows_at(a.take(i), p)
                + rows_at(b.take(j), p).push(y));
        }
    }
    if i < a.len() {
        crate::text::lemma_text_le_total(a[i].path, b[j].path);
    }
    assert forall|k: int, m: int| 0 <= k < m < o2.len() implies crate::text::text_le(
        #[trigger] o2[k].path,
        #[trigger] o2[m].path,
    ) by {
        if m < out.len() {
            assert(o2[k] == out[k] && o2[m] == out[m]);
        } else {
            assert(o2[k] == out[k]);
        }
    }
    assert forall|k: int, m: int| 0 <= k < o2.len() && i <= m < a.len() implies crate::text::text_le(
        #[trigger] o2[k].path,
        #[trigger] a[m].path,
    ) by {
        if k < out.len() {
            assert(o2[k] == out[k]);
        } else if m > i {
            assert(crate::text::text_le(a[i].path, a[m].path));
            crate::text::lemma_text_le_transitive(b[j].path, a[i].path, a[m].path);
        }
    }
    assert forall|k: int, m: int| 0 <= k < o2.len() && j + 1 <= m < b.len() implies crate::text::text_le(
        #[trigger] o2[k].path,
        #[trigger] b[m].path,
    ) by {
        if k < out.len() {
            assert(o2[k] == out[k]);
        }
    }
    assert forall|k: int, m: int| 0 <= k < j + 1 && i <= m < a.len() implies !crate::text::text_le(
        #[trigger] a[m].path,
        #[trigger] b[k].path,
    ) by {
        if k == j && m > i && crate::text::text_le(a[m].path, b[j].path) {
            assert(crate::text::text_le(a[i].path, a[m].path));
            crate::text::lemma_text_le_transitive(a[i].path, a[m].path, b[j].path);
        }
    }
}

fn clone_row(r: &FileStatus) -> (res: FileStatus)
    ensures
        res@ == r@,
{
    FileStatus { path: r.path.clone(), status: r.status.clone(), staged: r.staged, unstaged: r.unstaged }
}

/// Merges two lists ordered by path; at equal paths the rows of `a` come
/// first.
fn merge_rows(a: &Vec<FileStatus>, b: &Vec<FileStatus>) -> (res: Vec<FileStatus>)
    requires
        ordered_by_path(rows_view(a@)),
        ordered_by_path(rows_view(b@)),
    ensures
        ordered_by_path(rows_view(res@)),
        forall|p: Seq<char>|
            #[trigger] rows_at(rows_view(res@), p) == rows_at(rows_view(a@), p) + rows_at(rows_view(b@), p),
{
    let ghost va = rows_view(a@);
    let ghost vb = rows_view(b@);
    let mut out: Vec<FileStatus> = Vec::new();
    let mut i: usize = 0;
    let mut j: usize = 0;
    proof {
        assert(va.take(0) =~= Seq::<FileStatusView>::empty());
        assert(vb.take(0) =~= Seq::<FileStatusView>::empty());
        assert(rows_view(out@) =~= Seq::<FileStatusView>::empty());
        reveal_with_fuel(Seq::filter, 1);
        assert forall|p: Seq<char>| #[trigger] rows_at(rows_view(out@), p) == rows_at(va.take(0), p) + rows_at(vb.take(0), p) by {
            assert(rows_at(Seq::<FileStatusView>::empty(), p) =~= Seq::<FileStatusView>::empty());
        }
    }
    while i < a.len() || j < b.len()
        invariant
            va == rows_view(a@),
            vb == rows_view(b@),
            ordered_by_path(va),
            ordered_by_path(vb),
            merge_state(rows_view(out@), va, vb, i as int, j as int),
        decreases va.len() - i + vb.len() - j,
    {
        let ghost before = rows_view(out@);
        let take_a = j >= b.len() || (i < a.len() && crate::text::str_le(a[i].path.as_str(), b[j].path.as_str()));
        if take_a {
            proof {
                lemma_merge_take_a(before, va, vb, i as int, j as int);
            }
            out.push(clone_row(&a[i]));
            assert(rows_view(out@) =~= before.push(va[i as int]));
            i += 1;
        } else {
            proof {
                lemma_merge_take_b(before, va, vb, i as int, j as int);
            }
            out.push(clone_row(&b[j]));
            assert(rows_view(out@) =~= before.push(vb[j as int]));
            j += 1;
        }
    }
    assert(va.take(va.len() as int) =~= va);
    assert(vb.take(vb.len() as int) =~= vb);
    out
}

/// Rows `lo..hi` of `v`, stably sorted by path.
fn sort_rows(v: &Vec<FileStatus>, lo: usize, hi: usize) -> (res: Vec<FileStatus>)
    requires
        lo <= hi <= v@.len(),
    ensures
        ordered_by_path(rows_view(res@)),
        forall|p: Seq<char>|
            #[trigger] rows_at(rows_view(res@), p) == rows_at(rows_view(v@).subrange(lo as int, hi as int), p),
    decreases hi - lo,
{
    let ghost vv = rows_view(v@);
    if hi - lo <= 1 {
        let mut r: Vec<FileStatus> = Vec::new();
        if hi - lo == 1 {
            r.push(clone_row(&v[lo]));
        }
        assert(rows_view(r@) =~= vv.subrange(lo as int, hi as int));
        return r;
    }
    let mid = lo + (hi - lo) / 2;
    let left = sort_rows(v, lo, mid);
    let right = sort_rows(v, mid, hi);
    let res = merge_rows(&left, &right);
    proof {
        assert(vv.subrange(lo as int, hi as int) =~= vv.subrange(lo as int, mid as int) + vv.subrange(mid as int, hi as int));
        assert forall|p: Seq<char>|
            #[trigger] rows_at(rows_view(res@), p) == rows_at(vv.subrange(lo as int, hi as int), p) by {
            let pred = |r: FileStatusView| r.path == p;
            Seq::filter_distributes_over_add(vv.subrange(lo as int, mid as int), vv.subrange(mid as int, hi as int), pred);
            assert(rows_at(rows_view(left@), p) == rows_at(vv.subrange(lo as int, mid as int), p));
            assert(rows_at(rows_view(right@), p) == rows_at(vv.subrange(mid as int, hi as int), p));
        }
    }
    res
}


/// The entry has a path and does not carry the ignored bit.
pub open spec fn is_shown_entry(e: StatusEntryView) -> bool {
    (e.head_to_index_path is Some || e.index_to_workdir_path is Some || e.path is Some)
        && !has_flag(e.bits, STATUS_IGNORED)
}

/// The row an entry that has a path contributes: its staged delta's new
/// path, else its unstaged delta's new path, else its own path, with its
/// porcelain code and flags.
pub open spec fn expected_row(e: StatusEntryView) -> FileStatusView {
    FileStatusView {
        path: if e.head_to_index_path is Some {
            e.head_to_index_path->0
        } else if e.index_to_workdir_path is Some {
            e.index_to_workdir_path->0
        } else {
            e.path->0
        },
        status: porcelain_code(e.bits),
        staged: porcelain_staged(e.bits),
        unstaged: porcelain_unstaged(e.bits),
    }
}

proof fn lemma_listed_rows_complete(es: Seq<StatusEntryView>)
    ensures
        listed_rows(es).len() == es.filter(|e: StatusEntryView| is_shown_entry(e)).len(),
        forall|i: int| 0 <= i < es.len() && is_shown_entry(#[trigger] es[i]) ==> listed_rows(es).contains(expected_row(es[i])),
    decreases es.len(),
{
    broadcast use Seq::lemma_filter_push;
    if es.len() == 0 {
        reveal_with_fuel(Seq::filter, 1);
    } else {
        let d = es.drop_last();
        lemma_listed_rows_complete(d);
        assert(d.push(es.last()) =~= es);
        let prev = listed_rows(d);
        assert forall|i: int| 0 <= i < es.len() && is_shown_entry(#[trigger] es[i]) implies listed_rows(es).contains(expected_row(es[i])) by {
            if i < es.len() - 1 {
                assert(d[i] == es[i]);
                let k = choose|k: int| 0 <= k < prev.len() && prev[k] == expected_row(d[i]);
                if listed_row(es.last()) is Some {
                    assert(listed_rows(es)[k] == prev[k]);
                }
            } else {
                assert(listed_rows(es)[prev.len() as int] == expected_row(es[i]));
            }
        }
    }
}

/// Every entry that has a path and is not ignored contributes exactly one
/// row: the file list is as long as the number of such entries, and each
/// such entry is listed under its current path with its porcelain code and
/// flags.
pub proof fn lemma_status_files_complete(es: Seq<StatusEntryView>)
    ensures
        status_file_list(es).len() == es.filter(|e: StatusEntryView| is_shown_entry(e)).len(),
        forall|i: int|
            0 <= i < es.len() && is_shown_entry(#[trigger] es[i]) ==> exists|k: int|
                0 <= k < status_file_list(es).len() && status_file_list(es)[k] == expected_row(es[i]),
{
    let rows = listed_rows(es);
    lemma_listed_rows_complete(es);
    lemma_sort_by_path_permutes(rows);
    rows.to_multiset_ensures();
    sort_by_path(rows).to_multiset_ensures();
    assert forall|i: int|
        0 <= i < es.len() && is_shown_entry(#[trigger] es[i]) implies exists|k: int|
            0 <= k < status_file_list(es).len() && status_file_list(es)[k] == expected_row(es[i]) by {
        let x = expected_row(es[i]);
        assert(rows.contains(x));
        assert(rows.to_multiset().count(x) > 0);
        assert(sort_by_path(rows).to_multiset().count(x) > 0);
        assert(sort_by_path(rows).contains(x));
        let k = choose|k: int| 0 <= k < sort_by_path(rows).len() && sort_by_path(rows)[k] == x;
        assert(status_file_list(es)[k] == x);
    }
}

} // verus!
