//! File records and directory scanning.
//!
//! A directory tree is handed to the scanner as a value: each entry is either
//! a regular file (with its path and modification time, as the caller read
//! them from the filesystem) or a subdirectory with its own entries. The
//! scanner produces one `FileMeta` record per regular file. The recursive
//! scan keeps pending directories on an explicit work list rather than the
//! call stack, exhausting a directory's files before moving to the next
//! popped directory.
use vstd::prelude::*;

verus! {

use crate::time::{TimeView, Timestamp};
use vstd::string::StrSliceExecFns;

/// The kind of content in a file, judged from its path alone.
#[derive(Debug, Clone, PartialEq, Eq, Copy, Structural)]
pub enum FileType {
    HTML,
    Markdown,
    PlainText,
    Unsupported,
}

/// The position where the file name (the part after the last `'/'`) starts.
pub open spec fn name_start(p: Seq<char>) -> int
    decreases p.len(),
{
    if p.len() == 0 {
        0
    } else if p.last() == '/' {
        p.len() as int
    } else {
        name_start(p.drop_last())
    }
}

/// The position of the last `'.'` within the file-name part of `p`, or -1
/// when the name holds no `'.'`.
pub open spec fn last_dot(p: Seq<char>) -> int
    decreases p.len(),
{
    if p.len() == 0 {
        -1
    } else if p.last() == '.' {
        p.len() - 1
    } else if p.last() == '/' {
        -1
    } else {
        last_dot(p.drop_last())
    }
}

/// The extension of the path: the characters after the last `'.'` of the
/// file name, provided that dot is not the name's first character. Purely
/// textual, as the classifier never inspects file contents.
pub open spec fn ext_spec(p: Seq<char>) -> Option<Seq<char>> {
    let j = last_dot(p);
    if j > name_start(p) {
        Some(p.subrange(j + 1, p.len() as int))
    } else {
        None
    }
}

/// The content kind of a path: by its extension, case-sensitively.
pub open spec fn classify_spec(p: Seq<char>) -> FileType {
    match ext_spec(p) {
        Some(e) => if e =~= seq!['h', 't', 'm', 'l'] {
            FileType::HTML
        } else if e =~= seq!['m', 'd'] {
            FileType::Markdown
        } else if e =~= seq!['t', 'x', 't'] {
            FileType::PlainText
        } else {
            FileType::Unsupported
        },
        None => FileType::Unsupported,
    }
}

pub(crate) proof fn lemma_name_start_at(p: Seq<char>, i: int)
    requires
        0 <= i <= p.len(),
        i > 0 ==> p[i - 1] == '/',
        forall|k: int| i <= k < p.len() ==> p[k] != '/',
    ensures
        name_start(p) == i,
    decreases p.len(),
{
    if p.len() == 0 {
    } else if i == p.len() {
        assert(p.last() == '/');
    } else {
        assert(p.last() != '/');
        let d = p.drop_last();
        assert(forall|k: int| i <= k < d.len() ==> d[k] != '/');
        lemma_name_start_at(d, i);
    }
}

pub(crate) proof fn lemma_last_dot_at(p: Seq<char>, j: int)
    requires
        -1 <= j < p.len(),
        j >= 0 ==> p[j] == '.',
        forall|k: int| j < k < p.len() ==> p[k] != '.' && p[k] != '/',
    ensures
        last_dot(p) == j,
    decreases p.len(),
{
    if p.len() == 0 {
    } else if j == p.len() - 1 {
        assert(p.last() == '.');
    } else {
        assert(p.last() != '.' && p.last() != '/');
        let d = p.drop_last();
        assert(forall|k: int| j < k < d.len() ==> d[k] != '.' && d[k] != '/');
        lemma_last_dot_at(d, j);
    }
}

pub(crate) proof fn lemma_last_dot_none(p: Seq<char>, i: int)
    requires
        0 <= i <= p.len(),
        i > 0 ==> p[i - 1] == '/',
        forall|k: int| i <= k < p.len() ==> p[k] != '.' && p[k] != '/',
    ensures
        last_dot(p) == -1,
    decreases p.len(),
{
    if p.len() == 0 {
    } else if i == p.len() {
        assert(p.last() == '/');
    } else {
        assert(p.last() != '.' && p.last() != '/');
        let d = p.drop_last();
        assert(forall|k: int| i <= k < d.len() ==> d[k] != '.' && d[k] != '/');
        lemma_last_dot_none(d, i);
    }
}

impl FileType {
    /// The content kind of the file at `path`, from its extension.
    pub fn from_path(path: &str) -> (t: FileType)
        ensures
            t == classify_spec(path@),
    {
        let n = path.unicode_len();
        let mut i: usize = n;
        while i > 0 && path.get_char(i - 1) != '/' && path.get_char(i - 1) != '.'
            invariant
                0 <= i <= n == path@.len(),
                forall|k: int| i <= k < n ==> path@[k] != '/' && path@[k] != '.',
            decreases i,
        {
            i = i - 1;
        }
        if i == 0 || path.get_char(i - 1) == '/' {
            // no dot in the file name at all
            proof {
                if i > 0 {
                    lemma_name_start_at(path@, i as int);
                } else {
                    assert(forall|k: int| 0 <= k < n ==> path@[k] != '/');
                    lemma_name_start_at(path@, 0);
                }
                lemma_last_dot_none(path@, i as int);
            }
            return FileType::Unsupported;
        }
        // path[i - 1] == '.', and no '.' or '/' after it
        let ghost j: int = i as int - 1;
        proof {
            lemma_last_dot_at(path@, j);
        }
        // find the name start before the dot
        let mut b: usize = i - 1;
        while b > 0 && path.get_char(b - 1) != '/'
            invariant
                0 <= b <= i - 1,
                i <= n == path@.len(),
                forall|k: int| b <= k < i - 1 ==> path@[k] != '/',
            decreases b,
        {
            b = b - 1;
        }
        proof {
            assert(forall|k: int| b <= k < n ==> path@[k] != '/');
            lemma_name_start_at(path@, b as int);
        }
        if b == i - 1 {
            // the dot is the first character of the file name: no extension
            return FileType::Unsupported;
        }
        let ghost e = path@.subrange(j + 1, n as int);
        let len: usize = n - i;
        if len == 2 && path.get_char(i) == 'm' && path.get_char(i + 1) == 'd' {
            proof {
                assert(e =~= seq!['m', 'd']);
            }
            FileType::Markdown
        } else if len == 4 && path.get_char(i) == 'h' && path.get_char(i + 1) == 't'
            && path.get_char(i + 2) == 'm' && path.get_char(i + 3) == 'l' {
            proof {
                assert(e =~= seq!['h', 't', 'm', 'l']);
            }
            FileType::HTML
        } else if len == 3 && path.get_char(i) == 't' && path.get_char(i + 1) == 'x'
            && path.get_char(i + 2) == 't' {
            proof {
                assert(e =~= seq!['t', 'x', 't']);
            }
            FileType::PlainText
        } else {
            proof {
                assert(!(e =~= seq!['h', 't', 'm', 'l']));
                assert(!(e =~= seq!['m', 'd']));
                assert(!(e =~= seq!['t', 'x', 't']));
            }
            FileType::Unsupported
        }
    }
}

/// The mathematical value of a `FileMeta`.
pub ghost struct FileMetaView {
    pub path: Seq<char>,
    pub date: TimeView,
    pub file_type: FileType,
}

/// The record the scanner produces for one regular file.
#[derive(Debug, PartialEq, Eq)]
pub struct FileMeta {
    pub path: String,
    pub date: Timestamp,
    pub file_type: FileType,
}

impl View for FileMeta {
    type V = FileMetaView;

    open spec fn view(&self) -> FileMetaView {
        FileMetaView { path: self.path@, date: self.date@, file_type: self.file_type }
    }
}

impl Clone for FileMeta {
    fn clone(&self) -> (r: Self)
        ensures
            r@ == self@,
    {
        FileMeta { path: self.path.clone(), date: self.date, file_type: self.file_type }
    }
}

/// A regular file handed to the scanner: its path, as the caller resolved
/// it, and its last-modification time.
pub struct FileNode {
    pub path: String,
    pub modified: Timestamp,
}

/// One directory entry: a regular file or a subdirectory.
pub enum FsEntry {
    File(FileNode),
    Dir(DirTree),
}

/// A directory with its entries, in the order the caller listed them.
pub struct DirTree {
    pub path: String,
    pub entries: Vec<FsEntry>,
}

/// The record the scanner makes for one file node.
pub open spec fn record_view(f: FileNode) -> FileMetaView {
    FileMetaView { path: f.path@, date: f.modified@, file_type: classify_spec(f.path@) }
}

/// The record, if any, that an entry contributes directly to its own
/// directory's listing: one for a file, none for a subdirectory.
pub open spec fn flat_one(e: FsEntry) -> Seq<FileMetaView> {
    match e {
        FsEntry::File(f) => seq![record_view(f)],
        FsEntry::Dir(_) => Seq::empty(),
    }
}

/// The records of the regular files directly among `es`, in order.
pub open spec fn flat_records(es: Seq<FsEntry>) -> Seq<FileMetaView>
    decreases es.len(),
{
    if es.len() == 0 {
        Seq::empty()
    } else {
        flat_records(es.drop_last()) + flat_one(es.last())
    }
}

/// The subtree records that an entry contributes once the work list reaches
/// it: nothing for a file (its record is in `flat_records`), the whole scan
/// for a subdirectory.
pub open spec fn rev_one(e: FsEntry) -> Seq<FileMetaView>
    decreases e,
{
    match e {
        FsEntry::File(_) => Seq::empty(),
        FsEntry::Dir(d) => scan_dir(d),
    }
}

/// The subtree records of the subdirectories among `es`, later entries
/// first: the order in which a work list that pops its most recent entry
/// reaches them.
pub open spec fn rev_dir_records(es: Seq<FsEntry>) -> Seq<FileMetaView>
    decreases es,
{
    if es.len() == 0 {
        Seq::empty()
    } else {
        rev_one(es.last()) + rev_dir_records(es.drop_last())
    }
}

/// The records of a full recursive scan of `d`: the directory's own files
/// in listing order, then the subtrees of its subdirectories, later
/// subdirectories first.
pub open spec fn scan_dir(d: DirTree) -> Seq<FileMetaView>
    decreases d,
{
    flat_records(d.entries@) + rev_dir_records(d.entries@)
}

/// The natural front-to-back enumeration of one record per regular file
/// under `es`, in place.
pub open spec fn subtree_one(e: FsEntry) -> Seq<FileMetaView>
    decreases e,
{
    match e {
        FsEntry::File(f) => seq![record_view(f)],
        FsEntry::Dir(d) => subtree_files(d),
    }
}

pub open spec fn subtree_entries(es: Seq<FsEntry>) -> Seq<FileMetaView>
    decreases es,
{
    if es.len() == 0 {
        Seq::empty()
    } else {
        subtree_entries(es.drop_last()) + subtree_one(es.last())
    }
}

/// One record per regular file in the subtree of `d`, none for the
/// directories themselves, in depth-first listing order.
pub open spec fn subtree_files(d: DirTree) -> Seq<FileMetaView>
    decreases d,
{
    subtree_entries(d.entries@)
}

/// The views of a sequence of records.
pub open spec fn metas_view(ms: Seq<FileMeta>) -> Seq<FileMetaView> {
    ms.map_values(|m: FileMeta| m@)
}

spec fn size_entry(e: FsEntry) -> nat
    decreases e,
{
    match e {
        FsEntry::File(_) => 1,
        FsEntry::Dir(d) => size_dir(d),
    }
}

spec fn size_dir(d: DirTree) -> nat
    decreases d,
{
    1 + size_entries(d.entries@)
}

spec fn size_entries(es: Seq<FsEntry>) -> nat
    decreases es,
{
    if es.len() == 0 {
        0
    } else {
        size_entry(es.last()) + size_entries(es.drop_last())
    }
}

spec fn size_stack(ds: Seq<&DirTree>) -> nat
    decreases ds.len(),
{
    if ds.len() == 0 {
        0
    } else {
        size_dir(*ds.last()) + size_stack(ds.drop_last())
    }
}

/// The records the work list still owes: the scans of the pending
/// directories, most recently pushed first.
pub open spec fn stack_records(ds: Seq<&DirTree>) -> Seq<FileMetaView>
    decreases ds.len(),
{
    if ds.len() == 0 {
        Seq::empty()
    } else {
        scan_dir(*ds.last()) + stack_records(ds.drop_last())
    }
}

proof fn lemma_entries_perm(es: Seq<FsEntry>)
    ensures
        (flat_records(es) + rev_dir_records(es)).to_multiset() =~= subtree_entries(
            es,
        ).to_multiset(),
    decreases es,
{
    broadcast use vstd::multiset::group_multiset_axioms;

    if es.len() == 0 {
        assert(flat_records(es) + rev_dir_records(es) =~= Seq::<FileMetaView>::empty());
        assert(subtree_entries(es) =~= Seq::<FileMetaView>::empty());
    } else {
        let pre = es.drop_last();
        let x = es.last();
        lemma_entries_perm(pre);
        vstd::seq_lib::lemma_multiset_commutative(flat_records(pre), flat_one(x));
        vstd::seq_lib::lemma_multiset_commutative(rev_one(x), rev_dir_records(pre));
        vstd::seq_lib::lemma_multiset_commutative(flat_records(es), rev_dir_records(es));
        vstd::seq_lib::lemma_multiset_commutative(flat_records(pre), rev_dir_records(pre));
        vstd::seq_lib::lemma_multiset_commutative(subtree_entries(pre), subtree_one(x));
        match x {
            FsEntry::File(f) => {
                assert(rev_one(x) =~= Seq::<FileMetaView>::empty());
                assert(subtree_one(x) == flat_one(x));
            },
            FsEntry::Dir(d) => {
                lemma_scan_dir_perm(d);
                assert(flat_one(x) =~= Seq::<FileMetaView>::empty());
                assert(rev_one(x) == scan_dir(d));
                assert(subtree_one(x) == subtree_files(d));
            },
        }
    }
}

/// Law: a recursive scan returns exactly one record per regular file in the
/// directory's subtree — the same records, one each, as the in-order
/// enumeration `subtree_files` — and no record for a directory itself.
pub proof fn lemma_scan_one_record_per_file(d: DirTree)
    ensures
        scan_dir(d).to_multiset() == subtree_files(d).to_multiset(),
        scan_dir(d).len() == subtree_files(d).len(),
    decreases d,
{
    lemma_scan_dir_perm(d);
    scan_dir(d).to_multiset_ensures();
    subtree_files(d).to_multiset_ensures();
}

proof fn lemma_scan_dir_perm(d: DirTree)
    ensures
        scan_dir(d).to_multiset() =~= subtree_files(d).to_multiset(),
    decreases d,
{
    lemma_entries_perm(d.entries@);
}

fn make_record(f: &FileNode) -> (r: FileMeta)
    ensures
        r@ == record_view(*f),
{
    FileMeta {
        path: f.path.clone(),
        date: f.modified,
        file_type: FileType::from_path(self_path_str(&f.path)),
    }
}

fn self_path_str(p: &String) -> (r: &str)
    ensures
        r@ == p@,
{
    p.as_str()
}

/// Lists the immediate regular-file children of `d`, one record each, in
/// listing order.
pub fn list_files_dir(d: &DirTree) -> (r: Vec<FileMeta>)
    ensures
        metas_view(r@) =~= flat_records(d.entries@),
{
    let mut r: Vec<FileMeta> = Vec::new();
    let n = d.entries.len();
    let mut i: usize = 0;
    while i < n
        invariant
            0 <= i <= n == d.entries@.len(),
            metas_view(r@) =~= flat_records(d.entries@.take(i as int)),
        decreases n - i,
    {
        let ghost pre = d.entries@.take(i as int);
        match &d.entries[i] {
            FsEntry::File(f) => {
                r.push(make_record(f));
            },
            FsEntry::Dir(_) => {},
        }
        proof {
            let cur = d.entries@.take(i + 1);
            assert(cur.drop_last() =~= pre);
            assert(cur.last() == d.entries@[i as int]);
            assert(metas_view(r@) =~= flat_records(pre) + flat_one(d.entries@[i as int]));
        }
        i = i + 1;
    }
    proof {
        assert(d.entries@.take(n as int) =~= d.entries@);
    }
    r
}

/// Scans the whole subtree of `root` with an explicit work list of pending
/// directories, producing `scan_dir(root)`: a directory's own files come
/// before anything from its subdirectories, and of two subdirectories of
/// the same directory the later-listed one's subtree comes first.
pub fn list_files_dir_rec(root: &DirTree) -> (r: Vec<FileMeta>)
    ensures
        metas_view(r@) =~= scan_dir(*root),
{
    let mut files: Vec<FileMeta> = Vec::new();
    let mut dirs: Vec<&DirTree> = Vec::new();
    dirs.push(root);
    proof {
        assert(dirs@ =~= seq![root]);
        assert(dirs@.last() == root);
        assert(dirs@.drop_last() =~= Seq::<&DirTree>::empty());
        assert(stack_records(dirs@.drop_last()) =~= Seq::<FileMetaView>::empty());
        assert(stack_records(dirs@) =~= scan_dir(*root));
        assert(metas_view(files@) =~= Seq::<FileMetaView>::empty());
        assert(metas_view(files@) + stack_records(dirs@) =~= scan_dir(*root));
    }
    while dirs.len() > 0
        invariant
            metas_view(files@) + stack_records(dirs@) =~= scan_dir(*root),
        decreases size_stack(dirs@),
    {
        let ghost dirs0 = dirs@;
        let cur: &DirTree = match dirs.pop() {
            Some(c) => c,
            None => {
                proof {
                    assert(false);
                }
                root
            },
        };
        proof {
            assert(dirs0.drop_last() =~= dirs@);
            assert(stack_records(dirs0) =~= scan_dir(*cur) + stack_records(dirs@));
            assert(size_stack(dirs0) == size_dir(*cur) + size_stack(dirs@));
        }
        let ghost files0 = files@;
        let ghost stack0 = dirs@;
        let ghost es = cur.entries@;
        let n = cur.entries.len();
        let mut i: usize = 0;
        while i < n
            invariant
                0 <= i <= n == es.len(),
                es == cur.entries@,
                metas_view(files@) =~= metas_view(files0) + flat_records(es.take(i as int)),
                stack_records(dirs@) =~= rev_dir_records(es.take(i as int)) + stack_records(
                    stack0,
                ),
                size_stack(dirs@) <= size_stack(stack0) + size_entries(es.take(i as int)),
            decreases n - i,
        {
            let ghost pre = es.take(i as int);
            let ghost dirs_pre = dirs@;
            let ghost files_pre = files@;
            match &cur.entries[i] {
                FsEntry::File(f) => {
                    files.push(make_record(f));
                },
                FsEntry::Dir(d) => {
                    dirs.push(d);
                    proof {
                        assert(dirs@.drop_last() =~= dirs_pre);
                        assert(stack_records(dirs@) =~= scan_dir(*d) + stack_records(dirs_pre));
                        assert(size_stack(dirs@) == size_dir(*d) + size_stack(dirs_pre));
                    }
                },
            }
            proof {
                let cure = es.take(i + 1);
                assert(cure.len() == i + 1);
                assert(cure.drop_last() =~= pre);
                assert(cure.drop_last() == pre);
                assert(cure.last() == es[i as int]);
                assert(rev_dir_records(cure) == rev_one(es[i as int]) + rev_dir_records(pre));
                assert(flat_records(cure) == flat_records(pre) + flat_one(es[i as int]));
                assert(size_entries(cure) == size_entry(es[i as int]) + size_entries(pre));
                match es[i as int] {
                    FsEntry::File(f) => {
                        assert(rev_one(es[i as int]) =~= Seq::<FileMetaView>::empty());
                        assert(rev_dir_records(cure) =~= rev_dir_records(pre));
                        assert(metas_view(files@) =~= metas_view(files_pre).push(
                            record_view(f),
                        ));
                        assert(metas_view(files@) =~= metas_view(files0) + flat_records(cure));
                        assert(stack_records(dirs@) =~= rev_dir_records(cure) + stack_records(
                            stack0,
                        ));
                    },
                    FsEntry::Dir(d) => {
                        assert(metas_view(files@) =~= metas_view(files0) + flat_records(cure));
                        assert(rev_one(es[i as int]) == scan_dir(d));
                        assert(rev_dir_records(cure) =~= scan_dir(d) + rev_dir_records(pre));
                        assert(stack_records(dirs@) =~= (scan_dir(d) + rev_dir_records(pre))
                            + stack_records(stack0));
                        assert(stack_records(dirs@) =~= rev_dir_records(cure) + stack_records(
                            stack0,
                        ));
                    },
                }
            }
            i = i + 1;
        }
        proof {
            assert(es.take(n as int) =~= es);
            assert(metas_view(files@) + stack_records(dirs@) =~= metas_view(files0) + (
            flat_records(es) + rev_dir_records(es)) + stack_records(stack0));
            assert(metas_view(files@) + stack_records(dirs@) =~= metas_view(files0)
                + stack_records(dirs0));
            assert(size_stack(dirs@) <= size_stack(stack0) + size_entries(es));
            assert(size_stack(dirs@) < size_stack(dirs0));
        }
    }
    proof {
        assert(stack_records(dirs@) =~= Seq::<FileMetaView>::empty());
        assert(metas_view(files@) =~= metas_view(files@) + stack_records(dirs@));
    }
    files
}

} // verus!
