//! Which of the files found below the filter paths belong to the view.

use vstd::prelude::*;
use vstd::slice::slice_to_vec;

use crate::ipc::views;
use crate::tree::file_paths;

verus! {

/// What a file of the view is.
#[derive(Clone, Copy, Debug, PartialEq, Eq, Structural)]
pub enum FileType {
    Dir,
    File,
}

/// A file of the view.
#[derive(Debug)]
pub struct ViewFile {
    pub filetype: FileType,
    pub path: Vec<u8>,
}

/// A file of the view, its path as a byte string.
pub struct FileView {
    pub filetype: FileType,
    pub path: Seq<u8>,
}

impl View for ViewFile {
    type V = FileView;

    open spec fn view(&self) -> FileView {
        FileView { filetype: self.filetype, path: self.path@ }
    }
}

/// The files of a list, their paths as byte strings.
pub open spec fn file_views(files: Seq<ViewFile>) -> Seq<FileView> {
    Seq::new(files.len(), |i: int| files[i]@)
}

/// What a directory walk says of an entry, links not followed.
#[derive(Clone, Copy, Debug, PartialEq, Eq, Structural)]
pub enum EntryKind {
    Symlink,
    File,
    Dir,
    Other,
}

/// One step of a directory walk.
#[derive(Debug)]
pub enum WalkEntry {
    /// The entry could not be read.
    Unreadable,
    /// The entry at this path.
    Found { kind: EntryKind, path: Vec<u8> },
}

/// The file of the view that an entry of a walk stands for. Links, sockets, devices and
/// what cannot be read are left out.
pub open spec fn view_file(entry: WalkEntry) -> Option<FileView> {
    match entry {
        WalkEntry::Unreadable => None,
        WalkEntry::Found { kind, path } => match kind {
            EntryKind::Symlink => None,
            EntryKind::File => Some(FileView { filetype: FileType::File, path: path@ }),
            EntryKind::Dir => Some(FileView { filetype: FileType::Dir, path: path@ }),
            EntryKind::Other => None,
        },
    }
}

/// The files of the view among the entries of a walk, in the order of the walk.
pub open spec fn view_files(entries: Seq<WalkEntry>) -> Seq<FileView>
    decreases entries.len(),
{
    if entries.len() == 0 {
        Seq::empty()
    } else {
        let before = view_files(entries.drop_last());
        match view_file(entries.last()) {
            None => before,
            Some(f) => before.push(f),
        }
    }
}

/// Picks the files of the view from the entries of the walks below the filter paths.
pub fn generate_paths(entries: Vec<WalkEntry>) -> (files: Vec<ViewFile>)
    ensures
        file_views(files@) == view_files(entries@),
{
    let mut files: Vec<ViewFile> = Vec::new();
    let ghost all = entries@;
    let ghost mut seen: int = 0;
    assert(file_views(files@) =~= view_files(all.take(0)));
    for entry in it: entries
        invariant
            it.seq() == all,
            seen == it.index(),
            file_views(files@) == view_files(all.take(seen)),
    {
        proof {
            assert(all.take(seen + 1).drop_last() =~= all.take(seen));
            assert(all.take(seen + 1).last() == entry);
            seen = seen + 1;
        }
        let ghost before = file_views(files@);
        match entry {
            WalkEntry::Unreadable => {},
            WalkEntry::Found { kind, path } => match kind {
                EntryKind::Symlink => {},
                EntryKind::File => {
                    files.push(ViewFile { filetype: FileType::File, path });
                    assert(file_views(files@) =~= before.push(files@.last()@));
                },
                EntryKind::Dir => {
                    files.push(ViewFile { filetype: FileType::Dir, path });
                    assert(file_views(files@) =~= before.push(files@.last()@));
                },
                EntryKind::Other => {},
            },
        }
    }
    assert(all.take(all.len() as int) =~= all);
    files
}

/// The paths of the files, which the server is to be allowed to open.
pub fn whitelist_paths(files: &Vec<ViewFile>) -> (r: Vec<Vec<u8>>)
    ensures
        views(r@) == file_paths(file_views(files@)),
{
    let mut r: Vec<Vec<u8>> = Vec::new();
    let mut i: usize = 0;
    while i < files.len()
        invariant
            i <= files@.len(),
            r@.len() == i,
            forall|k: int| 0 <= k < i ==> (#[trigger] r@[k])@ == files@[k].path@,
        decreases files@.len() - i,
    {
        r.push(slice_to_vec(files[i].path.as_slice()));
        i = i + 1;
    }
    assert(views(r@) =~= file_paths(file_views(files@)));
    r
}

/// Walks one after the other give the files of each walk, one list behind the other.
pub proof fn law_walks_are_independent(a: Seq<WalkEntry>, b: Seq<WalkEntry>)
    ensures
        view_files(a + b) == view_files(a) + view_files(b),
    decreases b.len(),
{
    if b.len() == 0 {
        assert(a + b =~= a);
        assert(view_files(a) + view_files(b) =~= view_files(a));
    } else {
        assert((a + b).drop_last() =~= a + b.drop_last());
        law_walks_are_independent(a, b.drop_last());
        assert(view_files(a + b) =~= view_files(a) + view_files(b));
    }
}

/// A file belongs to the view just if the walk found it as a file or as a directory.
pub proof fn law_view_files_are_found(entries: Seq<WalkEntry>, file: FileView)
    ensures
        view_files(entries).contains(file) <==> exists|i: int|
            0 <= i < entries.len() && view_file(#[trigger] entries[i]) == Some(file),
    decreases entries.len(),
{
    if entries.len() > 0 {
        let before = entries.drop_last();
        let last = entries.len() - 1;
        law_view_files_are_found(before, file);
        if view_files(entries).contains(file) {
            let k = choose|k: int| 0 <= k < view_files(entries).len() && view_files(entries)[k] == file;
            if k < view_files(before).len() {
                assert(view_files(before)[k] == file);
                let i = choose|i: int|
                    0 <= i < before.len() && view_file(#[trigger] before[i]) == Some(file);
                assert(entries[i] == before[i]);
            } else {
                assert(view_file(entries[last]) == Some(file));
            }
        }
        if exists|i: int| 0 <= i < entries.len() && view_file(#[trigger] entries[i]) == Some(file) {
            let i = choose|i: int|
                0 <= i < entries.len() && view_file(#[trigger] entries[i]) == Some(file);
            if i < last {
                assert(before[i] == entries[i]);
                let k = choose|k: int| 0 <= k < view_files(before).len() && view_files(before)[k] == file;
                assert(view_files(entries)[k] == file);
            } else {
                assert(view_files(entries)[view_files(before).len() as int] == file);
            }
        }
    }
}

/// Whether a walk entry is kept depends on its kind alone, never on its path: a file is kept
/// as a file and a directory as a directory, with the path that it was found at, and an entry
/// gives nothing just if it is a link, of another kind, or unreadable.
pub proof fn law_entries_are_kept_by_kind(path: Vec<u8>, kind: EntryKind)
    ensures
        view_files(seq![WalkEntry::Found { kind: EntryKind::File, path }]) == seq![
            FileView { filetype: FileType::File, path: path@ },
        ],
        view_files(seq![WalkEntry::Found { kind: EntryKind::Dir, path }]) == seq![
            FileView { filetype: FileType::Dir, path: path@ },
        ],
        view_files(seq![WalkEntry::Found { kind, path }]).len() == 0 <==> kind == EntryKind::Symlink
            || kind == EntryKind::Other,
        view_files(seq![WalkEntry::Unreadable]).len() == 0,
{
    let none = Seq::<WalkEntry>::empty();
    let entries = seq![WalkEntry::Found { kind, path }];
    let file = seq![WalkEntry::Found { kind: EntryKind::File, path }];
    let dir = seq![WalkEntry::Found { kind: EntryKind::Dir, path }];
    let lost = seq![WalkEntry::Unreadable];
    assert(entries.drop_last() =~= none);
    assert(file.drop_last() =~= none);
    assert(dir.drop_last() =~= none);
    assert(lost.drop_last() =~= none);
    assert(view_files(none) =~= Seq::<FileView>::empty());
    assert(view_files(file) =~= seq![FileView { filetype: FileType::File, path: path@ }]);
    assert(view_files(dir) =~= seq![FileView { filetype: FileType::Dir, path: path@ }]);
}

/// Every entry found as a file or as a directory is in the view of its walk, wherever it
/// stands in it.
pub proof fn law_found_files_are_in_the_view(entries: Seq<WalkEntry>, i: int)
    requires
        0 <= i < entries.len(),
    ensures
        match entries[i] {
            WalkEntry::Found { kind, path } => {
                &&& kind == EntryKind::File ==> view_files(entries).contains(
                    FileView { filetype: FileType::File, path: path@ },
                )
                &&& kind == EntryKind::Dir ==> view_files(entries).contains(
                    FileView { filetype: FileType::Dir, path: path@ },
                )
            },
            WalkEntry::Unreadable => true,
        },
{
    if let Some(file) = view_file(entries[i]) {
        law_view_files_are_found(entries, file);
    }
}

/// The files of a list are their types and paths, one by one and in order.
pub proof fn law_file_values(files: Seq<ViewFile>, i: int)
    requires
        0 <= i < files.len(),
    ensures
        file_views(files).len() == files.len(),
        file_views(files)[i].filetype == files[i].filetype,
        file_views(files)[i].path == files[i].path@,
        file_paths(file_views(files)).len() == files.len(),
        file_paths(file_views(files))[i] == files[i].path@,
{
}

} // verus!
