use vstd::prelude::*;

use crate::path::{FsPath, PathModel, paths_view};

verus! {

/// The type of a directory entry, as the listing reported it without
/// following symlinks, and for a symlink the type of what it points to.
#[derive(Debug, Clone, Copy, PartialEq, Eq)]
pub enum EntryKind {
    File,
    Directory,
    /// A symlink whose target is a regular file.
    SymlinkToFile,
    /// A symlink whose target is a directory.
    SymlinkToDirectory,
    /// A symlink whose target cannot be resolved, or is neither file nor directory.
    OtherSymlink,
    /// Anything else, including an entry whose type could not be determined.
    Other,
}

/// One entry of a directory listing: its name inside the directory and its type.
#[derive(Debug, Clone)]
pub struct Entry {
    pub name: String,
    pub kind: EntryKind,
}

/// The outcome of listing one directory: the component count of the directory's
/// canonical path, and the entries found in it.
#[derive(Debug, Clone)]
pub struct Listing {
    pub canonical_len: usize,
    pub entries: Vec<Entry>,
}

/// An entry is traversed if it is a plain file or directory, or, when symlinks
/// are followed, a symlink to one.
pub open spec fn is_valid_target(kind: EntryKind, follow_symlinks: bool) -> bool {
    match kind {
        EntryKind::File | EntryKind::Directory => true,
        EntryKind::SymlinkToFile | EntryKind::SymlinkToDirectory => follow_symlinks,
        _ => false,
    }
}

/// The entry is, or points to, a regular file.
pub open spec fn is_file_kind(kind: EntryKind) -> bool {
    kind == EntryKind::File || kind == EntryKind::SymlinkToFile
}

/// The paths inside `dir` of the traversed entries that are files (`want_file`)
/// or directories (`!want_file`), in listing order.
pub open spec fn found(dir: PathModel, entries: Seq<Entry>, follow_symlinks: bool, want_file: bool) -> Seq<
    PathModel,
>
    decreases entries.len(),
{
    if entries.len() == 0 {
        Seq::empty()
    } else {
        let before = found(dir, entries.drop_last(), follow_symlinks, want_file);
        let e = entries.last();
        if is_valid_target(e.kind, follow_symlinks) && is_file_kind(e.kind) == want_file {
            before.push(dir.push(e.name@))
        } else {
            before
        }
    }
}

/// Whether an entry of the given type is traversed.
pub fn is_valid_target_kind(kind: EntryKind, follow_symlinks: bool) -> (r: bool)
    ensures
        r == is_valid_target(kind, follow_symlinks),
{
    match kind {
        EntryKind::File | EntryKind::Directory => true,
        EntryKind::SymlinkToFile | EntryKind::SymlinkToDirectory => follow_symlinks,
        _ => false,
    }
}

/// Splits the traversed entries of a listing of `dir` into the paths of files
/// and the paths of directories, each in listing order.
pub fn partition_entries(dir: &FsPath, entries: &Vec<Entry>, follow_symlinks: bool) -> (r: (
    Vec<FsPath>,
    Vec<FsPath>,
))
    ensures
        paths_view(r.0@) == found(dir@, entries@, follow_symlinks, true),
        paths_view(r.1@) == found(dir@, entries@, follow_symlinks, false),
{
    let mut files: Vec<FsPath> = Vec::new();
    let mut dirs: Vec<FsPath> = Vec::new();
    let mut i: usize = 0;
    while i < entries.len()
        invariant
            0 <= i <= entries@.len(),
            paths_view(files@) == found(dir@, entries@.subrange(0, i as int), follow_symlinks, true),
            paths_view(dirs@) == found(dir@, entries@.subrange(0, i as int), follow_symlinks, false),
        decreases entries@.len() - i,
    {
        let e = &entries[i];
        proof {
            assert(entries@.subrange(0, i + 1).drop_last() =~= entries@.subrange(0, i as int));
            assert(entries@.subrange(0, i + 1).last() == *e);
        }
        if is_valid_target_kind(e.kind, follow_symlinks) {
            let p = dir.join(&e.name);
            let is_file = match e.kind {
                EntryKind::File | EntryKind::SymlinkToFile => true,
                _ => false,
            };
            if is_file {
                let ghost before = files@;
                files.push(p);
                proof {
                    assert(paths_view(files@) =~= paths_view(before).push(p@));
                }
            } else {
                let ghost before = dirs@;
                dirs.push(p);
                proof {
                    assert(paths_view(dirs@) =~= paths_view(before).push(p@));
                }
            }
        }
        i = i + 1;
    }
    proof {
        assert(entries@.subrange(0, i as int) =~= entries@);
    }
    (files, dirs)
}

} // verus!
