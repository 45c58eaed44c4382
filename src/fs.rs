use vstd::prelude::*;

use crate::path::{FsPath, PathModel, is_prefix_of, paths_view};

verus! {

/// Mount point `m` lies strictly beneath `root`: `root` leads `m` and the two differ.
pub open spec fn is_strict_descendant(m: PathModel, root: PathModel) -> bool {
    is_prefix_of(root, m) && m != root
}

/// The mount points of `mounts` that are boundaries of a traversal from `root`,
/// in the order in which `mounts` lists them.
pub open spec fn boundaries_of(mounts: Seq<PathModel>, root: PathModel) -> Seq<PathModel> {
    mounts.filter(|m: PathModel| is_strict_descendant(m, root))
}

/// The directories of `dirs` that are none of `boundaries`, in their order.
pub open spec fn outside_boundaries(dirs: Seq<PathModel>, boundaries: Seq<PathModel>) -> Seq<
    PathModel,
> {
    dirs.filter(|d: PathModel| !boundaries.contains(d))
}

/// Given the known mounted filesystems and a path, the mount points strictly
/// beneath the path: the filesystem boundaries a traversal from it must not cross.
pub fn fs_boundaries(filesystems: &[FsPath], path: &FsPath) -> (r: Vec<FsPath>)
    ensures
        paths_view(r@) == boundaries_of(paths_view(filesystems@), path@),
{
    let ghost mounts = paths_view(filesystems@);
    let ghost pred = |m: PathModel| is_strict_descendant(m, path@);
    let mut r: Vec<FsPath> = Vec::new();
    let mut i: usize = 0;
    while i < filesystems.len()
        invariant
            0 <= i <= filesystems@.len(),
            mounts == paths_view(filesystems@),
            pred == (|m: PathModel| is_strict_descendant(m, path@)),
            paths_view(r@) == mounts.subrange(0, i as int).filter(pred),
        decreases filesystems@.len() - i,
    {
        let fs = &filesystems[i];
        let keep = fs.starts_with(path) && !fs.same_as(path);
        proof {
            reveal(Seq::filter);
            assert(mounts.subrange(0, i + 1).drop_last() =~= mounts.subrange(0, i as int));
            assert(mounts.subrange(0, i + 1).last() == fs@);
            assert(keep == pred(fs@));
        }
        if keep {
            let ghost before = r@;
            r.push(fs.clone_path());
            proof {
                assert(paths_view(r@) =~= paths_view(before).push(fs@));
            }
        }
        i = i + 1;
    }
    proof {
        assert(mounts.subrange(0, i as int) =~= mounts);
    }
    r
}

/// Whether `list` holds a path equal to `p`, component by component.
pub fn contains_path(list: &[FsPath], p: &FsPath) -> (r: bool)
    ensures
        r == paths_view(list@).contains(p@),
{
    let mut i: usize = 0;
    while i < list.len()
        invariant
            0 <= i <= list@.len(),
            forall|j: int| 0 <= j < i ==> list@[j]@ != p@,
        decreases list@.len() - i,
    {
        if list[i].same_as(p) {
            proof {
                assert(paths_view(list@)[i as int] == p@);
            }
            return true;
        }
        i = i + 1;
    }
    proof {
        assert forall|j: int| 0 <= j < paths_view(list@).len() implies paths_view(list@)[j]
            != p@ by {
            assert(paths_view(list@)[j] == list@[j]@);
        }
    }
    false
}

/// The directories of `dirs` that are none of `boundaries`, in their order.
pub fn filter_boundaries(dirs: Vec<FsPath>, boundaries: &[FsPath]) -> (r: Vec<FsPath>)
    ensures
        paths_view(r@) == outside_boundaries(paths_view(dirs@), paths_view(boundaries@)),
{
    let ghost all = paths_view(dirs@);
    let ghost bs = paths_view(boundaries@);
    let ghost pred = |d: PathModel| !bs.contains(d);
    let mut r: Vec<FsPath> = Vec::new();
    let mut i: usize = 0;
    while i < dirs.len()
        invariant
            0 <= i <= dirs@.len(),
            all == paths_view(dirs@),
            bs == paths_view(boundaries@),
            pred == (|d: PathModel| !bs.contains(d)),
            paths_view(r@) == all.subrange(0, i as int).filter(pred),
        decreases dirs@.len() - i,
    {
        let d = &dirs[i];
        let keep = !contains_path(boundaries, d);
        proof {
            reveal(Seq::filter);
            assert(all.subrange(0, i + 1).drop_last() =~= all.subrange(0, i as int));
            assert(all.subrange(0, i + 1).last() == d@);
        }
        if keep {
            let ghost before = r@;
            r.push(d.clone_path());
            proof {
                assert(paths_view(r@) =~= paths_view(before).push(d@));
            }
        }
        i = i + 1;
    }
    proof {
        assert(all.subrange(0, i as int) =~= all);
    }
    r
}

} // verus!
