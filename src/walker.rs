use vstd::prelude::*;

use std::collections::VecDeque;

use crate::entry::{Listing, found, partition_entries};
use crate::err::{FileError, WalkError};
use crate::fs::{boundaries_of, filter_boundaries, fs_boundaries, is_strict_descendant, outside_boundaries};
use crate::path::{FsPath, PathModel, is_prefix_of, paths_view};

verus! {

/// The state of a walker, as sequences of paths and its configuration.
pub struct WalkerModel {
    /// Discovered files not yet handed out, in discovery order.
    pub files: Seq<PathModel>,
    /// Discovered directories not yet listed, in discovery order.
    pub dirs: Seq<PathModel>,
    /// Mount points beneath the origin whose subtrees are not entered.
    pub ignore: Seq<PathModel>,
    /// The canonical path the traversal starts from.
    pub origin: PathModel,
    /// The component count of `origin`, the zero of depth.
    pub origin_depth: nat,
    pub max_depth: Option<u32>,
    pub follow_symlinks: bool,
}

/// What a walker asks for next.
pub enum StepModel {
    File(PathModel),
    Expand(PathModel),
    Done,
}

/// A fresh walker over the canonical directory `origin`.
pub open spec fn initial_model(origin: PathModel) -> WalkerModel {
    WalkerModel {
        files: Seq::empty(),
        dirs: seq![origin],
        ignore: Seq::empty(),
        origin,
        origin_depth: origin.len(),
        max_depth: None,
        follow_symlinks: false,
    }
}

/// The state invariant: the origin's depth is its length, every pending path
/// lies at or beneath the origin (files strictly beneath), and every boundary
/// lies strictly beneath the origin.
pub open spec fn model_wf(s: WalkerModel) -> bool {
    &&& s.origin_depth == s.origin.len()
    &&& forall|i: int| 0 <= i < s.files.len() ==> is_strict_descendant(#[trigger] s.files[i], s.origin)
    &&& forall|i: int| 0 <= i < s.dirs.len() ==> is_prefix_of(s.origin, #[trigger] s.dirs[i])
    &&& forall|i: int| 0 <= i < s.ignore.len() ==> is_strict_descendant(#[trigger] s.ignore[i], s.origin)
}

/// The state after asking for the next step, and the step.
pub open spec fn next_model(s: WalkerModel) -> (WalkerModel, StepModel) {
    if s.files.len() > 0 {
        (WalkerModel { files: s.files.drop_first(), ..s }, StepModel::File(s.files[0]))
    } else if s.dirs.len() > 0 {
        (WalkerModel { dirs: s.dirs.drop_first(), ..s }, StepModel::Expand(s.dirs[0]))
    } else {
        (s, StepModel::Done)
    }
}

/// A directory whose canonical path has `canonical_len` components is at the
/// depth limit: its subdirectories are not queued.
pub open spec fn at_max_depth_model(s: WalkerModel, canonical_len: nat) -> bool {
    match s.max_depth {
        Some(m) => canonical_len >= s.origin_depth + m,
        None => false,
    }
}

/// The state after the listing of `dir` produced `entries`: the files found are
/// queued, and unless `dir` is at the depth limit, so are the subdirectories
/// that are not boundaries.
pub open spec fn expand_model(
    s: WalkerModel,
    dir: PathModel,
    canonical_len: nat,
    entries: Seq<crate::entry::Entry>,
) -> WalkerModel {
    WalkerModel {
        files: s.files + found(dir, entries, s.follow_symlinks, true),
        dirs: if at_max_depth_model(s, canonical_len) {
            s.dirs
        } else {
            s.dirs + outside_boundaries(found(dir, entries, s.follow_symlinks, false), s.ignore)
        },
        ..s
    }
}

/// The state after a reset: both queues emptied, the origin queued again.
pub open spec fn reset_model(s: WalkerModel) -> WalkerModel {
    WalkerModel { files: Seq::empty(), dirs: seq![s.origin], ..s }
}

/// The path a walker will deal with next: its first pending file, else its
/// first pending directory.
pub open spec fn front_model(s: WalkerModel) -> Option<PathModel> {
    if s.files.len() > 0 {
        Some(s.files[0])
    } else if s.dirs.len() > 0 {
        Some(s.dirs[0])
    } else {
        None
    }
}

/// Deepest first: a walker whose front path lies deeper below its origin sorts
/// before; a walker with nothing left sorts after every walker with work.
pub open spec fn order_model(a: WalkerModel, b: WalkerModel) -> std::cmp::Ordering {
    match (front_model(a), front_model(b)) {
        (Some(p), Some(q)) => {
            let da = p.len() - a.origin_depth;
            let db = q.len() - b.origin_depth;
            if da > db {
                std::cmp::Ordering::Less
            } else if da < db {
                std::cmp::Ordering::Greater
            } else {
                std::cmp::Ordering::Equal
            }
        },
        (Some(_), None) => std::cmp::Ordering::Less,
        (None, Some(_)) => std::cmp::Ordering::Greater,
        (None, None) => std::cmp::Ordering::Equal,
    }
}

/// What the filesystem reported about a prospective traversal root.
#[derive(Debug, Clone)]
pub enum RootStatus {
    /// Nothing exists at the path.
    Missing,
    /// Something exists at the path, but it is not a directory.
    NotADirectory,
    /// The path is a directory; the value is its canonical path.
    Directory(FsPath),
}

/// What the walker asks of its driver.
#[derive(Debug, Clone)]
pub enum Step {
    /// The next file found.
    File(FsPath),
    /// List this directory and hand the result to `Walker::push`.
    Expand(FsPath),
    /// The traversal is exhausted.
    Done,
}

impl View for Step {
    type V = StepModel;

    open spec fn view(&self) -> StepModel {
        match self {
            Step::File(p) => StepModel::File(p@),
            Step::Expand(p) => StepModel::Expand(p@),
            Step::Done => StepModel::Done,
        }
    }
}

/// A breadth-first walker over the files beneath a directory.
#[derive(Clone, Debug, PartialEq, Eq, Hash)]
pub struct Walker {
    files: VecDeque<FsPath>,
    dirs: VecDeque<FsPath>,
    ignore: Vec<FsPath>,
    origin: FsPath,
    origin_depth: usize,
    max_depth: Option<u32>,
    follow_symlinks: bool,
}

impl View for Walker {
    type V = WalkerModel;

    closed spec fn view(&self) -> WalkerModel {
        WalkerModel {
            files: paths_view(self.files@),
            dirs: paths_view(self.dirs@),
            ignore: paths_view(self.ignore@),
            origin: self.origin@,
            origin_depth: self.origin_depth as nat,
            max_depth: self.max_depth,
            follow_symlinks: self.follow_symlinks,
        }
    }
}

impl Walker {
    /// The walker's state invariant.
    pub open spec fn wf(&self) -> bool {
        model_wf(self@)
    }

    /// A walker over the working directory, as the filesystem reported it.
    pub fn new(cwd: RootStatus) -> (r: Result<Walker, WalkError>)
        ensures
            created(cwd, r),
    {
        Walker::from_with_capacity(cwd, 16)
    }

    /// A walker over the working directory, with the given initial capacity of its queues.
    pub fn with_capacity(cwd: RootStatus, capacity: usize) -> (r: Result<Walker, WalkError>)
        ensures
            created(cwd, r),
    {
        Walker::from_with_capacity(cwd, capacity)
    }

    /// A walker over the path whose status is `path`: no depth limit, symlinks
    /// not followed, no boundaries.
    pub fn from(path: RootStatus) -> (r: Result<Walker, WalkError>)
        ensures
            created(path, r),
    {
        Walker::from_with_capacity(path, 16)
    }

    /// As `from`, with the given initial capacity of its queues.
    pub fn from_with_capacity(path: RootStatus, capacity: usize) -> (r: Result<Walker, WalkError>)
        ensures
            created(path, r),
    {
        match path {
            RootStatus::Missing => Err(WalkError::NotFound),
            RootStatus::NotADirectory => Err(WalkError::NotADirectory),
            RootStatus::Directory(origin) => {
                let mut dirs: VecDeque<FsPath> = VecDeque::with_capacity(capacity);
                dirs.push_back(origin.clone_path());
                let files: VecDeque<FsPath> = VecDeque::with_capacity(capacity);
                let origin_depth = origin.len();
                let w = Walker {
                    files,
                    dirs,
                    ignore: Vec::new(),
                    origin,
                    origin_depth,
                    max_depth: None,
                    follow_symlinks: false,
                };
                proof {
                    assert(w@.files =~= Seq::<PathModel>::empty());
                    assert(w@.dirs =~= seq![w.origin@]);
                    assert(w@.ignore =~= Seq::<PathModel>::empty());
                    assert(w@ == initial_model(w.origin@));
                    assert(w@.origin.subrange(0, w@.origin.len() as int) =~= w@.origin);
                }
                Ok(w)
            },
        }
    }

    /// The same walker, with its subdirectories expanded only down to depth `depth`
    /// (0: the origin's own files only).
    pub fn max_depth(self, depth: u32) -> (r: Walker)
        requires
            self.wf(),
        ensures
            r.wf(),
            r@ == (WalkerModel { max_depth: Some(depth), ..self@ }),
    {
        let mut w = self;
        w.max_depth = Some(depth);
        w
    }

    /// The same walker, following symlinks to files and directories. There is
    /// no way back.
    pub fn follow_symlinks(self) -> (r: Walker)
        requires
            self.wf(),
        ensures
            r.wf(),
            r@ == (WalkerModel { follow_symlinks: true, ..self@ }),
    {
        let mut w = self;
        w.follow_symlinks = true;
        w
    }

    /// The same walker, kept from crossing into other filesystems: of the given
    /// mounted filesystems, those strictly beneath the origin become boundaries.
    pub fn only_local_fs(self, filesystems: &[FsPath]) -> (r: Walker)
        requires
            self.wf(),
        ensures
            r.wf(),
            r@ == (WalkerModel { ignore: boundaries_of(paths_view(filesystems@), self@.origin), ..self@ }),
    {
        let mut w = self;
        let ignore = fs_boundaries(filesystems, &w.origin);
        w.ignore = ignore;
        proof {
            let s = w@;
            assert forall|i: int| 0 <= i < s.ignore.len() implies is_strict_descendant(
                #[trigger] s.ignore[i],
                s.origin,
            ) by {
                let pred = |m: PathModel| is_strict_descendant(m, s.origin);
                paths_view(filesystems@).lemma_filter_pred(pred, i);
            }
        }
        w
    }

    /// Starts over from the origin: both queues are emptied and the origin queued.
    /// The configuration is kept.
    pub fn reset(&mut self) -> (r: &mut Walker)
        requires
            old(self).wf(),
        ensures
            r.wf(),
            r@ == reset_model(old(self)@),
            *final(self) == *final(r),
    {
        self.files.clear();
        self.dirs.clear();
        let o = self.origin.clone_path();
        self.dirs.push_back(o);
        proof {
            assert(self@.files =~= Seq::<PathModel>::empty());
            assert(self@.dirs =~= seq![self@.origin]);
            assert(self@.origin.subrange(0, self@.origin.len() as int) =~= self@.origin);
        }
        self
    }

    /// The next thing to do: hand out the first pending file; else take the first
    /// pending directory off its queue and ask for its listing; else stop.
    pub fn next(&mut self) -> (r: Step)
        requires
            old(self).wf(),
        ensures
            final(self).wf(),
            final(self)@ == next_model(old(self)@).0,
            r@ == next_model(old(self)@).1,
    {
        let ghost s = self@;
        match self.files.pop_front() {
            Some(f) => {
                proof {
                    assert(self@.files =~= s.files.drop_first());
                    assert(self@ == next_model(s).0);
                    assert forall|i: int| 0 <= i < self@.files.len() implies is_strict_descendant(
                        #[trigger] self@.files[i],
                        self@.origin,
                    ) by {
                        assert(self@.files[i] == s.files[i + 1]);
                    }
                }
                Step::File(f)
            },
            None => {
                match self.dirs.pop_front() {
                    Some(d) => {
                        proof {
                            assert(self@.files =~= s.files);
                            assert(self@.dirs =~= s.dirs.drop_first());
                            assert(self@ == next_model(s).0);
                            assert forall|i: int| 0 <= i < self@.dirs.len() implies is_prefix_of(
                                self@.origin,
                                #[trigger] self@.dirs[i],
                            ) by {
                                assert(self@.dirs[i] == s.dirs[i + 1]);
                            }
                        }
                        Step::Expand(d)
                    },
                    None => {
                        proof {
                            assert(self@.files =~= s.files);
                            assert(self@.dirs =~= s.dirs);
                        }
                        Step::Done
                    },
                }
            },
        }
    }

    /// Takes the outcome of listing `dir`, a directory that `next` handed out.
    /// A failed listing is skipped. Otherwise the files found are queued and,
    /// unless `dir` is at the depth limit, so are its subdirectories that are
    /// not boundaries.
    pub fn push(&mut self, dir: &FsPath, listing: Result<Listing, FileError>)
        requires
            old(self).wf(),
            is_prefix_of(old(self)@.origin, dir@),
        ensures
            final(self).wf(),
            match listing {
                Ok(l) => final(self)@ == expand_model(old(self)@, dir@, l.canonical_len as nat, l.entries@),
                Err(_) => final(self)@ == old(self)@,
            },
    {
        match listing {
            Ok(l) => {
                let ghost s = self@;
                let (files, dirs) = partition_entries(dir, &l.entries, self.follow_symlinks);
                let ghost fs = paths_view(files@);
                proof {
                    lemma_found_beneath(dir@, l.entries@, self.follow_symlinks, true);
                    lemma_found_beneath(dir@, l.entries@, self.follow_symlinks, false);
                }
                proof {
                    assert forall|i: int| 0 <= i < files@.len() implies is_strict_descendant(
                        #[trigger] paths_view(files@)[i],
                        s.origin,
                    ) by {
                        let f = paths_view(files@)[i];
                        lemma_found_children(dir@, l.entries@, s.follow_symlinks, true);
                        assert(f == found(dir@, l.entries@, s.follow_symlinks, true)[i]);
                        assert(is_prefix_of(dir@, f));
                        lemma_prefix_trans(s.origin, dir@, f);
                    }
                }
                self.append_files(files);
                if !self.at_max_depth(l.canonical_len) {
                    let kept = filter_boundaries(dirs, &self.ignore);
                    proof {
                        let pred = |d: PathModel| !s.ignore.contains(d);
                        let ds = found(dir@, l.entries@, s.follow_symlinks, false);
                        assert forall|i: int| 0 <= i < paths_view(kept@).len() implies is_prefix_of(
                            s.origin,
                            #[trigger] paths_view(kept@)[i],
                        ) by {
                            ds.lemma_filter_pred(pred, i);
                            let k = paths_view(kept@)[i];
                            assert(ds.filter(pred).contains(k));
                            ds.lemma_filter_contains_rev(pred, k);
                            let j = choose|j: int| 0 <= j < ds.len() && ds[j] == k;
                            lemma_prefix_trans(s.origin, dir@, k);
                        }
                    }
                    self.append_dirs(kept);
                }
                proof {
                    assert(self@ == expand_model(s, dir@, l.canonical_len as nat, l.entries@));
                }
            },
            Err(_) => {},
        }
    }

    /// Queues files found beneath the origin.
    fn append_files(&mut self, files: Vec<FsPath>)
        requires
            old(self).wf(),
            forall|i: int|
                0 <= i < files@.len() ==> is_strict_descendant(
                    #[trigger] paths_view(files@)[i],
                    old(self)@.origin,
                ),
        ensures
            final(self).wf(),
            final(self)@ == (WalkerModel { files: old(self)@.files + paths_view(files@), ..old(self)@ }),
    {
        let ghost s = self@;
        let ghost added = paths_view(files@);
        let mut i: usize = 0;
        while i < files.len()
            invariant
                0 <= i <= files@.len(),
                added == paths_view(files@),
                self.wf(),
                model_wf(s),
                self@ == (WalkerModel { files: s.files + added.subrange(0, i as int), ..s }),
                forall|k: int| 0 <= k < added.len() ==> is_strict_descendant(#[trigger] added[k], s.origin),
            decreases files@.len() - i,
        {
            let ghost before = self@.files;
            self.files.push_back(files[i].clone_path());
            proof {
                assert(s.files + added.subrange(0, i + 1) =~= (s.files + added.subrange(0, i as int)).push(added[i as int]));
                assert(self@.files =~= before.push(added[i as int]));
                assert forall|k: int| 0 <= k < self@.files.len() implies is_strict_descendant(#[trigger] self@.files[k], s.origin) by {
                    if k < before.len() {
                        assert(self@.files[k] == before[k]);
                    } else {
                        assert(self@.files[k] == added[i as int]);
                    }
                }
            }
            i = i + 1;
        }
        proof {
            assert(added.subrange(0, i as int) =~= added);
        }
    }

    /// Queues directories found beneath the origin.
    fn append_dirs(&mut self, dirs: Vec<FsPath>)
        requires
            old(self).wf(),
            forall|i: int|
                0 <= i < dirs@.len() ==> is_prefix_of(old(self)@.origin, #[trigger] paths_view(dirs@)[i]),
        ensures
            final(self).wf(),
            final(self)@ == (WalkerModel { dirs: old(self)@.dirs + paths_view(dirs@), ..old(self)@ }),
    {
        let ghost s = self@;
        let ghost added = paths_view(dirs@);
        let mut i: usize = 0;
        while i < dirs.len()
            invariant
                0 <= i <= dirs@.len(),
                added == paths_view(dirs@),
                self.wf(),
                model_wf(s),
                self@ == (WalkerModel { dirs: s.dirs + added.subrange(0, i as int), ..s }),
                forall|k: int| 0 <= k < added.len() ==> is_prefix_of(s.origin, #[trigger] added[k]),
            decreases dirs@.len() - i,
        {
            let ghost before = self@.dirs;
            self.dirs.push_back(dirs[i].clone_path());
            proof {
                assert(s.dirs + added.subrange(0, i + 1) =~= (s.dirs + added.subrange(0, i as int)).push(added[i as int]));
                assert(self@.dirs =~= before.push(added[i as int]));
                assert forall|k: int| 0 <= k < self@.dirs.len() implies is_prefix_of(s.origin, #[trigger] self@.dirs[k]) by {
                    if k < before.len() {
                        assert(self@.dirs[k] == before[k]);
                    } else {
                        assert(self@.dirs[k] == added[i as int]);
                    }
                }
            }
            i = i + 1;
        }
        proof {
            assert(added.subrange(0, i as int) =~= added);
        }
    }

    /// The depth of a directory whose canonical path has `canonical_len` components.
    fn depth(&self, canonical_len: usize) -> (r: usize)
        requires
            canonical_len >= self@.origin_depth,
        ensures
            r == canonical_len - self@.origin_depth,
    {
        canonical_len - self.origin_depth
    }

    /// Whether a directory whose canonical path has `canonical_len` components
    /// lies at or below the depth limit.
    fn at_max_depth(&self, canonical_len: usize) -> (r: bool)
        ensures
            r == at_max_depth_model(self@, canonical_len as nat),
    {
        match self.max_depth {
            Some(m) => canonical_len >= self.origin_depth && self.depth(canonical_len) >= m as usize,
            None => false,
        }
    }

    /// The path the walker deals with next: its first pending file, else its
    /// first pending directory.
    fn front(&self) -> (r: Option<&FsPath>)
        ensures
            match r {
                Some(p) => front_model(self@) == Some(p@),
                None => front_model(self@) is None,
            },
    {
        if self.files.len() > 0 {
            Some(&self.files[0])
        } else if self.dirs.len() > 0 {
            Some(&self.dirs[0])
        } else {
            None
        }
    }

    /// The depth below the origin of the path the walker deals with next, if any.
    pub fn current_depth(&self) -> (r: Option<usize>)
        requires
            self.wf(),
        ensures
            r == (match front_model(self@) {
                Some(p) => Some((p.len() - self@.origin_depth) as usize),
                None => None::<usize>,
            }),
    {
        match self.front() {
            Some(p) => Some(p.len() - self.origin_depth),
            None => None,
        }
    }

    /// Deepest first: compares two walkers by the depth below its origin of the
    /// path each deals with next; a walker whose front lies deeper comes first,
    /// and an exhausted walker comes last.
    pub fn depth_cmp(&self, other: &Walker) -> (r: std::cmp::Ordering)
        ensures
            r == order_model(self@, other@),
    {
        match (self.front(), other.front()) {
            (Some(p), Some(q)) => {
                // p.len() - self.origin_depth against q.len() - other.origin_depth
                let a: u128 = p.len() as u128 + other.origin_depth as u128;
                let b: u128 = q.len() as u128 + self.origin_depth as u128;
                if a > b {
                    std::cmp::Ordering::Less
                } else if a < b {
                    std::cmp::Ordering::Greater
                } else {
                    std::cmp::Ordering::Equal
                }
            },
            (Some(_), None) => std::cmp::Ordering::Less,
            (None, Some(_)) => std::cmp::Ordering::Greater,
            (None, None) => std::cmp::Ordering::Equal,
        }
    }

    /// The first pending file, if any.
    pub fn current_file(&self) -> (r: Option<&FsPath>)
        ensures
            match r {
                Some(p) => self@.files.len() > 0 && p@ == self@.files[0],
                None => self@.files.len() == 0,
            },
    {
        if self.files.len() > 0 {
            Some(&self.files[0])
        } else {
            None
        }
    }

    /// The first pending directory, if any.
    pub fn current_dir(&self) -> (r: Option<&FsPath>)
        ensures
            match r {
                Some(p) => self@.dirs.len() > 0 && p@ == self@.dirs[0],
                None => self@.dirs.len() == 0,
            },
    {
        if self.dirs.len() > 0 {
            Some(&self.dirs[0])
        } else {
            None
        }
    }

    /// The canonical path the traversal starts from.
    pub fn origin(&self) -> (r: &FsPath)
        ensures
            r@ == self@.origin,
    {
        &self.origin
    }

    /// Whether symlinks are followed.
    pub fn follows_symlinks(&self) -> (r: bool)
        ensures
            r == self@.follow_symlinks,
    {
        self.follow_symlinks
    }
}

impl PartialOrd for Walker {
    /// Deepest first, as `depth_cmp`.
    fn partial_cmp(&self, other: &Walker) -> (r: Option<std::cmp::Ordering>)
        ensures
            r == Some(order_model(self@, other@)),
    {
        Some(self.depth_cmp(other))
    }
}

impl vstd::std_specs::cmp::PartialOrdSpecImpl for Walker {
    open spec fn obeys_partial_cmp_spec() -> bool {
        true
    }

    open spec fn partial_cmp_spec(&self, other: &Walker) -> Option<std::cmp::Ordering> {
        Some(order_model(self@, other@))
    }
}

/// `r` is what creating a walker from `status` gives: an error for a missing
/// path or one that is not a directory, else a fresh walker over the directory.
pub open spec fn created(status: RootStatus, r: Result<Walker, WalkError>) -> bool {
    match status {
        RootStatus::Missing => r == Err::<Walker, WalkError>(WalkError::NotFound),
        RootStatus::NotADirectory => r == Err::<Walker, WalkError>(WalkError::NotADirectory),
        RootStatus::Directory(p) => match r {
            Ok(w) => w.wf() && w@ == initial_model(p@),
            Err(_) => false,
        },
    }
}

/// Leading parts compose.
pub proof fn lemma_prefix_trans(a: PathModel, b: PathModel, c: PathModel)
    requires
        is_prefix_of(a, b),
        is_prefix_of(b, c),
    ensures
        is_prefix_of(a, c),
{
    assert(c.subrange(0, a.len() as int) =~= b.subrange(0, a.len() as int));
}

/// Every path found in a listing of `dir` is `dir` with one component more.
pub proof fn lemma_found_children(dir: PathModel, entries: Seq<crate::entry::Entry>, follow: bool, want_file: bool)
    ensures
        forall|i: int|
            0 <= i < found(dir, entries, follow, want_file).len() ==> {
                let p = #[trigger] found(dir, entries, follow, want_file)[i];
                &&& p.len() == dir.len() + 1
                &&& p.subrange(0, dir.len() as int) == dir
            },
    decreases entries.len(),
{
    if entries.len() > 0 {
        lemma_found_children(dir, entries.drop_last(), follow, want_file);
        let e = entries.last();
        let before = found(dir, entries.drop_last(), follow, want_file);
        let all = found(dir, entries, follow, want_file);
        assert(dir.push(e.name@).subrange(0, dir.len() as int) =~= dir);
        assert forall|i: int| 0 <= i < all.len() implies {
            let p = #[trigger] all[i];
            &&& p.len() == dir.len() + 1
            &&& p.subrange(0, dir.len() as int) == dir
        } by {
            if i < before.len() {
                assert(all[i] == before[i]);
            } else {
                assert(all[i] == dir.push(e.name@));
            }
        }
    }
}

/// Every path found in a listing of `dir` lies strictly beneath `dir`.
proof fn lemma_found_beneath(dir: PathModel, entries: Seq<crate::entry::Entry>, follow: bool, want_file: bool)
    ensures
        forall|i: int|
            0 <= i < found(dir, entries, follow, want_file).len() ==> is_strict_descendant(
                #[trigger] found(dir, entries, follow, want_file)[i],
                dir,
            ),
{
    lemma_found_children(dir, entries, follow, want_file);
}

} // verus!
