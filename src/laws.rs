use vstd::prelude::*;

use crate::entry::{Entry, EntryKind, found, is_file_kind, is_valid_target};
use crate::fs::{boundaries_of, is_strict_descendant, outside_boundaries};
use crate::path::{PathModel, is_prefix_of};
use crate::err::WalkError;
use crate::walker::{
    RootStatus,
    StepModel,
    Walker,
    created,
    WalkerModel,
    at_max_depth_model,
    expand_model,
    initial_model,
    model_wf,
    next_model,
    reset_model,
};

verus! {

/// A filesystem as its driver sees it: each directory that can be listed,
/// mapped to its entries. A directory missing from the map fails to list.
pub type FsModel = Map<PathModel, Seq<Entry>>;

/// No two entries of one listing share a name, as in any directory.
pub open spec fn names_distinct(es: Seq<Entry>) -> bool {
    forall|i: int, j: int|
        0 <= i < es.len() && 0 <= j < es.len() && i != j ==> es[i].name@ != es[j].name@
}

/// Every listing of `fs` has distinct names.
pub open spec fn fs_wf(fs: FsModel) -> bool {
    forall|d: PathModel| fs.contains_key(d) ==> names_distinct(#[trigger] fs[d])
}

/// The listing `es` has an entry called `name` of type `kind`.
pub open spec fn has_entry(es: Seq<Entry>, name: Seq<char>, kind: EntryKind) -> bool {
    exists|i: int| 0 <= i < es.len() && es[i].name@ == name && es[i].kind == kind
}

/// The state after the driver hands the walker the listing of `d` in `fs`.
/// Without symlinks every path the walker builds is canonical, so the
/// canonical component count of `d` is its own.
pub open spec fn listed(s: WalkerModel, d: PathModel, fs: FsModel) -> WalkerModel {
    if fs.contains_key(d) {
        expand_model(s, d, d.len(), fs[d])
    } else {
        s
    }
}

/// One step of a driver over `fs`: the state after it, and the files it yielded.
pub open spec fn walk_step(s: WalkerModel, fs: FsModel) -> (WalkerModel, Seq<PathModel>) {
    let (t, st) = next_model(s);
    match st {
        StepModel::File(f) => (t, seq![f]),
        StepModel::Expand(d) => (listed(t, d, fs), Seq::empty()),
        StepModel::Done => (t, Seq::empty()),
    }
}

/// `n` steps of a driver over `fs`: the state after them, and the files yielded.
pub open spec fn walk(s: WalkerModel, fs: FsModel, n: nat) -> (WalkerModel, Seq<PathModel>)
    decreases n,
{
    if n == 0 {
        (s, Seq::empty())
    } else {
        let (t, out) = walk_step(s, fs);
        let (u, rest) = walk(t, fs, (n - 1) as nat);
        (u, out + rest)
    }
}

/// Nothing is left to hand out or to list.
pub open spec fn exhausted(s: WalkerModel) -> bool {
    s.files.len() == 0 && s.dirs.len() == 0
}

/// A fresh walker over `origin` with the given configuration.
pub open spec fn fresh(
    origin: PathModel,
    ignore: Seq<PathModel>,
    max_depth: Option<u32>,
    follow_symlinks: bool,
) -> WalkerModel {
    WalkerModel { ignore, max_depth, follow_symlinks, ..initial_model(origin) }
}

/// A regular file reachable from `root` through plain directories only.
pub open spec fn reachable_file(fs: FsModel, root: PathModel, f: PathModel) -> bool {
    &&& f.len() > root.len()
    &&& is_prefix_of(root, f)
    &&& forall|k: int|
        root.len() <= k < f.len() - 1 ==> {
            &&& fs.contains_key(#[trigger] f.subrange(0, k))
            &&& has_entry(fs[f.subrange(0, k)], f[k], EntryKind::Directory)
        }
    &&& fs.contains_key(f.drop_last())
    &&& has_entry(fs[f.drop_last()], f.last(), EntryKind::File)
}

/// A regular file listed directly in `root`.
pub open spec fn file_in_root(fs: FsModel, root: PathModel, f: PathModel) -> bool {
    &&& f.len() == root.len() + 1
    &&& f.drop_last() == root
    &&& fs.contains_key(root)
    &&& has_entry(fs[root], f.last(), EntryKind::File)
}

/// Of a set of mounted filesystems, the boundaries of a traversal from `root`
/// never include `root` itself, even where `root` is mounted, and include
/// every mount point strictly beneath it; they include nothing else.
pub proof fn lemma_boundaries(mounts: Seq<PathModel>, root: PathModel)
    ensures
        !boundaries_of(mounts, root).contains(root),
        forall|m: PathModel|
            mounts.contains(m) && is_strict_descendant(m, root) ==> #[trigger] boundaries_of(
                mounts,
                root,
            ).contains(m),
        forall|m: PathModel|
            #[trigger] boundaries_of(mounts, root).contains(m) ==> mounts.contains(m)
                && is_strict_descendant(m, root),
{
    let pred = |m: PathModel| is_strict_descendant(m, root);
    assert forall|m: PathModel| #[trigger] boundaries_of(mounts, root).contains(m) implies mounts.contains(m)
        && is_strict_descendant(m, root) by {
        let b = mounts.filter(pred);
        let i = choose|i: int| 0 <= i < b.len() && b[i] == m;
        mounts.lemma_filter_pred(pred, i);
        mounts.lemma_filter_contains_rev(pred, m);
    }
    assert forall|m: PathModel| mounts.contains(m) && is_strict_descendant(m, root) implies #[trigger] boundaries_of(
        mounts,
        root,
    ).contains(m) by {
        let i = choose|i: int| 0 <= i < mounts.len() && mounts[i] == m;
        mounts.lemma_filter_contains(pred, i);
    }
}

/// A reset walker is the fresh walker over its origin with its configuration,
/// so a driver over any filesystem gets from it what it gets from that fresh one.
pub proof fn lemma_reset_restarts(s: WalkerModel, fs: FsModel, n: nat)
    requires
        model_wf(s),
    ensures
        reset_model(s) == fresh(s.origin, s.ignore, s.max_depth, s.follow_symlinks),
        walk(reset_model(s), fs, n) == walk(fresh(s.origin, s.ignore, s.max_depth, s.follow_symlinks), fs, n),
{
    assert(reset_model(s) == fresh(s.origin, s.ignore, s.max_depth, s.follow_symlinks));
}

/// From its directory `parent`, a walker configured as `c` queues the
/// subdirectory `name`.
pub open spec fn descends(fs: FsModel, c: WalkerModel, parent: PathModel, name: Seq<char>) -> bool {
    &&& fs.contains_key(parent)
    &&& has_entry(fs[parent], name, EntryKind::Directory)
    &&& !c.ignore.contains(parent.push(name))
    &&& !at_max_depth_model(c, parent.len())
}

/// A directory that a walker configured as `c` reaches from its origin.
pub open spec fn dir_reachable(fs: FsModel, c: WalkerModel, d: PathModel) -> bool {
    &&& is_prefix_of(c.origin, d)
    &&& forall|k: int| c.origin.len() <= k < d.len() ==> #[trigger] descends(fs, c, d.subrange(0, k), d[k])
}

/// A regular file that a walker configured as `c` reaches from its origin:
/// one listed in a directory it reaches.
pub open spec fn file_reachable(fs: FsModel, c: WalkerModel, f: PathModel) -> bool {
    &&& f.len() > c.origin.len()
    &&& dir_reachable(fs, c, f.drop_last())
    &&& fs.contains_key(f.drop_last())
    &&& has_entry(fs[f.drop_last()], f.last(), EntryKind::File)
}

/// An entry of this type is found as a file (`want_file`) or as a directory.
pub open spec fn wanted(kind: EntryKind, follow_symlinks: bool, want_file: bool) -> bool {
    is_valid_target(kind, follow_symlinks) && is_file_kind(kind) == want_file
}

/// `s` carries the configuration of `c`.
pub open spec fn same_config(c: WalkerModel, s: WalkerModel) -> bool {
    &&& s.ignore == c.ignore
    &&& s.origin == c.origin
    &&& s.origin_depth == c.origin_depth
    &&& s.max_depth == c.max_depth
    &&& s.follow_symlinks == c.follow_symlinks
}

/// Some directory of `dirs` leads `f`.
pub open spec fn covered(dirs: Seq<PathModel>, f: PathModel) -> bool {
    exists|i: int| 0 <= i < dirs.len() && is_prefix_of(dirs[i], f)
}

/// What holds at every step of a walk configured as `c` over `fs`, where `y`
/// was yielded so far: each reachable file has been yielded or is pending, once,
/// or lies beneath exactly one pending directory.
pub open spec fn walk_inv(fs: FsModel, c: WalkerModel, s: WalkerModel, y: Seq<PathModel>) -> bool {
    let t = y + s.files;
    &&& same_config(c, s)
    &&& t.no_duplicates()
    &&& forall|i: int| 0 <= i < t.len() ==> file_reachable(fs, c, #[trigger] t[i])
    &&& forall|i: int| 0 <= i < s.dirs.len() ==> dir_reachable(fs, c, #[trigger] s.dirs[i])
    &&& forall|f: PathModel| #[trigger] file_reachable(fs, c, f) ==> t.contains(f) || covered(s.dirs, f)
    &&& forall|i: int, j: int|
        0 <= i < t.len() && 0 <= j < s.dirs.len() ==> !is_prefix_of(#[trigger] s.dirs[j], #[trigger] t[i])
    &&& forall|i: int, j: int|
        0 <= i < s.dirs.len() && 0 <= j < s.dirs.len() && i != j ==> !is_prefix_of(
            #[trigger] s.dirs[i],
            #[trigger] s.dirs[j],
        )
}

/// `p` is the path inside `dir` of an entry of `es` found as `want` asks.
pub open spec fn from_entry(dir: PathModel, es: Seq<Entry>, follow: bool, want: bool, p: PathModel) -> bool {
    exists|j: int| 0 <= j < es.len() && wanted(es[j].kind, follow, want) && p == dir.push(es[j].name@)
}

/// The members of a found sequence, and that it repeats nothing when names are distinct.
proof fn lemma_found_members(dir: PathModel, es: Seq<Entry>, follow: bool, want: bool)
    ensures
        forall|i: int|
            0 <= i < found(dir, es, follow, want).len() ==> from_entry(
                dir,
                es,
                follow,
                want,
                #[trigger] found(dir, es, follow, want)[i],
            ),
        forall|j: int|
            0 <= j < es.len() && wanted(#[trigger] es[j].kind, follow, want) ==> found(
                dir,
                es,
                follow,
                want,
            ).contains(dir.push(es[j].name@)),
        names_distinct(es) ==> found(dir, es, follow, want).no_duplicates(),
    decreases es.len(),
{
    if es.len() > 0 {
        let pre = es.drop_last();
        lemma_found_members(dir, pre, follow, want);
        let b = found(dir, pre, follow, want);
        let a = found(dir, es, follow, want);
        let e = es.last();
        let x = dir.push(e.name@);
        assert forall|i: int| 0 <= i < a.len() implies from_entry(dir, es, follow, want, #[trigger] a[i]) by {
            if i < b.len() {
                assert(a[i] == b[i]);
                assert(from_entry(dir, pre, follow, want, b[i]));
                let j = choose|j: int|
                    0 <= j < pre.len() && wanted(pre[j].kind, follow, want) && b[i] == dir.push(
                        pre[j].name@,
                    );
                assert(es[j] == pre[j]);
                assert(wanted(es[j].kind, follow, want) && a[i] == dir.push(es[j].name@));
            } else {
                assert(es[es.len() - 1] == e);
                assert(wanted(e.kind, follow, want));
                assert(a[i] == x);
                assert(wanted(es[es.len() - 1].kind, follow, want) && a[i] == dir.push(
                    es[es.len() - 1].name@,
                ));
            }
        }
        assert forall|j: int| 0 <= j < es.len() && wanted(#[trigger] es[j].kind, follow, want) implies a.contains(
            dir.push(es[j].name@),
        ) by {
            if j < es.len() - 1 {
                assert(pre[j] == es[j]);
                assert(b.contains(dir.push(pre[j].name@)));
                let k = choose|k: int| 0 <= k < b.len() && b[k] == dir.push(pre[j].name@);
                assert(a[k] == b[k]);
            } else {
                assert(a[a.len() - 1] == x);
            }
        }
        if names_distinct(es) {
            assert(names_distinct(pre)) by {
                assert forall|i: int, j: int|
                    0 <= i < pre.len() && 0 <= j < pre.len() && i != j implies pre[i].name@
                    != pre[j].name@ by {
                    assert(pre[i] == es[i] && pre[j] == es[j]);
                }
            }
            if wanted(e.kind, follow, want) {
                assert forall|i: int| 0 <= i < b.len() implies b[i] != x by {
                    assert(from_entry(dir, pre, follow, want, b[i]));
                    let j = choose|j: int|
                        0 <= j < pre.len() && wanted(pre[j].kind, follow, want) && b[i]
                            == dir.push(pre[j].name@);
                    assert(pre[j] == es[j]);
                    assert(es[j].name@ != es[es.len() - 1].name@);
                    assert(dir.push(pre[j].name@)[dir.len() as int] == pre[j].name@);
                    assert(x[dir.len() as int] == e.name@);
                }
                assert forall|i: int, k: int|
                    0 <= i < a.len() && 0 <= k < a.len() && i != k implies a[i] != a[k] by {
                    if i < b.len() && k < b.len() {
                        assert(a[i] == b[i] && a[k] == b[k]);
                    } else if i < b.len() {
                        assert(a[i] == b[i] && a[k] == x);
                    } else if k < b.len() {
                        assert(a[k] == b[k] && a[i] == x);
                    }
                }
            }
        }
    }
}

/// A filter keeps a sequence free of repetition.
proof fn lemma_filter_no_dup(s: Seq<PathModel>, pred: spec_fn(PathModel) -> bool)
    requires
        s.no_duplicates(),
    ensures
        s.filter(pred).no_duplicates(),
    decreases s.len(),
{
    reveal(Seq::filter);
    if s.len() > 0 {
        let pre = s.drop_last();
        assert(pre.no_duplicates()) by {
            assert forall|i: int, j: int|
                0 <= i < pre.len() && 0 <= j < pre.len() && i != j implies pre[i] != pre[j] by {
                assert(pre[i] == s[i] && pre[j] == s[j]);
            }
        }
        lemma_filter_no_dup(pre, pred);
        if pred(s.last()) {
            let b = pre.filter(pred);
            assert forall|i: int| 0 <= i < b.len() implies b[i] != s.last() by {
                pre.lemma_filter_pred(pred, i);
                assert(b.contains(b[i]));
                pre.lemma_filter_contains_rev(pred, b[i]);
                let k = choose|k: int| 0 <= k < pre.len() && pre[k] == b[i];
                assert(s[k] == pre[k]);
            }
            let a = b.push(s.last());
            assert forall|i: int, k: int|
                0 <= i < a.len() && 0 <= k < a.len() && i != k implies a[i] != a[k] by {
                if i < b.len() && k < b.len() {
                    assert(a[i] == b[i] && a[k] == b[k]);
                } else if i < b.len() {
                    assert(a[i] == b[i]);
                } else if k < b.len() {
                    assert(a[k] == b[k]);
                }
            }
        }
    }
}

/// Under distinct names, one name in a listing has one type.
proof fn lemma_entry_unique(es: Seq<Entry>, name: Seq<char>, k1: EntryKind, k2: EntryKind)
    requires
        names_distinct(es),
        has_entry(es, name, k1),
        has_entry(es, name, k2),
    ensures
        k1 == k2,
{
}

/// Where a pending directory `d` leads a reachable file `f`: `d` was listed,
/// and `f` is either listed in `d` or lies beneath a subdirectory of `d` that
/// the walker descends into.
proof fn lemma_cover_split(fs: FsModel, c: WalkerModel, d: PathModel, f: PathModel)
    requires
        fs_wf(fs),
        model_wf(c),
        file_reachable(fs, c, f),
        dir_reachable(fs, c, d),
        is_prefix_of(d, f),
    ensures
        fs.contains_key(d),
        f.len() > d.len(),
        f.len() == d.len() + 1 ==> f == d.push(f.last()) && has_entry(fs[d], f.last(), EntryKind::File),
        f.len() > d.len() + 1 ==> descends(fs, c, d, f[d.len() as int]) && is_prefix_of(
            d.push(f[d.len() as int]),
            f,
        ),
{
    let p = f.drop_last();
    let o = c.origin;
    if d.len() == f.len() {
        assert(d =~= f);
        if d.len() > o.len() {
            let k = d.len() - 1;
            assert(descends(fs, c, d.subrange(0, k), d[k]));
            assert(d.subrange(0, k) =~= p);
            lemma_entry_unique(fs[p], f.last(), EntryKind::Directory, EntryKind::File);
        }
        assert(false);
    }
    if d.len() + 1 == f.len() {
        assert(p =~= d);
        assert(f =~= d.push(f.last()));
    } else {
        let k = d.len() as int;
        assert(descends(fs, c, p.subrange(0, k), p[k]));
        assert(p.subrange(0, k) =~= d);
        assert(d.push(f[k]) =~= f.subrange(0, k + 1));
    }
}

/// The subdirectory that a walker descends into from a directory it reaches
/// is reached too.
proof fn lemma_child_reachable(fs: FsModel, c: WalkerModel, d: PathModel, name: Seq<char>)
    requires
        dir_reachable(fs, c, d),
        descends(fs, c, d, name),
    ensures
        dir_reachable(fs, c, d.push(name)),
{
    let x = d.push(name);
    assert(x.subrange(0, d.len() as int) =~= d);
    crate::walker::lemma_prefix_trans(c.origin, d, x);
    assert forall|k: int| c.origin.len() <= k < x.len() implies #[trigger] descends(
        fs,
        c,
        x.subrange(0, k),
        x[k],
    ) by {
        if k < d.len() {
            assert(x.subrange(0, k) =~= d.subrange(0, k));
            assert(descends(fs, c, d.subrange(0, k), d[k]));
        } else {
            assert(x.subrange(0, k) =~= d);
        }
    }
}

/// `d` leads `d` extended by `name`, which is one component longer and ends in `name`.
proof fn lemma_push_prefix(d: PathModel, name: Seq<char>)
    ensures
        is_prefix_of(d, d.push(name)),
        d.push(name).len() == d.len() + 1,
        d.push(name)[d.len() as int] == name,
{
    assert(d.push(name).subrange(0, d.len() as int) =~= d);
}

/// A leading part of a path that is no longer than another leading part of it
/// leads that part too.
proof fn lemma_prefix_of_prefix(a: PathModel, b: PathModel, f: PathModel)
    requires
        is_prefix_of(a, f),
        is_prefix_of(b, f),
        a.len() <= b.len(),
    ensures
        is_prefix_of(a, b),
{
    assert(b.subrange(0, a.len() as int) =~= f.subrange(0, a.len() as int));
}

/// The members of the found sequence when symlinks are not followed.
proof fn lemma_found_plain(d: PathModel, es: Seq<Entry>, want: bool, p: PathModel)
    requires
        from_entry(d, es, false, want, p),
    ensures
        p.len() == d.len() + 1,
        is_prefix_of(d, p),
        p.drop_last() == d,
        has_entry(es, p.last(), if want { EntryKind::File } else { EntryKind::Directory }),
{
    let j = choose|j: int| 0 <= j < es.len() && wanted(es[j].kind, false, want) && p == d.push(es[j].name@);
    lemma_push_prefix(d, es[j].name@);
    assert(p.drop_last() =~= d);
    assert(es[j].name@ == p.last());
}

/// Membership in the directories kept past the boundaries, and that they
/// repeat nothing when the found directories do not.
proof fn lemma_outside_members(ds: Seq<PathModel>, bs: Seq<PathModel>)
    ensures
        forall|x: PathModel|
            #[trigger] outside_boundaries(ds, bs).contains(x) <==> ds.contains(x) && !bs.contains(x),
        ds.no_duplicates() ==> outside_boundaries(ds, bs).no_duplicates(),
{
    let pred = |x: PathModel| !bs.contains(x);
    assert forall|x: PathModel| #[trigger] outside_boundaries(ds, bs).contains(x) <==> ds.contains(x)
        && !bs.contains(x) by {
        if outside_boundaries(ds, bs).contains(x) {
            let i = choose|i: int| 0 <= i < ds.filter(pred).len() && ds.filter(pred)[i] == x;
            ds.lemma_filter_pred(pred, i);
            ds.lemma_filter_contains_rev(pred, x);
        }
        if ds.contains(x) && !bs.contains(x) {
            let i = choose|i: int| 0 <= i < ds.len() && ds[i] == x;
            ds.lemma_filter_contains(pred, i);
        }
    }
    if ds.no_duplicates() {
        lemma_filter_no_dup(ds, pred);
    }
}

/// Listing the first pending directory keeps the walk invariant.
proof fn lemma_expand_listed(fs: FsModel, c: WalkerModel, s: WalkerModel, y: Seq<PathModel>)
    requires
        fs_wf(fs),
        model_wf(c),
        !c.follow_symlinks,
        walk_inv(fs, c, s, y),
        s.files.len() == 0,
        s.dirs.len() > 0,
        fs.contains_key(s.dirs[0]),
    ensures
        walk_inv(fs, c, listed(WalkerModel { dirs: s.dirs.drop_first(), ..s }, s.dirs[0], fs), y),
{
    let d = s.dirs[0];
    let r = s.dirs.drop_first();
    let t0 = WalkerModel { dirs: r, ..s };
    let es = fs[d];
    let ff = found(d, es, false, true);
    let d0 = found(d, es, false, false);
    let atmax = at_max_depth_model(c, d.len());
    let dd = if atmax { Seq::<PathModel>::empty() } else { outside_boundaries(d0, c.ignore) };
    let s2 = listed(t0, d, fs);
    let t = y + s.files;
    let t2 = y + s2.files;
    assert(t =~= y);
    assert(s2.files =~= ff);
    assert(s2.dirs =~= r + dd);
    assert(same_config(c, s2));
    assert(names_distinct(es));
    lemma_found_members(d, es, false, true);
    lemma_found_members(d, es, false, false);
    lemma_outside_members(d0, c.ignore);
    assert(dir_reachable(fs, c, d));
    // every new file and directory is a child of d
    assert forall|j: int| 0 <= j < ff.len() implies {
        &&& #[trigger] ff[j].len() == d.len() + 1
        &&& is_prefix_of(d, ff[j])
        &&& ff[j].drop_last() == d
        &&& has_entry(es, ff[j].last(), EntryKind::File)
    } by {
        lemma_found_plain(d, es, true, ff[j]);
    }
    assert forall|j: int| 0 <= j < dd.len() implies {
        &&& #[trigger] dd[j].len() == d.len() + 1
        &&& is_prefix_of(d, dd[j])
        &&& dd[j].drop_last() == d
        &&& has_entry(es, dd[j].last(), EntryKind::Directory)
        &&& descends(fs, c, d, dd[j].last())
        &&& dd[j] == d.push(dd[j].last())
    } by {
        assert(dd.contains(dd[j]));
        assert(d0.contains(dd[j]));
        let k = choose|k: int| 0 <= k < d0.len() && d0[k] == dd[j];
        lemma_found_plain(d, es, false, d0[k]);
        assert(dd[j] =~= d.push(dd[j].last()));
    }
    // the yielded and pending files
    assert forall|i: int, j: int| 0 <= i < y.len() && 0 <= j < ff.len() implies y[i] != ff[j] by {
        assert(t[i] == y[i]);
        assert(!is_prefix_of(s.dirs[0], t[i]));
    }
    vstd::seq_lib::lemma_no_dup_in_concat(y, ff);
    assert forall|i: int| 0 <= i < t2.len() implies file_reachable(fs, c, #[trigger] t2[i]) by {
        if i < y.len() {
            assert(t2[i] == t[i]);
        } else {
            let f = t2[i];
            assert(f == ff[i - y.len()]);
            crate::walker::lemma_prefix_trans(c.origin, d, f);
        }
    }
    // the pending directories
    assert forall|j: int| 0 <= j < s2.dirs.len() implies dir_reachable(fs, c, #[trigger] s2.dirs[j]) by {
        if j < r.len() {
            assert(s2.dirs[j] == s.dirs[j + 1]);
        } else {
            let x = dd[j - r.len()];
            assert(s2.dirs[j] == x);
            lemma_child_reachable(fs, c, d, x.last());
        }
    }
    // every reachable file is yielded, pending, or beneath a pending directory
    assert forall|f: PathModel| #[trigger] file_reachable(fs, c, f) implies t2.contains(f) || covered(
        s2.dirs,
        f,
    ) by {
        if t.contains(f) {
            let i = choose|i: int| 0 <= i < t.len() && t[i] == f;
            assert(t2[i] == f);
        } else {
            let i = choose|i: int| 0 <= i < s.dirs.len() && is_prefix_of(s.dirs[i], f);
            if i > 0 {
                assert(s2.dirs[i - 1] == s.dirs[i]);
            } else {
                lemma_cover_split(fs, c, d, f);
                if f.len() == d.len() + 1 {
                    let k = choose|k: int| 0 <= k < es.len() && es[k].name@ == f.last() && es[k].kind == EntryKind::File;
                    assert(wanted(es[k].kind, false, true));
                    assert(ff.contains(d.push(es[k].name@)));
                    let m = choose|m: int| 0 <= m < ff.len() && ff[m] == d.push(es[k].name@);
                    assert(t2[y.len() + m] == f);
                } else {
                    let name = f[d.len() as int];
                    let x = d.push(name);
                    let k = choose|k: int| 0 <= k < es.len() && es[k].name@ == name && es[k].kind == EntryKind::Directory;
                    assert(wanted(es[k].kind, false, false));
                    assert(d0.contains(d.push(es[k].name@)));
                    assert(dd.contains(x));
                    let m = choose|m: int| 0 <= m < dd.len() && dd[m] == x;
                    assert(s2.dirs[r.len() + m] == x);
                }
            }
        }
    }
    // no pending directory leads a yielded or pending file
    assert forall|i: int, j: int| 0 <= i < t2.len() && 0 <= j < s2.dirs.len() implies !is_prefix_of(
        #[trigger] s2.dirs[j],
        #[trigger] t2[i],
    ) by {
        let e = s2.dirs[j];
        let f = t2[i];
        if i < y.len() {
            assert(f == t[i]);
            if j < r.len() {
                assert(e == s.dirs[j + 1]);
            } else {
                if is_prefix_of(e, f) {
                    crate::walker::lemma_prefix_trans(d, e, f);
                    assert(!is_prefix_of(s.dirs[0], t[i]));
                }
            }
        } else {
            assert(f == ff[i - y.len()]);
            if is_prefix_of(e, f) {
                if j < r.len() {
                    assert(e == s.dirs[j + 1]);
                    if e.len() <= d.len() {
                        lemma_prefix_of_prefix(e, d, f);
                        assert(!is_prefix_of(s.dirs[j + 1], s.dirs[0]));
                    } else {
                        assert(e =~= f);
                        assert(dir_reachable(fs, c, e));
                        let k = d.len() as int;
                        assert(descends(fs, c, e.subrange(0, k), e[k]));
                        assert(e.subrange(0, k) =~= d);
                        lemma_entry_unique(es, f.last(), EntryKind::Directory, EntryKind::File);
                    }
                } else {
                    assert(e == dd[j - r.len()]);
                    assert(e =~= f);
                    lemma_entry_unique(es, f.last(), EntryKind::Directory, EntryKind::File);
                }
            }
        }
    }
    // the pending directories lead one another nowhere
    if !atmax {
        assert(d0.no_duplicates());
    }
    assert(dd.no_duplicates());
    assert forall|i: int, j: int|
        0 <= i < s2.dirs.len() && 0 <= j < s2.dirs.len() && i != j implies !is_prefix_of(
        #[trigger] s2.dirs[i],
        #[trigger] s2.dirs[j],
    ) by {
        let a = s2.dirs[i];
        let b = s2.dirs[j];
        if is_prefix_of(a, b) {
            if i < r.len() && j < r.len() {
                assert(a == s.dirs[i + 1] && b == s.dirs[j + 1]);
            } else if i < r.len() {
                assert(a == s.dirs[i + 1]);
                assert(b == dd[j - r.len()]);
                if a.len() <= d.len() {
                    lemma_prefix_of_prefix(a, d, b);
                    assert(!is_prefix_of(s.dirs[i + 1], s.dirs[0]));
                } else {
                    assert(a =~= b);
                    assert(!is_prefix_of(s.dirs[0], s.dirs[i + 1]));
                }
            } else if j < r.len() {
                assert(b == s.dirs[j + 1]);
                assert(a == dd[i - r.len()]);
                crate::walker::lemma_prefix_trans(d, a, b);
                assert(!is_prefix_of(s.dirs[0], s.dirs[j + 1]));
            } else {
                assert(a == dd[i - r.len()] && b == dd[j - r.len()]);
                assert(a =~= b);
            }
        }
    }
}

/// A first pending directory that fails to list is dropped, keeping the walk invariant.
proof fn lemma_expand_unlisted(fs: FsModel, c: WalkerModel, s: WalkerModel, y: Seq<PathModel>)
    requires
        fs_wf(fs),
        model_wf(c),
        walk_inv(fs, c, s, y),
        s.files.len() == 0,
        s.dirs.len() > 0,
        !fs.contains_key(s.dirs[0]),
    ensures
        walk_inv(fs, c, WalkerModel { dirs: s.dirs.drop_first(), ..s }, y),
{
    let d = s.dirs[0];
    let s2 = WalkerModel { dirs: s.dirs.drop_first(), ..s };
    let t = y + s.files;
    let t2 = y + s2.files;
    assert(t2 =~= t);
    assert forall|f: PathModel| #[trigger] file_reachable(fs, c, f) implies t2.contains(f) || covered(
        s2.dirs,
        f,
    ) by {
        if !t.contains(f) {
            let i = choose|i: int| 0 <= i < s.dirs.len() && is_prefix_of(s.dirs[i], f);
            if i > 0 {
                assert(s2.dirs[i - 1] == s.dirs[i]);
            } else {
                lemma_cover_split(fs, c, d, f);
            }
        }
    }
    assert forall|i: int| 0 <= i < s2.dirs.len() implies dir_reachable(fs, c, #[trigger] s2.dirs[i]) by {
        assert(s2.dirs[i] == s.dirs[i + 1]);
    }
    assert forall|i: int, j: int| 0 <= i < t2.len() && 0 <= j < s2.dirs.len() implies !is_prefix_of(
        #[trigger] s2.dirs[j],
        #[trigger] t2[i],
    ) by {
        assert(s2.dirs[j] == s.dirs[j + 1]);
        assert(t2[i] == t[i]);
    }
    assert forall|i: int, j: int|
        0 <= i < s2.dirs.len() && 0 <= j < s2.dirs.len() && i != j implies !is_prefix_of(
        #[trigger] s2.dirs[i],
        #[trigger] s2.dirs[j],
    ) by {
        assert(s2.dirs[i] == s.dirs[i + 1] && s2.dirs[j] == s.dirs[j + 1]);
    }
}

/// One driver step keeps the walk invariant.
proof fn lemma_step_inv(fs: FsModel, c: WalkerModel, s: WalkerModel, y: Seq<PathModel>)
    requires
        fs_wf(fs),
        model_wf(c),
        !c.follow_symlinks,
        walk_inv(fs, c, s, y),
    ensures
        walk_inv(fs, c, walk_step(s, fs).0, y + walk_step(s, fs).1),
{
    let (s2, out) = walk_step(s, fs);
    if s.files.len() > 0 {
        assert((y + out) + s2.files =~= y + s.files);
        assert(s2.dirs == s.dirs);
    } else if s.dirs.len() > 0 {
        assert(y + out =~= y);
        if fs.contains_key(s.dirs[0]) {
            lemma_expand_listed(fs, c, s, y);
        } else {
            lemma_expand_unlisted(fs, c, s, y);
        }
    } else {
        assert(y + out =~= y);
    }
}

/// Any number of driver steps keeps the walk invariant.
proof fn lemma_walk_inv(fs: FsModel, c: WalkerModel, s: WalkerModel, y: Seq<PathModel>, n: nat)
    requires
        fs_wf(fs),
        model_wf(c),
        !c.follow_symlinks,
        walk_inv(fs, c, s, y),
    ensures
        walk_inv(fs, c, walk(s, fs, n).0, y + walk(s, fs, n).1),
    decreases n,
{
    if n > 0 {
        let (t, out) = walk_step(s, fs);
        lemma_step_inv(fs, c, s, y);
        lemma_walk_inv(fs, c, t, y + out, (n - 1) as nat);
        let (u, rest) = walk(t, fs, (n - 1) as nat);
        assert((y + out) + rest =~= y + (out + rest));
    } else {
        assert(y + Seq::<PathModel>::empty() =~= y);
    }
}

/// A fresh walker, of any configuration that follows no symlinks, starts
/// with the walk invariant.
proof fn lemma_fresh_inv(fs: FsModel, c: WalkerModel)
    requires
        c == fresh(c.origin, c.ignore, c.max_depth, c.follow_symlinks),
    ensures
        walk_inv(fs, c, c, Seq::empty()),
{
    let o = c.origin;
    let t = Seq::<PathModel>::empty() + c.files;
    assert(t =~= Seq::<PathModel>::empty());
    assert(o.subrange(0, o.len() as int) =~= o);
    assert(dir_reachable(fs, c, c.dirs[0]));
    assert forall|f: PathModel| #[trigger] file_reachable(fs, c, f) implies t.contains(f) || covered(
        c.dirs,
        f,
    ) by {
        assert(f.subrange(0, f.drop_last().len() as int) =~= f.drop_last());
        crate::walker::lemma_prefix_trans(o, f.drop_last(), f);
        assert(is_prefix_of(c.dirs[0], f));
    }
}

/// For any configuration that follows no symlinks: where a walk from a fresh
/// walker ends exhausted, it has yielded exactly the files the configuration
/// reaches, each once.
pub proof fn lemma_walk_complete(fs: FsModel, c: WalkerModel, n: nat)
    requires
        fs_wf(fs),
        model_wf(c),
        !c.follow_symlinks,
        c == fresh(c.origin, c.ignore, c.max_depth, c.follow_symlinks),
        exhausted(walk(c, fs, n).0),
    ensures
        walk(c, fs, n).1.no_duplicates(),
        forall|f: PathModel| #[trigger] walk(c, fs, n).1.contains(f) <==> file_reachable(fs, c, f),
{
    lemma_fresh_inv(fs, c);
    lemma_walk_inv(fs, c, c, Seq::empty(), n);
    let (s, out) = walk(c, fs, n);
    let y = Seq::<PathModel>::empty() + out;
    assert(y =~= out);
    assert(y + s.files =~= out);
    assert forall|f: PathModel| #[trigger] out.contains(f) <==> file_reachable(fs, c, f) by {
        if out.contains(f) {
            let i = choose|i: int| 0 <= i < out.len() && out[i] == f;
            assert((y + s.files)[i] == f);
        }
        if file_reachable(fs, c, f) {
            assert((y + s.files).contains(f) || covered(s.dirs, f));
        }
    }
}

/// Without depth limit or boundaries, a file is reached exactly when it is a
/// regular file reachable through plain directories.
proof fn lemma_reachable_unlimited(fs: FsModel, root: PathModel, f: PathModel)
    ensures
        file_reachable(fs, initial_model(root), f) <==> reachable_file(fs, root, f),
{
    let c = initial_model(root);
    let p = f.drop_last();
    if file_reachable(fs, c, f) {
        assert(f.subrange(0, p.len() as int) =~= p);
        crate::walker::lemma_prefix_trans(root, p, f);
        assert forall|k: int| root.len() <= k < f.len() - 1 implies {
            &&& fs.contains_key(#[trigger] f.subrange(0, k))
            &&& has_entry(fs[f.subrange(0, k)], f[k], EntryKind::Directory)
        } by {
            assert(descends(fs, c, p.subrange(0, k), p[k]));
            assert(p.subrange(0, k) =~= f.subrange(0, k));
        }
    }
    if reachable_file(fs, root, f) {
        assert(p.subrange(0, root.len() as int) =~= root);
        assert forall|k: int| root.len() <= k < p.len() implies #[trigger] descends(
            fs,
            c,
            p.subrange(0, k),
            p[k],
        ) by {
            assert(p.subrange(0, k) =~= f.subrange(0, k));
            assert(fs.contains_key(f.subrange(0, k)));
        }
    }
}

/// A walker over `root` with no depth limit that follows no symlinks, driven
/// over a finite filesystem, is exhausted after some number `n` of steps, and
/// by then has yielded exactly the regular files reachable from `root`
/// through plain directories, with no duplicates.
pub proof fn lemma_walk_finds_reachable(fs: FsModel, root: PathModel) -> (n: nat)
    requires
        fs_wf(fs),
        fs.dom().finite(),
    ensures
        exhausted(walk(initial_model(root), fs, n).0),
        walk(initial_model(root), fs, n).1.no_duplicates(),
        forall|f: PathModel| #[trigger] walk(initial_model(root), fs, n).1.contains(f) <==> reachable_file(fs, root, f),
{
    let c = initial_model(root);
    assert(c == fresh(c.origin, c.ignore, c.max_depth, c.follow_symlinks));
    assert(root.subrange(0, root.len() as int) =~= root);
    let n = lemma_walk_terminates(fs, c);
    lemma_walk_complete(fs, c, n);
    assert forall|f: PathModel| #[trigger] walk(c, fs, n).1.contains(f) <==> reachable_file(fs, root, f) by {
        lemma_reachable_unlimited(fs, root, f);
    }
    n
}

/// A walker over `root` limited to depth 0 that follows no symlinks, driven
/// over a finite filesystem, is exhausted after some number `n` of steps, and
/// by then has yielded exactly the regular files listed directly in `root`,
/// and none from any subdirectory.
pub proof fn lemma_depth_zero_finds_root_files(fs: FsModel, root: PathModel) -> (n: nat)
    requires
        fs_wf(fs),
        fs.dom().finite(),
    ensures
        exhausted(walk(fresh(root, Seq::empty(), Some(0u32), false), fs, n).0),
        walk(fresh(root, Seq::empty(), Some(0u32), false), fs, n).1.no_duplicates(),
        forall|f: PathModel| #[trigger] walk(fresh(root, Seq::empty(), Some(0u32), false), fs, n).1.contains(f)
            <==> file_in_root(fs, root, f),
{
    let c = fresh(root, Seq::empty(), Some(0u32), false);
    assert(root.subrange(0, root.len() as int) =~= root);
    let n = lemma_walk_terminates(fs, c);
    lemma_walk_complete(fs, c, n);
    assert forall|f: PathModel| #[trigger] walk(c, fs, n).1.contains(f) <==> file_in_root(fs, root, f) by {
        if file_reachable(fs, c, f) {
            let p = f.drop_last();
            if p.len() > root.len() {
                let k = root.len() as int;
                assert(descends(fs, c, p.subrange(0, k), p[k]));
                assert(p.subrange(0, k) =~= root);
            }
            assert(p =~= root);
        }
    }
    n
}

/// Along a walk from a fresh walker: it is still that walker with nothing
/// yielded, or every pending directory lies strictly beneath the origin.
spec fn left_origin(c: WalkerModel, s: WalkerModel, out: Seq<PathModel>) -> bool {
    ||| (out.len() == 0 && s == c)
    ||| (s.origin == c.origin && forall|i: int| 0 <= i < s.dirs.len() ==> #[trigger] s.dirs[i].len() > c.origin.len())
}

/// The directories an expansion of `d` queues are one component longer than `d`.
proof fn lemma_expand_lengths(s: WalkerModel, d: PathModel, clen: nat, es: Seq<Entry>)
    ensures
        forall|i: int|
            s.dirs.len() <= i < expand_model(s, d, clen, es).dirs.len() ==> #[trigger] expand_model(
                s,
                d,
                clen,
                es,
            ).dirs[i].len() == d.len() + 1,
        forall|i: int| 0 <= i < s.dirs.len() ==> #[trigger] expand_model(s, d, clen, es).dirs[i] == s.dirs[i],
{
    let d0 = found(d, es, s.follow_symlinks, false);
    let dd = outside_boundaries(d0, s.ignore);
    crate::walker::lemma_found_children(d, es, s.follow_symlinks, false);
    lemma_outside_members(d0, s.ignore);
    assert forall|j: int| 0 <= j < dd.len() implies #[trigger] dd[j].len() == d.len() + 1 by {
        assert(dd.contains(dd[j]));
        let k = choose|k: int| 0 <= k < d0.len() && d0[k] == dd[j];
    }
}

/// One driver step keeps `left_origin`.
proof fn lemma_step_left_origin(fs: FsModel, c: WalkerModel, s: WalkerModel, out: Seq<PathModel>)
    requires
        c == fresh(c.origin, c.ignore, c.max_depth, c.follow_symlinks),
        left_origin(c, s, out),
    ensures
        left_origin(c, walk_step(s, fs).0, out + walk_step(s, fs).1),
{
    let (s2, o2) = walk_step(s, fs);
    if s == c && out.len() == 0 {
        let d = c.origin;
        let t = WalkerModel { dirs: c.dirs.drop_first(), ..c };
        assert(t.dirs.len() == 0);
        if fs.contains_key(d) {
            lemma_expand_lengths(t, d, d.len(), fs[d]);
        }
    } else {
        if s.files.len() == 0 && s.dirs.len() > 0 {
            let d = s.dirs[0];
            let t = WalkerModel { dirs: s.dirs.drop_first(), ..s };
            assert forall|i: int| 0 <= i < t.dirs.len() implies #[trigger] t.dirs[i].len() > c.origin.len() by {
                assert(t.dirs[i] == s.dirs[i + 1]);
            }
            if fs.contains_key(d) {
                lemma_expand_lengths(t, d, d.len(), fs[d]);
            }
        }
    }
}

/// Any number of driver steps keeps `left_origin`.
proof fn lemma_walk_left_origin(fs: FsModel, c: WalkerModel, s: WalkerModel, out: Seq<PathModel>, n: nat)
    requires
        c == fresh(c.origin, c.ignore, c.max_depth, c.follow_symlinks),
        left_origin(c, s, out),
    ensures
        left_origin(c, walk(s, fs, n).0, out + walk(s, fs, n).1),
    decreases n,
{
    if n > 0 {
        let (t, o) = walk_step(s, fs);
        lemma_step_left_origin(fs, c, s, out);
        lemma_walk_left_origin(fs, c, t, out + o, (n - 1) as nat);
        let (u, rest) = walk(t, fs, (n - 1) as nat);
        assert((out + o) + rest =~= out + (o + rest));
    } else {
        assert(out + Seq::<PathModel>::empty() =~= out);
    }
}

/// Two walkers created from the same report on the same root are equal, and
/// so are the errors where there is no walker.
pub proof fn lemma_created_alike(
    status: RootStatus,
    r1: Result<Walker, WalkError>,
    r2: Result<Walker, WalkError>,
)
    requires
        created(status, r1),
        created(status, r2),
    ensures
        match (r1, r2) {
            (Ok(a), Ok(b)) => a@ == b@,
            (Err(e1), Err(e2)) => e1 == e2,
            _ => false,
        },
{
}

/// Two fresh walkers made alike are equal; once a driver has drawn a file
/// from one, it differs from the other.
pub proof fn lemma_drained_differs(fs: FsModel, c: WalkerModel, other: WalkerModel, n: nat)
    requires
        c == fresh(c.origin, c.ignore, c.max_depth, c.follow_symlinks),
        other == fresh(c.origin, c.ignore, c.max_depth, c.follow_symlinks),
        walk(c, fs, n).1.len() > 0,
    ensures
        c == other,
        walk(c, fs, n).0 != other,
{
    lemma_walk_left_origin(fs, c, c, Seq::empty(), n);
    let (s, out) = walk(c, fs, n);
    assert(Seq::<PathModel>::empty() + out =~= out);
    if s == c {
        assert(s.dirs[0].len() > c.origin.len());
    }
}

/// `b` to the power `e`.
spec fn power(b: nat, e: nat) -> nat
    decreases e,
{
    if e == 0 {
        1
    } else {
        b * power(b, (e - 1) as nat)
    }
}

proof fn lemma_power_positive(b: nat, e: nat)
    requires
        b >= 1,
    ensures
        power(b, e) >= 1,
    decreases e,
{
    if e > 0 {
        lemma_power_positive(b, (e - 1) as nat);
        assert(b * power(b, (e - 1) as nat) >= power(b, (e - 1) as nat)) by (nonlinear_arith)
            requires
                b >= 1,
        ;
    }
}

/// The weight of pending directories: `base` to the power of the room each
/// has below the length bound `bound`.
spec fn dir_weight(dirs: Seq<PathModel>, bound: nat, base: nat) -> nat
    decreases dirs.len(),
{
    if dirs.len() == 0 {
        0
    } else {
        dir_weight(dirs.drop_last(), bound, base) + power(base, (bound - dirs.last().len()) as nat)
    }
}

proof fn lemma_weight_concat(a: Seq<PathModel>, b: Seq<PathModel>, bound: nat, base: nat)
    ensures
        dir_weight(a + b, bound, base) == dir_weight(a, bound, base) + dir_weight(b, bound, base),
    decreases b.len(),
{
    if b.len() == 0 {
        assert(a + b =~= a);
    } else {
        lemma_weight_concat(a, b.drop_last(), bound, base);
        assert((a + b).drop_last() =~= a + b.drop_last());
    }
}

/// Directories all of length `len` weigh their number times the weight of one.
proof fn lemma_weight_children(ds: Seq<PathModel>, len: nat, bound: nat, base: nat)
    requires
        forall|i: int| 0 <= i < ds.len() ==> #[trigger] ds[i].len() == len,
    ensures
        dir_weight(ds, bound, base) == ds.len() * power(base, (bound - len) as nat),
    decreases ds.len(),
{
    if ds.len() > 0 {
        lemma_weight_children(ds.drop_last(), len, bound, base);
        assert(ds.last() == ds[ds.len() - 1]);
        let w = power(base, (bound - len) as nat);
        assert((ds.len() - 1) * w + w == ds.len() * w) by (nonlinear_arith);
    }
}

/// A found sequence is no longer than the listing.
proof fn lemma_found_len(dir: PathModel, es: Seq<Entry>, follow: bool, want: bool)
    ensures
        found(dir, es, follow, want).len() <= es.len(),
    decreases es.len(),
{
    if es.len() > 0 {
        lemma_found_len(dir, es.drop_last(), follow, want);
    }
}

/// A finite filesystem has a bound on the lengths of its directories and on
/// the sizes of its listings.
proof fn lemma_finite_bounds(fs: FsModel) -> (r: (nat, nat))
    requires
        fs.dom().finite(),
    ensures
        forall|k: PathModel| #[trigger] fs.contains_key(k) ==> k.len() < r.0 && fs[k].len() <= r.1,
    decreases fs.dom().len(),
{
    if fs.dom().len() == 0 {
        assert forall|k: PathModel| #[trigger] fs.contains_key(k) implies k.len() < 0nat && fs[k].len() <= 0nat by {
            assert(fs.dom().contains(k));
        }
        (0, 0)
    } else {
        let k0 = fs.dom().choose();
        let rest = fs.remove(k0);
        assert(rest.dom() =~= fs.dom().remove(k0));
        let (l, m) = lemma_finite_bounds(rest);
        let l2: nat = if k0.len() + 1 > l { k0.len() + 1 } else { l };
        let m2: nat = if fs[k0].len() > m { fs[k0].len() } else { m };
        assert forall|k: PathModel| #[trigger] fs.contains_key(k) implies k.len() < l2 && fs[k].len() <= m2 by {
            if k != k0 {
                assert(rest.contains_key(k));
            }
        }
        (l2, m2)
    }
}

/// A walk from a fresh walker over a finite filesystem comes to an end: within
/// some number of steps, nothing is left to hand out or to list.
pub proof fn lemma_walk_terminates(fs: FsModel, c: WalkerModel) -> (n: nat)
    requires
        fs.dom().finite(),
        c == fresh(c.origin, c.ignore, c.max_depth, c.follow_symlinks),
    ensures
        exhausted(walk(c, fs, n).0),
{
    let (l, m) = lemma_finite_bounds(fs);
    let bound: nat = if c.origin.len() > l { c.origin.len() } else { l };
    lemma_walk_ends(fs, c, bound, m + 1)
}

/// From a state whose pending directories are no longer than `bound`, a walk
/// over `fs` whose directories are shorter than `bound` and whose listings are
/// shorter than `base` comes to an end.
proof fn lemma_walk_ends(fs: FsModel, s: WalkerModel, bound: nat, base: nat) -> (n: nat)
    requires
        base >= 1,
        forall|k: PathModel| #[trigger] fs.contains_key(k) ==> k.len() < bound && fs[k].len() < base,
        forall|i: int| 0 <= i < s.dirs.len() ==> #[trigger] s.dirs[i].len() <= bound,
    ensures
        exhausted(walk(s, fs, n).0),
    decreases dir_weight(s.dirs, bound, base), s.files.len(),
{
    if exhausted(s) {
        0
    } else {
        let (t, out) = walk_step(s, fs);
        if s.files.len() > 0 {
            assert(t.dirs == s.dirs);
        } else {
            let d = s.dirs[0];
            let r = s.dirs.drop_first();
            assert(seq![d] + r =~= s.dirs);
            lemma_weight_concat(seq![d], r, bound, base);
            assert(seq![d].drop_last() =~= Seq::<PathModel>::empty());
            assert(dir_weight(Seq::<PathModel>::empty(), bound, base) == 0);
            assert(seq![d].last() == d);
            let wd = power(base, (bound - d.len()) as nat);
            assert(dir_weight(seq![d], bound, base) == wd);
            lemma_power_positive(base, (bound - d.len()) as nat);
            if fs.contains_key(d) {
                let t0 = WalkerModel { dirs: r, ..s };
                let es = fs[d];
                let d0 = found(d, es, s.follow_symlinks, false);
                let dd = if at_max_depth_model(t0, d.len()) { Seq::<PathModel>::empty() } else { outside_boundaries(d0, s.ignore) };
                assert(t.dirs =~= r + dd);
                lemma_weight_concat(r, dd, bound, base);
                crate::walker::lemma_found_children(d, es, s.follow_symlinks, false);
                lemma_outside_members(d0, s.ignore);
                lemma_found_len(d, es, s.follow_symlinks, false);
                assert forall|j: int| 0 <= j < dd.len() implies #[trigger] dd[j].len() == d.len() + 1 by {
                    assert(dd.contains(dd[j]));
                    let k = choose|k: int| 0 <= k < d0.len() && d0[k] == dd[j];
                }
                lemma_weight_children(dd, d.len() + 1, bound, base);
                let e: nat = (bound - d.len() - 1) as nat;
                assert(wd == base * power(base, e));
                lemma_power_positive(base, e);
                assert(dd.len() <= d0.len()) by {
                    if !at_max_depth_model(t0, d.len()) {
                        let pred = |x: PathModel| !s.ignore.contains(x);
                        d0.lemma_filter_len(pred);
                    }
                }
                assert(dd.len() * power(base, e) < base * power(base, e)) by (nonlinear_arith)
                    requires
                        dd.len() < base,
                        power(base, e) >= 1,
                ;
                assert forall|i: int| 0 <= i < t.dirs.len() implies #[trigger] t.dirs[i].len() <= bound by {
                    if i < r.len() {
                        assert(t.dirs[i] == s.dirs[i + 1]);
                    } else {
                        assert(t.dirs[i] == dd[i - r.len()]);
                    }
                }
            } else {
                assert(t.dirs =~= r);
                assert forall|i: int| 0 <= i < t.dirs.len() implies #[trigger] t.dirs[i].len() <= bound by {
                    assert(t.dirs[i] == s.dirs[i + 1]);
                }
            }
        }
        let n = lemma_walk_ends(fs, t, bound, base);
        n + 1
    }
}

} // verus!
