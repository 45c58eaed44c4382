use fwalker::{Entry, EntryKind, FileError, FsPath, Listing, RootStatus, Step, WalkError, Walker};
use std::cmp::Ordering;

const TEST_DIR: &str = "/work/test_dirs";

/// The test tree, as the listings of its directories:
///
/// ```text
/// file0
/// dir0/
/// ├── file1
/// ├── file2
/// ├── empty_dir/
/// ├── .hidden_dir/
/// │   └── file3
/// └── .hidden_file
/// ```
fn tree() -> Vec<(FsPath, Vec<Entry>)> {
    vec![
        (
            FsPath::parse(TEST_DIR),
            vec![entry("file0", EntryKind::File), entry("dir0", EntryKind::Directory)],
        ),
        (
            FsPath::parse("/work/test_dirs/dir0"),
            vec![
                entry("file1", EntryKind::File),
                entry("file2", EntryKind::File),
                entry("empty_dir", EntryKind::Directory),
                entry(".hidden_dir", EntryKind::Directory),
                entry(".hidden_file", EntryKind::File),
            ],
        ),
        (FsPath::parse("/work/test_dirs/dir0/empty_dir"), vec![]),
        (
            FsPath::parse("/work/test_dirs/dir0/.hidden_dir"),
            vec![entry("file3", EntryKind::File)],
        ),
    ]
}

fn entry(name: &str, kind: EntryKind) -> Entry {
    Entry { name: name.to_string(), kind }
}

/// What the tree says of a path: a directory of it, a file of it, or nothing.
fn status(path: &str) -> RootStatus {
    let p = FsPath::parse(path);
    if tree().iter().any(|(d, _)| *d == p) {
        RootStatus::Directory(p)
    } else if path == "src/lib.rs" {
        RootStatus::NotADirectory
    } else {
        RootStatus::Missing
    }
}

fn listing(dir: &FsPath) -> Result<Listing, FileError> {
    match tree().into_iter().find(|(d, _)| d == dir) {
        Some((_, entries)) => Ok(Listing { canonical_len: dir.len(), entries }),
        None => Err(FileError { path: dir.clone(), message: "cannot list".to_string() }),
    }
}

/// Drives the walker over the test tree until it yields a file or is exhausted.
fn next_file(walker: &mut Walker) -> Option<FsPath> {
    loop {
        match walker.next() {
            Step::File(f) => return Some(f),
            Step::Expand(d) => {
                let l = listing(&d);
                walker.push(&d, l);
            }
            Step::Done => return None,
        }
    }
}

fn drain(mut walker: Walker) -> Vec<FsPath> {
    let mut found = Vec::new();
    while let Some(f) = next_file(&mut walker) {
        found.push(f);
    }
    found
}

fn from(path: &str) -> Walker {
    Walker::from(status(path)).unwrap()
}

#[test]
fn test_depth_only_root_dir() {
    let found = drain(from(TEST_DIR).max_depth(0)).len();
    assert_eq!(1, found);
}

#[test]
fn test_depth_one() {
    let found = drain(from(TEST_DIR).max_depth(1)).len();
    assert_eq!(4, found);
}

#[test]
fn test_find_all() {
    let found = drain(from(TEST_DIR)).len();
    assert_eq!(5, found);
}

#[test]
fn test_reset() {
    let mut walker = from(TEST_DIR);
    let file0: FsPath = next_file(&mut walker).unwrap();
    walker.reset();
    let file1: FsPath = next_file(&mut walker).unwrap();
    assert_eq!(file0, file1);
}

#[test]
fn test_path_not_found() {
    match Walker::from(status("/dev/null/foo")) {
        Err(error) => assert_eq!(WalkError::NotFound, error),
        _ => panic!(),
    }
}

#[test]
fn test_path_not_a_dir() {
    match Walker::from(status("src/lib.rs")) {
        Err(error) => assert_eq!(WalkError::NotADirectory, error),
        _ => panic!(),
    }
}

#[test]
fn test_equals() {
    let walker0 = Walker::from_with_capacity(status(TEST_DIR), 4).unwrap();
    let walker1 = Walker::from(status(TEST_DIR)).unwrap();
    assert_eq!(walker0, walker1)
}

#[test]
fn test_not_equals_different_origin() {
    let other_dir: String = format!("{}/dir0", TEST_DIR);
    let walker0 = from(TEST_DIR);
    let walker1 = from(&other_dir);
    assert_ne!(walker0, walker1)
}

#[test]
fn test_not_equals_different_state() {
    let walker0 = from(TEST_DIR);
    let mut walker1 = from(TEST_DIR);
    next_file(&mut walker1);
    assert_ne!(walker0, walker1)
}

#[test]
fn test_not_equals_different_settings() {
    let walker0: Walker = from(TEST_DIR).max_depth(1);
    let walker1: Walker = from(TEST_DIR).follow_symlinks();
    assert_ne!(walker0, walker1)
}

#[test]
fn test_default() {
    let walker0: Walker = Walker::new(status(TEST_DIR)).unwrap();
    let walker1: Walker = Walker::with_capacity(status(TEST_DIR), 16).unwrap();
    assert_eq!(walker0, walker1);
    assert_eq!(walker0, from(TEST_DIR));
}

#[test]
fn test_ordering_less_than() {
    let mut walker0 = from(TEST_DIR);
    let walker1 = from(TEST_DIR);
    next_file(&mut walker0);
    next_file(&mut walker0);
    assert!(walker0 < walker1)
}

#[test]
fn test_ordering_greater_than() {
    let walker0 = from(TEST_DIR);
    let mut walker1 = from(TEST_DIR);
    next_file(&mut walker1);
    next_file(&mut walker1);
    assert!(walker0 > walker1)
}

#[test]
fn test_ordering_equal() {
    let walker0 = from(TEST_DIR);
    let walker1 = from(TEST_DIR);
    assert_eq!(walker0.depth_cmp(&walker1), Ordering::Equal);
    let parts0 = drain(walker0).into_iter().map(|p| p.parts);
    let parts1 = drain(walker1).into_iter().map(|p| p.parts);
    assert_eq!(parts0.cmp(parts1), Ordering::Equal)
}

#[test]
fn yields_each_file_of_the_tree_once() {
    let mut found: Vec<String> = drain(from(TEST_DIR))
        .iter()
        .map(|p| p.parts.join("/"))
        .collect();
    found.sort();
    let expected = vec![
        "//work/test_dirs/dir0/.hidden_dir/file3",
        "//work/test_dirs/dir0/.hidden_file",
        "//work/test_dirs/dir0/file1",
        "//work/test_dirs/dir0/file2",
        "//work/test_dirs/file0",
    ];
    assert_eq!(expected, found);
}

#[test]
fn yields_breadth_first_in_listing_order() {
    let found = drain(from(TEST_DIR));
    let expected = vec![
        FsPath::parse("/work/test_dirs/file0"),
        FsPath::parse("/work/test_dirs/dir0/file1"),
        FsPath::parse("/work/test_dirs/dir0/file2"),
        FsPath::parse("/work/test_dirs/dir0/.hidden_file"),
        FsPath::parse("/work/test_dirs/dir0/.hidden_dir/file3"),
    ];
    assert_eq!(expected, found);
}

#[test]
fn depth_zero_yields_only_root_files() {
    let found = drain(from(TEST_DIR).max_depth(0));
    assert_eq!(vec![FsPath::parse("/work/test_dirs/file0")], found);
}

#[test]
fn reset_after_draining_yields_the_same_files() {
    let mut walker = from(TEST_DIR).max_depth(1);
    let first = drain(walker.clone());
    while next_file(&mut walker).is_some() {}
    assert_eq!(None, next_file(&mut walker));
    walker.reset();
    assert_eq!(walker, from(TEST_DIR).max_depth(1));
    assert_eq!(first, drain(walker));
}

#[test]
fn exhausted_walker_stays_exhausted() {
    let mut walker = from("/work/test_dirs/dir0/empty_dir");
    assert_eq!(None, next_file(&mut walker));
    assert_eq!(None, next_file(&mut walker));
}

#[test]
fn failed_listing_is_skipped() {
    let mut walker = from(TEST_DIR);
    match walker.next() {
        Step::Expand(d) => {
            walker.push(&d, Err(FileError { path: d.clone(), message: "denied".to_string() }))
        }
        _ => panic!(),
    }
    assert!(matches!(walker.next(), Step::Done));
}

#[test]
fn boundaries_are_not_entered() {
    let mounts = vec![FsPath::parse("/"), FsPath::parse("/work/test_dirs/dir0/.hidden_dir")];
    let found = drain(from(TEST_DIR).only_local_fs(&mounts));
    assert_eq!(4, found.len());
    assert!(!found.contains(&FsPath::parse("/work/test_dirs/dir0/.hidden_dir/file3")));
}

#[test]
fn root_mount_is_no_boundary() {
    let mounts = vec![FsPath::parse(TEST_DIR)];
    assert_eq!(5, drain(from(TEST_DIR).only_local_fs(&mounts)).len());
}

#[test]
fn current_depth_of_front() {
    let mut walker = from(TEST_DIR);
    assert_eq!(Some(0), walker.current_depth());
    next_file(&mut walker);
    next_file(&mut walker);
    assert_eq!(Some(2), walker.current_depth());
    while next_file(&mut walker).is_some() {}
    assert_eq!(None, walker.current_depth());
    assert_eq!(Ordering::Greater, walker.depth_cmp(&from(TEST_DIR)));
}

#[test]
fn listing_depth_comes_from_the_canonical_path() {
    // the listing of dir0 reports a canonical path four components below the
    // origin, past the limit of 3, so none of its subdirectories is queued
    let mut walker = from(TEST_DIR).max_depth(3);
    next_file(&mut walker);
    match walker.next() {
        Step::Expand(d) => {
            let entries = listing(&d).unwrap().entries;
            walker.push(&d, Ok(Listing { canonical_len: d.len() + 3, entries }));
        }
        _ => panic!(),
    }
    assert_eq!(3, drain(walker).len());
}
