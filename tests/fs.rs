use fwalker::{
    Entry, EntryKind, FsPath, contains_path, filter_boundaries, fs_boundaries, is_valid_target_kind,
    partition_entries,
};

fn paths(list: &[&str]) -> Vec<FsPath> {
    list.iter().map(|s| FsPath::parse(s)).collect()
}

fn mounts() -> Vec<FsPath> {
    paths(&[
        "/proc",
        "/sys",
        "/sys/firmware/efi/efivars",
        "/dev",
        "/run",
        "/",
        "/tmp",
        "/home",
        "/boot",
        "/sys/kernel/security",
        "/sys/fs/cgroup/memory",
        "/sys/fs/cgroup/cpu,cpuacct",
        "/sys/fs/cgroup/freezer",
    ])
}

#[test]
fn test_fs_boundaries_no_boundary() {
    let filesystems: Vec<FsPath> = mounts();
    let path: FsPath = FsPath::parse("/home/user");
    let boundaries: Vec<FsPath> = fs_boundaries(&filesystems, &path);
    assert_eq!(true, boundaries.is_empty())
}

#[test]
fn test_fs_boundaries_single_boundary() {
    let filesystems: Vec<FsPath> = mounts();
    let path = FsPath::parse("/sys/kernel");
    let boundaries: Vec<FsPath> = fs_boundaries(&filesystems, &path);
    let expected = vec![FsPath::parse("/sys/kernel/security")];
    assert_eq!(expected, boundaries)
}

#[test]
fn test_fs_boundaries_do_not_include_file_system_in_boundaries() {
    let filesystems: Vec<FsPath> = mounts();
    let path = FsPath::parse("/");
    let boundaries: Vec<FsPath> = fs_boundaries(&filesystems, &path);
    let expected: Vec<FsPath> = paths(&[
        "/proc",
        "/sys",
        "/sys/firmware/efi/efivars",
        "/dev",
        "/run",
        "/tmp",
        "/home",
        "/boot",
        "/sys/kernel/security",
        "/sys/fs/cgroup/memory",
        "/sys/fs/cgroup/cpu,cpuacct",
        "/sys/fs/cgroup/freezer",
    ]);
    assert_eq!(expected, boundaries)
}

#[test]
fn test_fs_boundaries_multiple_boundaries() {
    let filesystems: Vec<FsPath> = mounts();
    let path: FsPath = FsPath::parse("/sys/fs");
    let boundaries: Vec<FsPath> = fs_boundaries(&filesystems, &path);
    let expected = vec![
        FsPath::parse("/sys/fs/cgroup/memory"),
        FsPath::parse("/sys/fs/cgroup/cpu,cpuacct"),
        FsPath::parse("/sys/fs/cgroup/freezer"),
    ];
    assert_eq!(expected, boundaries)
}

#[test]
fn boundaries_beneath_sys() {
    let filesystems = paths(&["/", "/proc", "/sys", "/sys/fs/cgroup/memory"]);
    let boundaries = fs_boundaries(&filesystems, &FsPath::parse("/sys"));
    assert_eq!(vec![FsPath::parse("/sys/fs/cgroup/memory")], boundaries);
}

#[test]
fn boundaries_compare_whole_components() {
    let filesystems = paths(&["/sysroot", "/sys/", "/sys//a", "/sys/./b"]);
    let boundaries = fs_boundaries(&filesystems, &FsPath::parse("/sys"));
    assert_eq!(paths(&["/sys/a", "/sys/b"]), boundaries);
}

#[test]
fn parse_splits_into_components() {
    let p = FsPath::parse("/sys/fs//cgroup/");
    assert_eq!(vec!["/".to_string(), "sys".to_string(), "fs".to_string(), "cgroup".to_string()], p.parts);
    assert_eq!(4, p.len());
    let r = FsPath::parse("test_dirs/dir0");
    assert_eq!(vec!["test_dirs".to_string(), "dir0".to_string()], r.parts);
    assert_eq!(0, FsPath::parse("").len());
}

#[test]
fn join_adds_one_component() {
    let p = FsPath::parse("/a/b").join(&"c".to_string());
    assert_eq!(FsPath::parse("/a/b/c"), p);
    assert!(p.starts_with(&FsPath::parse("/a")));
    assert!(!FsPath::parse("/ab").starts_with(&FsPath::parse("/a")));
    assert!(p.same_as(&FsPath::parse("/a/b/c/")));
    assert!(!p.same_as(&FsPath::parse("/a/b")));
}

#[test]
fn filter_boundaries_drops_boundaries_only() {
    let dirs = paths(&["/a/x", "/a/y", "/a/z"]);
    let kept = filter_boundaries(dirs, &paths(&["/a/y", "/b"]));
    assert_eq!(paths(&["/a/x", "/a/z"]), kept);
    assert!(contains_path(&paths(&["/a", "/b"]), &FsPath::parse("/b/")));
    assert!(!contains_path(&paths(&["/a", "/b"]), &FsPath::parse("/c")));
}

fn entries() -> Vec<Entry> {
    vec![
        Entry { name: "f".to_string(), kind: EntryKind::File },
        Entry { name: "d".to_string(), kind: EntryKind::Directory },
        Entry { name: "lf".to_string(), kind: EntryKind::SymlinkToFile },
        Entry { name: "ld".to_string(), kind: EntryKind::SymlinkToDirectory },
        Entry { name: "broken".to_string(), kind: EntryKind::OtherSymlink },
        Entry { name: "fifo".to_string(), kind: EntryKind::Other },
    ]
}

#[test]
fn classification_without_symlinks() {
    let (files, dirs) = partition_entries(&FsPath::parse("/r"), &entries(), false);
    assert_eq!(paths(&["/r/f"]), files);
    assert_eq!(paths(&["/r/d"]), dirs);
}

#[test]
fn classification_following_symlinks() {
    let (files, dirs) = partition_entries(&FsPath::parse("/r"), &entries(), true);
    assert_eq!(paths(&["/r/f", "/r/lf"]), files);
    assert_eq!(paths(&["/r/d", "/r/ld"]), dirs);
}

#[test]
fn valid_targets() {
    assert!(is_valid_target_kind(EntryKind::File, false));
    assert!(is_valid_target_kind(EntryKind::Directory, false));
    assert!(!is_valid_target_kind(EntryKind::SymlinkToFile, false));
    assert!(is_valid_target_kind(EntryKind::SymlinkToDirectory, true));
    assert!(!is_valid_target_kind(EntryKind::OtherSymlink, true));
    assert!(!is_valid_target_kind(EntryKind::Other, true));
}
