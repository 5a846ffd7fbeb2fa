use std::collections::HashSet;
use zfs_dedup::table::{FilePath, PathTable};
use zfs_dedup::walk::{
    cloneable_pools, inode_key, is_zfs_type, survey, visit, zfs_mountpoints, Entry, Kind, Paths,
    Visit,
};

fn bytes(list: &[&str]) -> Vec<Vec<u8>> {
    list.iter().map(|s| s.as_bytes().to_vec()).collect()
}

#[test]
fn mounts_include_legacy_and_skip_binds_and_foreign() {
    let mountinfo = "\
39 1 0:33 / / rw,noatime shared:1 - zfs zroot/root/nixos rw,xattr,posixacl
54 39 0:33 /nix/store /nix/store ro,nosuid,nodev shared:17 - zfs zroot/root/nixos rw,xattr
60 39 0:40 / /var/lib/docker/zfs/graph/abc rw,relatime - zfs zroot/docker/abc rw,xattr
61 39 0:41 / /zroot rw,noatime - zfs zroot rw,xattr
62 39 0:50 / /old ro,relatime - zfs oldpool/data ro,xattr
63 39 259:1 / /boot rw,relatime - vfat /dev/nvme0n1p1 rw";
    let pools = bytes(&["zroot"]);
    let got = zfs_mountpoints(mountinfo.as_bytes(), &pools);
    assert_eq!(got, bytes(&["/", "/var/lib/docker/zfs/graph/abc", "/zroot"]));
}

#[test]
fn pools_by_feature() {
    let p = cloneable_pools(b"tank\tactive\nold\tdisabled\nnew\tenabled\nnonsense\n");
    assert_eq!(p.cloneable, bytes(&["tank", "new"]));
    assert_eq!(p.skipped, bytes(&["old"]));
    assert!(cloneable_pools(b"").cloneable.is_empty());
}

#[test]
fn zfs_and_others() {
    assert!(is_zfs_type(0x2fc1_2fc1));
    assert!(!is_zfs_type(0x9123_683e));
}

#[test]
fn what_is_visited() {
    assert_eq!(visit(Kind::Dir, 1, 1), Visit::Descend);
    assert_eq!(visit(Kind::Dir, 2, 1), Visit::Skip);
    assert_eq!(visit(Kind::File, 1, 1), Visit::File);
    assert_eq!(visit(Kind::File, 2, 1), Visit::File);
    assert_eq!(visit(Kind::Other, 1, 1), Visit::Skip);
}

#[test]
fn directories_are_surveyed() {
    let found = vec![
        (Kind::File, entry("a", 7, 1, 1)),
        (Kind::Dir, entry("sub", 7, 2, 2)),
        (Kind::Other, entry("alink", 7, 3, 1)),
        (Kind::Dir, entry("mnt", 8, 1, 2)),
        (Kind::File, entry("b", 7, 4, 1)),
    ];
    let l = survey(found, 7);
    assert_eq!(l.dirs, bytes(&["sub"]));
    let names: Vec<Vec<u8>> = l.files.into_iter().map(|e| e.name).collect();
    assert_eq!(names, bytes(&["a", "b"]));
}

fn entry(name: &str, dev: u64, ino: u64, nlink: u64) -> Entry {
    Entry { name: name.as_bytes().to_vec(), dev, ino, nlink }
}

fn listed(paths: &Paths<u64>) -> Vec<String> {
    paths
        .files
        .iter()
        .map(|(f, _)| String::from_utf8(paths.path(f)).unwrap())
        .collect()
}

#[test]
fn filtering() {
    // a and a2 are one file, and c lies in a directory below.
    let top = [entry("a", 7, 1, 2), entry("b", 7, 2, 1), entry("a2", 7, 1, 2)];
    let sub = [entry("c", 7, 3, 1)];
    let names = |excl: &HashSet<u128>| {
        let mut seen = HashSet::new();
        let mut out: Paths<u64> = Paths::default();
        assert!(out.take(b"/d", &top, 7, 0, excl, &mut seen));
        assert!(out.take(b"/d/sub", &sub, 7, 0, excl, &mut seen));
        listed(&out)
    };
    let got = names(&HashSet::new());
    assert_eq!(got.len(), 3);
    assert_eq!(got, ["/d/a", "/d/b", "/d/sub/c"]);

    let got = names(&[inode_key(7, 2)].into());
    assert_eq!(got.len(), 2);
    assert_eq!(got, ["/d/a", "/d/sub/c"]);
}

#[test]
fn other_devices_and_single_names() {
    let mut seen = HashSet::new();
    let mut out: Paths<u64> = Paths::default();
    // A file with one name is not remembered: it is taken each time it is listed.
    let list = [entry("x", 7, 1, 1), entry("y", 8, 2, 1), entry("z", 7, 1, 1)];
    assert!(out.take(b"/", &list, 7, 42, &HashSet::new(), &mut seen));
    assert_eq!(listed(&out), ["/x", "/z"]);
    assert!(seen.is_empty());
    assert!(out.files.iter().all(|(_, fsid)| *fsid == 42));
    assert_ne!(inode_key(1, 0), inode_key(0, 1));
}

#[test]
fn paths_come_back() {
    for p in ["/a/b/c", "/a", "a", "a/b", "./a", "../x", "a/../b", "/../b"] {
        let paths = Paths::from_iter(vec![(p.as_bytes().to_vec(), 1u8)]);
        assert_eq!(paths.files.len(), 1);
        assert_eq!(paths.path(&paths.files[0].0), p.as_bytes(), "{p}");
    }
    // Spelled otherwise, the same path.
    let paths = Paths::from_iter(vec![(b"//a/./b//c/".to_vec(), ())]);
    assert_eq!(paths.path(&paths.files[0].0), b"/a/b/c");
}

#[test]
fn directories_are_shared() {
    let mut t = PathTable::new();
    let a = t.intern(b"/x/y");
    let b = t.intern(b"/x/z");
    assert_ne!(a, b);
    assert_eq!(t.intern(b"/x/y"), a);
    assert_eq!(t.intern(b"/x//y/"), a);
    assert_eq!(t.intern(b"/x") + 1, a);
    assert!(t.has_room(b"/x/y", b"name"));
}

#[test]
fn later_files_move_no_earlier_ones() {
    let mut out: Paths<u32> = Paths::default();
    for i in 0..100u32 {
        let dir = format!("/data/{}", i % 7);
        let name = format!("f{i}");
        assert!(out.table.has_room(dir.as_bytes(), name.as_bytes()));
        out.push(dir.as_bytes(), name.as_bytes(), i);
    }
    out.table.seal();
    for (f, i) in &out.files {
        assert_eq!(out.path(f), format!("/data/{}/f{i}", i % 7).as_bytes());
    }
}

fn numbered(n: u32) -> Paths<u32> {
    Paths::from_iter((0..n).map(|i| (format!("/d/{i}").into_bytes(), i)).collect())
}

#[test]
fn batches_cover_all_files_once() {
    let mut sizes = Vec::new();
    let out: Result<Paths<u64>, ()> = numbered(10).map_batched(4, |table, batch| {
        sizes.push(batch.len());
        Ok(batch
            .into_iter()
            .map(|(f, i)| {
                assert_eq!(f.to_path(table), format!("/d/{i}").into_bytes());
                (f, u64::from(i) * 2)
            })
            .collect())
    });
    let out = out.unwrap();
    assert_eq!(sizes, [4, 4, 2]);
    let values: Vec<u64> = out.files.iter().map(|(_, v)| *v).collect();
    assert_eq!(values, (0..10).map(|i| i * 2).collect::<Vec<u64>>());
    assert_eq!(out.path(&out.files[9].0), b"/d/9");
}

#[test]
fn first_failing_batch_ends_the_run() {
    let mut calls = 0;
    let out: Result<Paths<()>, &str> = numbered(10).map_batched(3, |_, _| {
        calls += 1;
        if calls == 2 {
            Err("full")
        } else {
            Ok(Vec::new())
        }
    });
    assert_eq!(out.err(), Some("full"));
    assert_eq!(calls, 2);
}

#[test]
fn batches_of_nothing() {
    let step = |_: &PathTable, b: Vec<(FilePath, u32)>| -> Result<Vec<(FilePath, u32)>, ()> { Ok(b) };
    assert!(numbered(3).map_batched(0, step).unwrap().files.is_empty());
    assert!(numbered(0).map_batched(5, step).unwrap().files.is_empty());
}

#[test]
fn filter_map_keeps_what_is_answered() {
    let out = numbered(6).filter_map(|f, i, table| {
        assert_eq!(f.to_path(table), format!("/d/{i}").into_bytes());
        if i % 2 == 0 {
            Some(i + 100)
        } else {
            None
        }
    });
    let got: Vec<(Vec<u8>, u32)> = out.files.iter().map(|(f, v)| (out.path(f), *v)).collect();
    let want: Vec<(Vec<u8>, u32)> =
        [0, 2, 4].iter().map(|i| (format!("/d/{i}").into_bytes(), i + 100)).collect();
    assert_eq!(got, want);
}
