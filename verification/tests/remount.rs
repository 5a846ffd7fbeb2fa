use zfs_dedup::remount::{opt_flag, parse_mountinfo, rw_binds, unescape, MountFlag, MountFlags};

#[test]
fn parse_ro_bind() {
    let l = "54 39 0:33 /nix/store /nix/store ro,nosuid,nodev,relatime shared:17 - zfs zroot/root/nixos rw,xattr,posixacl,casesensitive";
    let m = parse_mountinfo(l.as_bytes()).unwrap();
    assert_eq!(m.point, b"/nix/store");
    assert_eq!(m.root, b"/nix/store");
    assert_eq!(m.source, b"zroot/root/nixos");
    assert!(m.ro);
    assert!(m.super_rw);
    assert_eq!(m.fstype, b"zfs");
    assert!(
        m.flags.contains(MountFlag::Nosuid)
            && m.flags.contains(MountFlag::Nodev)
            && m.flags.contains(MountFlag::Relatime)
    );
    assert!(!m.flags.contains(MountFlag::Noexec));
}

#[test]
fn parse_rw() {
    let l = "39 1 0:33 / / rw,relatime shared:1 - zfs zroot/root/nixos rw,xattr,posixacl";
    let m = parse_mountinfo(l.as_bytes()).unwrap();
    assert!(!m.ro);
    assert!(m.super_rw);
}

#[test]
fn parse_truly_ro() {
    let l = "60 1 0:40 / /backup ro,relatime - zfs backup/data ro,xattr";
    let m = parse_mountinfo(l.as_bytes()).unwrap();
    assert!(m.ro);
    assert!(!m.super_rw);
}

#[test]
fn parse_garbage() {
    assert!(parse_mountinfo(b"").is_none());
    assert!(parse_mountinfo(b"not a mountinfo line").is_none());
}

#[test]
fn parse_missing_fields() {
    assert!(parse_mountinfo(b"39 1 0:33 / / - zfs pool rw").is_none());
    assert!(parse_mountinfo(b"39 1 0:33 / / rw - zfs pool").is_none());
    assert!(parse_mountinfo(b"39 1 0:33 / / rw - zfs pool rw").is_some());
}

#[test]
fn unescape_octal() {
    assert_eq!(unescape("/a\\040b".as_bytes()), b"/a b");
    assert_eq!(unescape("/x\\011y\\134z".as_bytes()), b"/x\ty\\z");
    assert_eq!(unescape("/plain".as_bytes()), b"/plain");
}

#[test]
fn unescape_cut_short() {
    assert_eq!(unescape(b"/a\\04"), b"/a\\");
    assert_eq!(unescape(b"/a\\"), b"/a\\");
    assert_eq!(unescape(b"\\377"), [0xff]);
}

#[test]
fn unescape_undoes_what_the_kernel_does() {
    let path: &[u8] = b"/a b\tc\nd\\e/\xff plain";
    let mut escaped = Vec::new();
    for &b in path {
        if matches!(b, b' ' | b'\t' | b'\n' | b'\\') {
            escaped.extend_from_slice(format!("\\{b:03o}").as_bytes());
        } else {
            escaped.push(b);
        }
    }
    assert_eq!(unescape(&escaped), path);
}

#[test]
fn every_flag() {
    let words = [
        ("nosuid", MountFlag::Nosuid),
        ("nodev", MountFlag::Nodev),
        ("noexec", MountFlag::Noexec),
        ("noatime", MountFlag::Noatime),
        ("nodiratime", MountFlag::Nodiratime),
        ("relatime", MountFlag::Relatime),
        ("strictatime", MountFlag::Strictatime),
        ("sync", MountFlag::Sync),
        ("dirsync", MountFlag::Dirsync),
        ("lazytime", MountFlag::Lazytime),
    ];
    for (w, f) in words {
        assert_eq!(opt_flag(w.as_bytes()), Some(f));
        let mut one = MountFlags::empty();
        one.insert(f);
        for (_, g) in words {
            assert_eq!(one.contains(g), f == g);
        }
    }
    for w in ["ro", "rw", "", "no", "nosuidx"] {
        assert_eq!(opt_flag(w.as_bytes()), None);
    }
}

const MOUNTS: &str = "\
39 1 0:33 / / rw,noatime shared:1 - zfs zroot/root rw,xattr
54 39 0:33 /nix/store /nix/store ro,nosuid,nodev shared:17 - zfs zroot/root rw,xattr
60 39 0:40 / /backup ro,relatime - zfs backup/data ro,xattr
61 39 0:41 / /cd ro,relatime - iso9660 /dev/sr0 rw
62 39 0:42 /x /srv\\040x ro - zfs zroot/srv rw
";

fn points(roots: &[&str]) -> Vec<Vec<u8>> {
    let roots: Vec<Vec<u8>> = roots.iter().map(|r| r.as_bytes().to_vec()).collect();
    rw_binds(MOUNTS.as_bytes(), &roots).into_iter().map(|m| m.point).collect()
}

#[test]
fn only_ro_binds_of_rw_datasets_are_remounted() {
    assert_eq!(points(&["/"]), vec![b"/nix/store".to_vec(), b"/srv x".to_vec()]);
    assert_eq!(points(&["/nix/store/abc"]), vec![b"/nix/store".to_vec()]);
    assert_eq!(points(&["/nix/stor"]), Vec::<Vec<u8>>::new());
    assert_eq!(points(&["/backup", "/cd"]), Vec::<Vec<u8>>::new());
    assert_eq!(points(&[]), Vec::<Vec<u8>>::new());
}
