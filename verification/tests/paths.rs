use std::path::{Path, PathBuf};
use zfs_dedup::dirs;
use zfs_dedup::path;
use zfs_dedup::walk::Paths;

const SAMPLES: [&str; 24] = [
    "", "/", "//", ".", "./", "..", "a", "a/", "/a", "/a/", "//a", "/a/b", "/a//b/", "/a/./b", "a/b",
    "./a", "a/.", "a/..", "../a", "/..", "/.", "/ab", "/a/bc", "/A/b",
];

#[test]
fn paths_compare_as_components() {
    for a in SAMPLES {
        for b in SAMPLES {
            let (x, y) = (Path::new(a), Path::new(b));
            assert_eq!(path::same_path(a.as_bytes(), b.as_bytes()), x == y, "{a:?} {b:?}");
            assert_eq!(
                path::starts_with(a.as_bytes(), b.as_bytes()),
                x.starts_with(y),
                "{a:?} {b:?}"
            );
            assert_eq!(dirs::comes_before(a.as_bytes(), b.as_bytes()), x < y, "{a:?} {b:?}");
        }
    }
}

#[test]
fn paths_extend() {
    for a in SAMPLES {
        for b in SAMPLES {
            let mut x = PathBuf::from(a);
            x.push(b);
            let mut y = a.as_bytes().to_vec();
            path::extend(&mut y, b.as_bytes());
            assert_eq!(y, x.to_str().unwrap().as_bytes(), "{a:?} {b:?}");
        }
    }
}

#[test]
fn normal_form_says_the_same() {
    for a in SAMPLES {
        let n = path::normalize(a.as_bytes());
        assert!(path::same_path(&n, a.as_bytes()));
        assert_eq!(path::normalize(&n), n);
    }
    assert_eq!(path::normalize(b"//a/.//b/"), b"/a/b");
    assert_eq!(path::normalize(b"./a/./b"), b"./a/b");
}

#[test]
fn sets_are_sorted_and_hold_nothing_twice() {
    let mut set: Vec<Vec<u8>> = Vec::new();
    for p in ["/b", "/a/c", "/a", "/b/", "/a//c"] {
        dirs::insert(&mut set, p.as_bytes().to_vec());
    }
    assert_eq!(set, vec![b"/a".to_vec(), b"/a/c".to_vec(), b"/b".to_vec()]);
    assert!(dirs::contains(&set, b"/a/c/"));
    assert!(!dirs::contains(&set, b"/c"));
}

#[test]
fn stored_as_directory_and_name() {
    for a in SAMPLES {
        let p = Path::new(a);
        let parent = p.parent().unwrap_or(Path::new(""));
        let want = match p.file_name() {
            Some(name) => parent.join(name),
            None => parent.join(""),
        };
        let stored = Paths::from_iter(vec![(a.as_bytes().to_vec(), ())]);
        let got = String::from_utf8(stored.path(&stored.files[0].0)).unwrap();
        assert_eq!(Path::new(&got), want, "{a:?}");
    }
}
