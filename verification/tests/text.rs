use zfs_dedup::ids::Ids;
use zfs_dedup::text;

const SAMPLES: [&str; 10] =
    ["", "\n", "a", "a\n", "a\nb", "a\r\nb\r\n", "\r\n", "a\r", "a\n\nb", " - x - y"];

#[test]
fn lines_as_std_has_them() {
    for s in SAMPLES {
        let want: Vec<&[u8]> = s.lines().map(|l| l.as_bytes()).collect();
        assert_eq!(text::lines(s.as_bytes()), want, "{s:?}");
    }
}

#[test]
fn splits_as_std_has_them() {
    for s in SAMPLES {
        let want: Vec<&[u8]> = s.split('\n').map(|l| l.as_bytes()).collect();
        assert_eq!(text::split(s.as_bytes(), b'\n'), want, "{s:?}");
        let want = s.split_once(" - ").map(|(a, b)| (a.as_bytes(), b.as_bytes()));
        assert_eq!(text::split_once(s.as_bytes(), b" - "), want, "{s:?}");
    }
}

#[test]
fn ids_by_name() {
    let mut ids = Ids::new();
    for i in 0..500u32 {
        let key = format!("/some/dir/{i}").into_bytes();
        assert_eq!(ids.get(&key), None);
        ids.insert(key, i);
    }
    for i in 0..500u32 {
        assert_eq!(ids.get(format!("/some/dir/{i}").as_bytes()), Some(i));
    }
    assert_eq!(ids.get(b""), None);
}
