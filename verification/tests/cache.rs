use std::collections::{BTreeMap, HashSet};
use zfs_dedup::cache::{
    encode, encode_into, encoded_len, is_bloated, CacheError, FileEntry, Prune, COMPACT_FLOOR,
    HASH_LEN, HEADER,
};

fn entry(n: usize) -> FileEntry {
    FileEntry {
        size: 131072 * n as u64,
        mtime_ns: 1,
        ctime_ns: 2,
        blksz: 131072,
        hashes: (0..n).map(|i| [i as u8; HASH_LEN]).collect(),
    }
}

#[test]
fn roundtrip() {
    let mut cache: BTreeMap<(u64, u64), Vec<u8>> = BTreeMap::new();
    let e = entry(3);
    cache.insert((1, 42), encode(e.as_ref()));
    assert_eq!(FileEntry::decode(&cache[&(1, 42)]).unwrap(), e);
    assert!(cache.get(&(1, 43)).is_none());
}

#[test]
fn encode_empty() {
    let e = entry(0);
    assert_eq!(FileEntry::decode(&encode(e.as_ref())).unwrap(), e);
}

#[test]
fn decode_garbage() {
    assert!(FileEntry::decode(&[0; 5]).is_err());
    assert!(FileEntry::decode(&[0; HEADER + 1]).is_err());
}

#[test]
fn decode_says_how_long_garbage_is() {
    assert_eq!(FileEntry::decode(&[0; 5]), Err(CacheError::Corrupt { len: 5 }));
    assert_eq!(FileEntry::decode(&[0; 45]), Err(CacheError::Corrupt { len: 45 }));
}

#[test]
fn matches() {
    let e = entry(2);
    assert!(e.matches(e.size, e.mtime_ns, e.ctime_ns, e.blksz));
    assert!(!e.matches(e.size + 1, e.mtime_ns, e.ctime_ns, e.blksz));
    assert!(!e.matches(e.size, e.mtime_ns + 1, e.ctime_ns, e.blksz));
    assert!(!e.matches(e.size, e.mtime_ns, e.ctime_ns, e.blksz + 1));
}

#[test]
fn matches_needs_the_change_time() {
    let e = entry(2);
    assert!(!e.matches(e.size, e.mtime_ns, e.ctime_ns + 1, e.blksz));
}

#[test]
fn batch() {
    let es: Vec<_> = (0..10).map(entry).collect();
    let cache: Vec<_> = es.iter().map(|e| encode(e.as_ref())).collect();
    for (i, e) in es.iter().enumerate() {
        assert_eq!(FileEntry::decode(&cache[i]).ok().as_ref(), Some(e));
    }
}

#[test]
fn encoding_is_laid_out() {
    let e = FileEntry {
        size: 0x0102_0304_0506_0708,
        mtime_ns: -1,
        ctime_ns: i128::MIN,
        blksz: 0x0a0b_0c0d,
        hashes: vec![[7; HASH_LEN], [9; HASH_LEN]],
    };
    let buf = encode(e.as_ref());
    assert_eq!(buf.len(), 76);
    assert_eq!(buf.len(), encoded_len(e.as_ref()));
    assert_eq!(buf[0..8], e.size.to_le_bytes());
    assert_eq!(buf[8..24], e.mtime_ns.to_le_bytes());
    assert_eq!(buf[24..40], e.ctime_ns.to_le_bytes());
    assert_eq!(buf[40..44], e.blksz.to_le_bytes());
    assert_eq!(buf[44..60], [7; HASH_LEN]);
    assert_eq!(buf[60..76], [9; HASH_LEN]);
    let mut again = vec![0xffu8; 76];
    encode_into(&mut again, e.as_ref());
    assert_eq!(again, buf);
    assert_eq!(FileEntry::decode(&buf).unwrap(), e);
}

fn prune(keys: &[(u64, u64)], seen: &[(u64, u64)], fsids: &[u64]) -> (Vec<(u64, u64)>, usize) {
    let mut pass = Prune::new(fsids.iter().copied().collect::<HashSet<u64>>());
    let left = keys
        .iter()
        .copied()
        .filter(|k| pass.keep(k.0, seen.contains(k)))
        .collect();
    (left, pass.removed())
}

#[test]
fn prune_unseen() {
    let keys: Vec<(u64, u64)> = (0..5).map(|i| (0, i)).collect();
    let (left, removed) = prune(&keys, &[(0, 1), (0, 3)], &[0]);
    assert_eq!(removed, 3);
    assert_eq!(left, vec![(0, 1), (0, 3)]);
}

#[test]
fn prune_scoped_to_scanned_fsids() {
    let (left, removed) = prune(&[(1, 0), (2, 0)], &[], &[1]);
    assert_eq!(removed, 1);
    assert_eq!(left, vec![(2, 0)]);
}

#[test]
fn bloated_is_over_half_free_and_over_the_floor() {
    assert_eq!(COMPACT_FLOOR, 16 << 20);
    let floor = COMPACT_FLOOR;
    assert!(!is_bloated(1 << 20, 0));
    assert!(!is_bloated(floor, 0));
    assert!(is_bloated(floor + 1, 0));
    assert!(!is_bloated(4 * floor, 2 * floor));
    assert!(is_bloated(4 * floor + 1, 2 * floor));
    assert!(!is_bloated(u64::MAX, u64::MAX / 2 + 1));
    assert!(!is_bloated(0, u64::MAX));
}
