use std::collections::BTreeMap;
use zfs_dedup::cache::{encode, ChunkHash, FileEntry};
use zfs_dedup::hasher::{
    digest_bytes, direct_reads, hash_chunk, hash_one, is_zero, plan, to_store, without_hashes,
    FileError, FileHasher, HashError, Hashed, Metadata, Plan, Stat, ZERO_HASH,
};

// Feeds `data` to the hasher in reads of at most `most` bytes.
fn hash_reads(data: &[u8], blksz: u32, most: usize) -> Vec<ChunkHash> {
    let mut h = FileHasher::new(blksz).unwrap();
    let mut buf = vec![0u8; blksz as usize];
    let mut at = 0;
    while let Some(off) = h.next_read() {
        let n = (data.len() - at).min(buf.len() - off).min(most);
        buf[off..off + n].copy_from_slice(&data[at..at + n]);
        at += n;
        h.took(&buf, n);
    }
    h.into_hashes()
}

fn hash_data(data: &[u8], blksz: u32) -> Vec<ChunkHash> {
    hash_reads(data, blksz, usize::MAX)
}

#[test]
fn chunking() {
    let hs = hash_data(b"aaaabbbbcc", 4);
    assert_eq!(hs.len(), 3);
    assert_eq!(hs[0], hash_chunk(b"aaaa"));
    assert_eq!(hs[1], hash_chunk(b"bbbb"));
    assert_eq!(hs[2], hash_chunk(b"cc"));
}

#[test]
fn zero_sentinel() {
    let mut data = vec![0u8; 4096];
    data.extend_from_slice(&[1u8; 4096]);
    data.extend_from_slice(&[0u8; 4096]);
    let hs = hash_data(&data, 4096);
    assert_eq!(hs[0], ZERO_HASH);
    assert_ne!(hs[1], ZERO_HASH);
    assert_eq!(hs[2], ZERO_HASH);
    assert!(is_zero(&[0; 4096]));
    assert!(!is_zero(&[0, 0, 0, 1]));
    assert!(!is_zero(&[1, 0, 0, 0]));
}

#[test]
fn zero_beyond_one_block() {
    let mut buf = vec![0u8; 10_000];
    assert!(is_zero(&buf));
    assert!(is_zero(&[]));
    buf[9_999] = 1;
    assert!(!is_zero(&buf));
    buf[9_999] = 0;
    buf[4_096] = 0x80;
    assert!(!is_zero(&buf));
}

#[test]
fn empty_file() {
    assert!(hash_data(b"", 4096).is_empty());
}

#[test]
fn whole_chunks_leave_no_empty_one() {
    assert_eq!(hash_data(b"aaaabbbb", 4).len(), 2);
}

#[test]
fn short_reads_make_no_difference() {
    let data: Vec<u8> = (0..=255u8).cycle().take(10_000).collect();
    for most in [1, 7, 4095, 4096, 5000] {
        assert_eq!(hash_reads(&data, 4096, most), hash_data(&data, 4096));
    }
}

#[test]
fn zero_block_size() {
    assert_eq!(FileHasher::new(0).err(), Some(HashError::ZeroBlksz));
}

#[test]
fn known_hash_of_nothing() {
    // XXH3-128 of the empty string, least significant byte first.
    let want = 0x99aa06d3014798d86001c324468d497fu128.to_le_bytes();
    assert_eq!(hash_chunk(b""), want);
}

#[test]
fn hash_is_xxh3() {
    for data in [&b"a"[..], b"zfs", &[7u8; 4096]] {
        let digest = xxhash_rust::xxh3::xxh3_128(data);
        assert_eq!(hash_chunk(data), digest.to_le_bytes());
        assert_eq!(digest_bytes(digest), digest.to_le_bytes());
    }
}

#[test]
fn direct_reads_need_whole_pages() {
    assert!(direct_reads(4096));
    assert!(direct_reads(131072));
    assert!(!direct_reads(512));
    assert!(!direct_reads(4097));
}

fn stat(size: u64, mtime: i64) -> Stat {
    let m = Metadata {
        ino: 5,
        size,
        mtime,
        mtime_nsec: 3,
        ctime: -2,
        ctime_nsec: 4,
        blksize: 4096,
    };
    Stat::from_metadata(&m, 9)
}

#[test]
fn stat_of_metadata() {
    let s = stat(8192, 7);
    assert_eq!((s.fsid, s.ino, s.size, s.blksz), (9, 5, 8192, 4096));
    assert_eq!(s.mtime_ns, 7_000_000_003);
    assert_eq!(s.ctime_ns, -1_999_999_996);
    let m = Metadata {
        ino: 0,
        size: 0,
        mtime: i64::MIN,
        mtime_nsec: 0,
        ctime: i64::MAX,
        ctime_nsec: 999_999_999,
        blksize: 1 << 32,
    };
    let s = Stat::from_metadata(&m, 0);
    assert_eq!(s.blksz, u32::MAX);
    assert_eq!(s.mtime_ns, i64::MIN as i128 * 1_000_000_000);
    assert_eq!(s.ctime_ns, i64::MAX as i128 * 1_000_000_000 + 999_999_999);
}

#[test]
fn invalidation() {
    // One pass over a file of these contents and times, against a cache entry.
    let one = |stat: &Stat, data: &[u8], cached: &Option<Vec<u8>>| -> (Hashed, Vec<ChunkHash>) {
        let entry = cached.as_ref().map(|b| FileEntry::decode(b).unwrap());
        hash_one(true, stat, entry, |blksz| Ok::<_, ()>(hash_data(data, blksz))).unwrap()
    };
    let data = vec![7u8; 8192];
    let before = stat(8192, 1);
    let (a, ha) = one(&before, &data, &None);
    assert!(!a.from_cache);
    let cached = Some(encode(a.stat.entry(&ha)));

    let (b, hb) = one(&before, &data, &cached);
    assert!(b.from_cache);
    assert_eq!(ha, hb);

    let mut data = data;
    data.extend_from_slice(&[1; 4096]);
    let (c, hc) = one(&stat(12288, 2), &data, &cached);
    assert!(!c.from_cache);
    assert_ne!(ha, hc);
}

#[test]
fn only_regular_files_are_hashed() {
    let s = stat(1, 1);
    assert!(matches!(plan(false, &s, None), Plan::NotRegular));
    let e = FileEntry::decode(&encode(s.entry(&[]))).unwrap();
    assert!(matches!(plan(false, &s, Some(e)), Plan::NotRegular));
}

#[test]
fn what_was_read_is_stored() {
    let s = stat(8192, 1);
    let h = vec![[1u8; 16], [2u8; 16]];
    let results: Vec<(u8, Result<(Hashed, Vec<ChunkHash>), &str>)> = vec![
        (0, Ok((Hashed::new(&s, true), h.clone()))),
        (1, Err("gone")),
        (2, Ok((Hashed::new(&s, false), h.clone()))),
    ];
    let stored = to_store(&results);
    assert_eq!(stored.len(), 1);
    assert_eq!((stored[0].0, stored[0].1), (9, 5));
    assert_eq!(encode(stored[0].2), encode(s.entry(&h)));
}

#[test]
fn files_that_cannot_be_hashed() {
    let s = stat(1, 1);
    let r = hash_one(false, &s, None, |_| Ok::<_, ()>(Vec::new()));
    assert!(matches!(r, Err(FileError::NotRegular)));
    let r = hash_one(true, &s, None, |blksz| {
        assert_eq!(blksz, 4096);
        Err::<Vec<ChunkHash>, _>("i/o")
    });
    assert!(matches!(r, Err(FileError::Read("i/o"))));
}

#[test]
fn hashes_are_found_again() {
    // Two passes over three files, one of which cannot be read.
    let mut cache: BTreeMap<(u64, u64), Vec<u8>> = BTreeMap::new();
    let contents: [&[u8]; 3] = [&[1; 5000], &[], &[2; 8192]];
    for pass in 0..2 {
        let mut results = Vec::new();
        for (i, data) in contents.iter().enumerate() {
            let mut s = stat(data.len() as u64, 1);
            s.ino = i as u64;
            let entry = cache.get(&(s.fsid, s.ino)).map(|b| FileEntry::decode(b).unwrap());
            let read = |blksz| if i == 1 { Err("gone") } else { Ok(hash_data(data, blksz)) };
            results.push((i, hash_one(true, &s, entry, read)));
        }
        let before = cache.clone();
        let entries = to_store(&results);
        assert_eq!(entries.len(), if pass == 0 { 2 } else { 0 });
        for (fsid, ino, e) in entries {
            cache.insert((fsid, ino), encode(e));
        }
        if pass == 1 {
            assert_eq!(cache, before);
        }
        let out = without_hashes(results);
        assert_eq!(out.iter().map(|(i, _)| *i).collect::<Vec<usize>>(), [0, 1, 2]);
        for (i, r) in &out {
            match r {
                Ok(h) => {
                    assert_eq!(h.from_cache, pass == 1);
                    let e = FileEntry::decode(&cache[&(h.stat.fsid, h.stat.ino)]).unwrap();
                    assert!(e.matches(h.stat.size, h.stat.mtime_ns, h.stat.ctime_ns, h.stat.blksz));
                    assert_eq!(e.hashes, hash_data(contents[*i], 4096));
                }
                Err(FileError::Read(e)) => assert_eq!((*i, *e), (1, "gone")),
                Err(FileError::NotRegular) => unreachable!(),
            }
        }
    }
}
