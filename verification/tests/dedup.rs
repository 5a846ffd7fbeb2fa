use zfs_dedup::cache::ChunkHash;
use zfs_dedup::clone::Dedupe;
use zfs_dedup::dedup::{
    chunk_len, is_not_found, Cause, GroupRun, Opts, Reply, Stats, Step,
};
use zfs_dedup::hasher::{hash_chunk, FileHasher, Hashed, Stat};
use zfs_dedup::index::{
    add_chunks, build_index, dup_key, ChunkKeyHasher, DupFinder, Group, IndexError, Loc,
};

const DRY: Opts = Opts { dry_run: true, fideduperange: false };
const RACY: Opts = Opts { dry_run: false, fideduperange: false };
const KERNEL: Opts = Opts { dry_run: false, fideduperange: true };

fn stat(size: u64, blksz: u32) -> Stat {
    Stat { fsid: 0, ino: 0, size, mtime_ns: 0, ctime_ns: 0, blksz }
}

struct File {
    data: Vec<u8>,
    hashed: Hashed,
    hashes: Option<Vec<ChunkHash>>,
}

// The files numbered in order, and the index of them.
fn index_of(files: &[File]) -> (Vec<((), Hashed)>, Vec<Group>) {
    let mut listed: Vec<((), Hashed)> = files.iter().map(|f| ((), f.hashed)).collect();
    for (i, (_, h)) in listed.iter_mut().enumerate() {
        h.stat.ino = i as u64;
    }
    let fetch = |_: u64, ino: u64| Ok::<_, ()>(files[ino as usize].hashes.clone());
    let index = build_index(&listed, fetch).unwrap();
    (listed, index)
}

fn file(data: &[u8], blksz: u32) -> File {
    let mut h = FileHasher::new(blksz).unwrap();
    let mut buf = vec![0u8; blksz as usize];
    let mut at = 0;
    while let Some(off) = h.next_read() {
        let n = (data.len() - at).min(buf.len() - off);
        buf[off..off + n].copy_from_slice(&data[at..at + n]);
        at += n;
        h.took(&buf, n);
    }
    let hashes = h.into_hashes();
    let mut f = synth(data.len() as u64, blksz, &hashes);
    f.data = data.to_vec();
    f
}

fn synth(size: u64, blksz: u32, hashes: &[ChunkHash]) -> File {
    File {
        data: vec![0u8; size as usize],
        hashed: Hashed::new(&stat(size, blksz), false),
        hashes: Some(hashes.to_vec()),
    }
}

// Carries out the steps of every group on files in memory. A dry run must not
// ask for a change, and a kernel that is not there must not be asked.
fn dedup(files: &mut [File], opts: Opts) -> Stats {
    let (listed, index) = index_of(files);
    let mut stats = Stats::default();
    for g in index {
        let mut run = GroupRun::new(&listed, g.blksz, &g.locs, opts);
        let (mut src, mut dst) = (0, 0);
        loop {
            match run.step() {
                Step::Done => break,
                Step::OpenSource { file } => {
                    src = file as usize;
                    run.reply(Reply::Opened);
                }
                Step::OpenTarget { file, write, .. } => {
                    assert_eq!(write, !opts.dry_run);
                    dst = file as usize;
                    run.reply(Reply::Opened);
                }
                Step::ReadSource { off, len } => {
                    let range = files[src].data.get(off as usize..(off + len) as usize);
                    run.reply(range.map_or(Reply::Gone, Reply::Read));
                }
                Step::ReadTarget { off, len } => {
                    let range = files[dst].data.get(off as usize..(off + len) as usize);
                    run.reply(range.map_or(Reply::Gone, Reply::Read));
                }
                Step::DedupeRange { src_off, dst_off, len } => {
                    assert_eq!(opts, KERNEL);
                    let a = &files[src].data[src_off as usize..(src_off + len) as usize];
                    let b = &files[dst].data[dst_off as usize..(dst_off + len) as usize];
                    let verdict = if a == b { Dedupe::Same(len) } else { Dedupe::Differs };
                    run.reply(Reply::Deduped(verdict));
                }
                Step::CloneRange { src_off, dst_off, len } => {
                    assert_eq!(opts, RACY);
                    let range = files[src].data[src_off as usize..(src_off + len) as usize].to_vec();
                    files[dst].data[dst_off as usize..(dst_off + len) as usize]
                        .copy_from_slice(&range);
                    run.reply(Reply::Cloned);
                }
            }
        }
        assert!(stats.fits(&run.stats()));
        stats.add_assign(run.stats());
    }
    stats
}

#[test]
fn not_found_chain() {
    // "open foo", because the file was not found.
    assert!(is_not_found(&[Cause::Other, Cause::NotFound]));
    // "unrelated".
    assert!(!is_not_found(&[Cause::Other]));
}

#[test]
fn every_kind_of_cause() {
    assert!(is_not_found(&[Cause::UnexpectedEof]));
    assert!(is_not_found(&[Cause::NotFound, Cause::Other]));
    assert!(!is_not_found(&[Cause::OtherIo, Cause::Other]));
    assert!(!is_not_found(&[]));
}

fn two_files_with_one_block_in_common() -> [File; 2] {
    let blk = vec![9u8; 4096];
    let mut a = blk.clone();
    a.extend_from_slice(&[1u8; 4096]);
    let mut b = blk.clone();
    b.extend_from_slice(&[2u8; 4096]);
    [file(&a, 4096), file(&b, 4096)]
}

#[test]
fn finds_dupes() {
    let mut files = two_files_with_one_block_in_common();
    let stats = dedup(&mut files, DRY);
    assert_eq!(stats.candidates, 1);
    assert_eq!(stats.verified, 1);
    assert_eq!(stats.cloned, 0);
    assert_eq!(stats.mismatches, 0);
}

#[test]
fn clones_dupes() {
    for opts in [RACY, KERNEL] {
        let mut files = two_files_with_one_block_in_common();
        let stats = dedup(&mut files, opts);
        assert_eq!(
            stats,
            Stats { candidates: 1, verified: 1, cloned: 1, bytes: 4096, mismatches: 0, errors: 0 }
        );
    }
}

#[test]
fn no_dupes() {
    let mut files = [file(&[1u8; 4096], 4096), file(&[2u8; 4096], 4096)];
    assert_eq!(dedup(&mut files, DRY).candidates, 0);
}

#[test]
fn ignores_zeros() {
    let z = [0u8; 8192];
    let mut files = [file(&z, 4096), file(&z, 4096)];
    assert_eq!(dedup(&mut files, DRY).candidates, 0);
}

#[test]
fn stale_index_past_eof() {
    let data = [9u8; 8192];
    let mut files = [file(&data, 4096), file(&data, 4096)];
    for f in &mut files {
        f.hashed.stat.size = 0;
    }
    assert_eq!(dedup(&mut files, DRY).verified, 0);
}

#[test]
fn dup_key_collision() {
    let ha = [0xaa; 16];
    let mut hb = [0xbb; 16];
    hb[8..].copy_from_slice(&[0xaa; 8]);
    assert_eq!(dup_key(4096, &ha), dup_key(4096, &hb));
    let mut files = [synth(4096, 4096, &[ha]), synth(4096, 4096, &[hb])];
    assert_eq!(dedup(&mut files, DRY).candidates, 0);
}

#[test]
fn cross_blksz() {
    let data = [9u8; 4096];
    let mut files = [
        synth(4096, 4096, &[hash_chunk(&data)]),
        synth(4096, 8192, &[hash_chunk(&data)]),
    ];
    assert_eq!(dedup(&mut files, DRY).candidates, 0);
}

#[test]
fn equal_hashes_of_different_bytes() {
    for opts in [DRY, RACY, KERNEL] {
        let mut files = [synth(4096, 4096, &[[5; 16]]), synth(4096, 4096, &[[5; 16]])];
        files[1].data = vec![1u8; 4096];
        let stats = dedup(&mut files, opts);
        assert_eq!(
            stats,
            Stats { candidates: 1, verified: 0, cloned: 0, bytes: 0, mismatches: 1, errors: 0 }
        );
        assert_eq!(files[1].data, vec![1u8; 4096]);
    }
}

#[test]
fn tails_match_tails_only() {
    // A block of 100 bytes at the end of one file and a whole one with its hash.
    let mut files = [
        synth(100, 4096, &[[5; 16]]),
        synth(4096, 4096, &[[5; 16]]),
        synth(4196, 4096, &[[6; 16], [5; 16]]),
    ];
    let stats = dedup(&mut files, RACY);
    assert_eq!((stats.candidates, stats.verified, stats.bytes), (1, 1, 100));
}

#[test]
fn index_groups_in_order() {
    let (a, b, c) = ([1u8; 16], [2u8; 16], [3u8; 16]);
    let mut files = [
        synth(3 * 4096, 4096, &[a, b, a]),
        synth(4096, 4096, &[a]),
        synth(2 * 4096, 4096, &[c, a]),
    ];
    files[1].hashes = None;
    let (_, index) = index_of(&files);
    assert_eq!(index.len(), 1);
    assert_eq!((index[0].blksz, index[0].hash), (4096, a));
    let at = |file, chunk| Loc { file, chunk };
    assert_eq!(index[0].locs, vec![at(0, 0), at(0, 2), at(2, 1)]);
}

#[test]
fn index_pass_by_pass() {
    let h = Hashed::new(&stat(8192, 4096), false);
    let (a, b) = ([1u8; 16], [2u8; 16]);
    let mut first = DupFinder::new(4);
    first.note(&h, &[a, b]);
    first.note(&h, &[a, [0; 16]]);
    let mut second = first.into_builder();
    second.record(0, &h, &[a, b]);
    second.record(1, &h, &[a, [0; 16]]);
    let index = second.finish();
    assert_eq!(index.len(), 1);
    assert_eq!(index[0].locs, vec![Loc { file: 0, chunk: 0 }, Loc { file: 1, chunk: 0 }]);
}

#[test]
fn key_hasher() {
    const SPREAD: u64 = 0x9e3779b97f4a7c15;
    let mut h = ChunkKeyHasher::new();
    h.write_u32(4096);
    assert_eq!(h.finish(), 4096u64.wrapping_mul(SPREAD));
    h.write(&[1, 2, 3, 4, 5, 6, 7, 8, 9]);
    let tail = u64::from_le_bytes([2, 3, 4, 5, 6, 7, 8, 9]);
    assert_eq!(h.finish(), 4096u64.wrapping_mul(SPREAD) ^ tail);
    let mut h = ChunkKeyHasher::new();
    h.write_u64(u64::MAX);
    h.write(&[0xff, 2]);
    let want = (u64::MAX.wrapping_mul(SPREAD).rotate_left(8) ^ 0xff).rotate_left(8) ^ 2;
    assert_eq!(h.finish(), want);
}

#[test]
fn short_key_formula() {
    let h: ChunkHash = [0, 1, 2, 3, 4, 5, 6, 7, 8, 9, 10, 11, 12, 13, 14, 15];
    let upper = u64::from_le_bytes([8, 9, 10, 11, 12, 13, 14, 15]);
    assert_eq!(dup_key(512, &h), upper ^ 512u64.wrapping_mul(0x9e3779b97f4a7c15));
}

#[test]
fn chunk_bounds() {
    let h = |size, blksz| Hashed::new(&stat(size, blksz), false);
    assert_eq!(add_chunks(0, &h(0, 4096)), Some(1));
    assert_eq!(add_chunks(5, &h(8192, 4096)), Some(8));
    assert_eq!(add_chunks(0, &h(10, 0)), Some(11));
    assert_eq!(add_chunks(u64::MAX, &h(0, 4096)), None);
}

#[test]
fn chunk_lengths() {
    let h = Hashed::new(&stat(10_000, 4096), false);
    assert_eq!(chunk_len(&h, 0, 4096), 4096);
    assert_eq!(chunk_len(&h, 2, 4096), 1808);
    assert_eq!(chunk_len(&h, 3, 4096), 0);
    assert_eq!(chunk_len(&h, u32::MAX, u32::MAX), 0);
    assert_eq!(Loc { file: 0, chunk: 3 }.off(4096), 12288);
}

#[test]
fn errors_and_vanished_files() {
    let listed = [((), Hashed::new(&stat(4096, 4096), false)); 3];
    let locs: Vec<Loc> = (0..3).map(|file| Loc { file, chunk: 0 }).collect();

    // The source fails: one error, no candidate.
    let mut run = GroupRun::new(&listed, 4096, &locs, RACY);
    run.reply(Reply::Failed);
    assert_eq!(run.step(), Step::Done);
    assert_eq!(run.stats(), Stats { errors: 1, ..Stats::default() });

    // The source is gone: nothing to count.
    let mut run = GroupRun::new(&listed, 4096, &locs, RACY);
    run.reply(Reply::Opened);
    assert_eq!(run.step(), Step::ReadSource { off: 0, len: 4096 });
    run.reply(Reply::Gone);
    assert_eq!(run.step(), Step::Done);
    assert_eq!(run.stats(), Stats::default());

    // One target is gone, the other cannot be deduped.
    let mut run = GroupRun::new(&listed, 4096, &locs, KERNEL);
    run.reply(Reply::Opened);
    assert_eq!(run.step(), Step::OpenTarget { file: 1, off: 0, write: true });
    run.reply(Reply::Gone);
    assert_eq!(run.step(), Step::OpenTarget { file: 2, off: 0, write: true });
    run.reply(Reply::Opened);
    run.reply(Reply::Deduped(Dedupe::Unsupported));
    assert_eq!(run.step(), Step::Done);
    assert_eq!(run.stats(), Stats { candidates: 2, errors: 1, ..Stats::default() });
    assert!(run.can_count(u64::MAX));
}

#[test]
fn counts_that_do_not_fit() {
    let a = Stats { bytes: u64::MAX, ..Stats::default() };
    assert!(a.fits(&Stats::default()));
    assert!(!a.fits(&Stats { bytes: 1, ..Stats::default() }));
}

#[test]
fn index_errors() {
    let listed = [((), Hashed::new(&stat(4096, 4096), false))];
    let r = build_index(&listed, |_, _| Err("corrupt"));
    assert!(matches!(r, Err(IndexError::Fetch("corrupt"))));
    let huge = [((), Hashed::new(&stat(u64::MAX, 1), false))];
    let r = build_index(&huge, |_, _| Ok::<_, ()>(None));
    assert!(matches!(r, Err(IndexError::TooManyChunks)));
}

#[test]
fn index_when_the_cache_changes_between_passes() {
    let mut listed = [((), Hashed::new(&stat(4096, 4096), false)); 3];
    for (i, (_, h)) in listed.iter_mut().enumerate() {
        h.stat.ino = i as u64;
    }
    // The first file is gone from the cache in the second pass.
    let mut calls = 0;
    let index = build_index(&listed, |_, ino| {
        calls += 1;
        Ok::<_, ()>(if calls > 3 && ino == 0 { None } else { Some(vec![[4u8; 16]]) })
    })
    .unwrap();
    assert_eq!(calls, 6);
    assert_eq!(index[0].locs, vec![Loc { file: 1, chunk: 0 }, Loc { file: 2, chunk: 0 }]);
}

#[test]
fn every_target_becomes_a_candidate() {
    let listed = [((), Hashed::new(&stat(4096, 4096), false)); 4];
    let locs: Vec<Loc> = (0..4).map(|file| Loc { file, chunk: 0 }).collect();
    let mut run = GroupRun::new(&listed, 4096, &locs, KERNEL);
    run.reply(Reply::Opened);
    run.reply(Reply::Gone);
    run.reply(Reply::Failed);
    run.reply(Reply::Opened);
    run.reply(Reply::Deduped(Dedupe::Differs));
    assert_eq!(run.step(), Step::Done);
    let want = Stats { candidates: 3, mismatches: 1, errors: 1, ..Stats::default() };
    assert_eq!(run.stats(), want);
}

#[test]
fn single_chunks_are_in_no_group() {
    // The filter may suspect some of a thousand distinct chunks.
    let h = Hashed::new(&stat(4096 * 1000, 4096), false);
    let hashes: Vec<ChunkHash> = (0..1000u32).map(|i| hash_chunk(&i.to_le_bytes())).collect();
    let mut first = DupFinder::new(1001);
    first.note(&h, &hashes);
    let mut second = first.into_builder();
    second.record(0, &h, &hashes);
    assert!(second.finish().is_empty());
}
