use zfs_dedup::cli::{default_cache, Arg, Args, Flag, Next};
use zfs_dedup::dedup::{Cause, Opts, Stats};
use zfs_dedup::hasher::{Hashed, Stat};
use zfs_dedup::human::human;
use zfs_dedup::session::{End, Reply, Session, Step};
use zfs_dedup::run::{
    cache_use, choose_opts, covers_dataset, group_by_fsid, group_total, probe_fideduperange, prune_key,
    select_dirs, succeeded, CacheUse, Tally,
};

fn bytes(list: &[&str]) -> Vec<Vec<u8>> {
    list.iter().map(|s| s.as_bytes().to_vec()).collect()
}

fn hashed(fsid: u64, ino: u64, size: u64, from_cache: bool) -> Hashed {
    let stat = Stat { fsid, ino, size, mtime_ns: 0, ctime_ns: 0, blksz: 4096 };
    Hashed::new(&stat, from_cache)
}

#[test]
fn prune_key_mixes() {
    for (fsid, ino) in [(0u64, 0u64), (1, 2), (0x1234_5678_9abc_def0, u64::MAX)] {
        let mut k = fsid.rotate_left(32) ^ ino;
        k = (k ^ (k >> 30)).wrapping_mul(0xbf58476d1ce4e5b9);
        k = (k ^ (k >> 27)).wrapping_mul(0x94d049bb133111eb);
        assert_eq!(prune_key(fsid, ino), k ^ (k >> 31));
    }
    // The first output of SplitMix64 for the state 0x9e37... is known.
    assert_eq!(prune_key(0, 0x9e3779b97f4a7c15), 0xe220a8397b1dcdaf);
}

#[test]
fn hashed_files_are_seen() {
    let mut t = Tally::new(100);
    for ino in 0..100 {
        t.hashed(&hashed(3, ino, 0, ino % 4 == 0));
    }
    for ino in 0..100 {
        assert!(t.saw(3, ino));
    }
    let wrong = (1000..2000).filter(|i| t.saw(3, *i)).count();
    assert!(wrong < 100, "{wrong}");
    assert_eq!(t.hits(), 25);
    assert_eq!(t.errors(), 0);
}

#[test]
fn vanished_files_are_no_errors() {
    let mut t = Tally::new(2);
    assert!(!t.failed(&[Cause::Other, Cause::NotFound]));
    assert!(t.failed(&[Cause::OtherIo]));
    assert_eq!(t.errors(), 1);
    assert_eq!(t.hits(), 0);
}

#[test]
fn totals() {
    let files = [((), hashed(0, 1, 5, false)), ((), hashed(0, 2, 7, true))];
    assert_eq!(group_total(&files), Some(12));
    assert_eq!(group_total::<()>(&[]), Some(0));
    let files = [((), hashed(0, 1, u64::MAX, false)), ((), hashed(0, 2, 1, true))];
    assert_eq!(group_total(&files), None);
}

#[test]
fn force_is_for_the_racy_way_only() {
    let opts = |dry_run, fideduperange| Some(Opts { dry_run, fideduperange });
    assert_eq!(choose_opts(false, false, false), None);
    assert_eq!(choose_opts(false, false, true), opts(false, false));
    assert_eq!(choose_opts(false, true, false), opts(false, true));
    assert_eq!(choose_opts(false, true, true), opts(false, true));
    assert_eq!(choose_opts(true, false, false), opts(true, false));
    assert_eq!(choose_opts(true, true, true), opts(true, false));
}

#[test]
fn first_definite_probe_wins() {
    let dirs = bytes(&["/ro", "/full", "/a", "/b"]);
    let mut asked = Vec::new();
    let yes = probe_fideduperange(&dirs, |d: &Vec<u8>| {
        asked.push(d.clone());
        match d.as_slice() {
            b"/a" => Ok(true),
            b"/b" => Ok(false),
            _ => Err("no space"),
        }
    });
    assert!(yes);
    assert_eq!(asked, bytes(&["/ro", "/full", "/a"]));
    assert!(!probe_fideduperange(&dirs, |_: &Vec<u8>| Ok::<bool, ()>(false)));
    assert!(!probe_fideduperange(&dirs, |_: &Vec<u8>| Err::<bool, u8>(0)));
    assert!(!probe_fideduperange(&[], |_: &Vec<u8>| Ok::<bool, ()>(true)));
}

#[test]
fn what_is_scanned() {
    let mounts = bytes(&["/tank/b", "/", "/tank", "/tank/a", "/tankard"]);
    let all = bytes(&["/", "/tank", "/tank/a", "/tank/b", "/tankard"]);
    assert_eq!(select_dirs(&mounts, &[]), all);
    let got = select_dirs(&mounts, &bytes(&["/tank", "/home/me"]));
    assert_eq!(got, bytes(&["/home/me", "/tank", "/tank/a", "/tank/b"]));
    assert_eq!(select_dirs(&mounts, &bytes(&["/tank/a/x"])), bytes(&["/tank/a/x"]));
}

#[test]
fn only_whole_datasets_are_pruned() {
    let mounts = bytes(&["/", "/tank"]);
    assert!(covers_dataset(&bytes(&["/tank"]), &mounts));
    assert!(covers_dataset(&bytes(&["/tank/"]), &mounts));
    assert!(!covers_dataset(&bytes(&["/tank", "/tank/x"]), &mounts));
}

#[test]
fn groups_by_dataset() {
    let ids = [Some(9), None, Some(2), Some(9), Some(5), Some(2)];
    assert_eq!(group_by_fsid(&ids), vec![(2, vec![2, 5]), (5, vec![4]), (9, vec![0, 3])]);
    assert!(group_by_fsid(&[]).is_empty());
}

#[test]
fn success_means_no_errors() {
    let bad = Stats { errors: 1, ..Stats::default() };
    assert!(succeeded(0, &Stats::default()));
    assert!(!succeeded(1, &Stats::default()));
    assert!(!succeeded(0, &bad));
}

// The same counts through floating point.
fn human_float(b: u64) -> String {
    let units = ["B", "KiB", "MiB", "GiB", "TiB"];
    let mut v = b as f64;
    let mut i = 0;
    while v >= 1024.0 && i < units.len() - 1 {
        v /= 1024.0;
        i += 1;
    }
    if i == 0 {
        format!("{b} B")
    } else {
        format!("{v:.1} {}", units[i])
    }
}

#[test]
fn human_counts() {
    assert_eq!(human(0), "0 B");
    assert_eq!(human(1023), "1023 B");
    assert_eq!(human(1024), "1.0 KiB");
    assert_eq!(human(1536), "1.5 KiB");
    assert_eq!(human(1_048_575), "1024.0 KiB");
    assert_eq!(human(1 << 40), "1.0 TiB");
    assert_eq!(human(u64::MAX), "16777216.0 TiB");
    // Halfway: to the even digit.
    assert_eq!(human(1280), "1.2 KiB");
    assert_eq!(human(1792), "1.8 KiB");
}

#[test]
fn human_counts_as_floats_have_them() {
    for b in 0..5000u64 {
        assert_eq!(human(b), human_float(b), "{b}");
    }
    let mut x = 0x9e3779b97f4a7c15u64;
    for i in 0..20_000u64 {
        x ^= x << 13;
        x ^= x >> 7;
        x ^= x << 17;
        let b = x >> (i % 54);
        assert_eq!(human(b), human_float(b), "{b}");
    }
    // Around the halves of tenths and the last representable bits.
    for shift in [10u32, 20, 30, 40] {
        for tenths in [105u64, 125, 175, 10235] {
            let at = ((tenths as u128) << shift) / 100;
            for b in at.saturating_sub(2)..at + 3 {
                let b = b as u64;
                assert_eq!(human(b), human_float(b), "{b}");
            }
        }
    }
    for e in 53..64u32 {
        for d in 0..2100u64 {
            let b = (1u64 << e) + d;
            assert_eq!(human(b), human_float(b), "{b}");
            assert_eq!(human(b - 2100), human_float(b - 2100));
        }
    }
}

#[test]
fn where_the_cache_is() {
    let some = |s: &str| Some(s.as_bytes().to_vec());
    assert_eq!(default_cache(some("/x"), some("/h")), b"/x/zfs-dedup/cache.redb");
    assert_eq!(default_cache(None, some("/h/")), b"/h/.cache/zfs-dedup/cache.redb");
    assert_eq!(default_cache(None, None), b"/var/cache/zfs-dedup/cache.redb");
}

#[test]
fn arguments() {
    let mut a = Args::new(b"/c".to_vec());
    assert!(!a.dry_run && !a.force && a.jobs.is_none() && a.dirs.is_empty());
    assert_eq!(a.take(Arg::Short('n')), Next::Go);
    assert!(a.dry_run && !a.force);
    assert_eq!(a.take(Arg::Long("force")), Next::Go);
    assert!(a.force);
    assert_eq!(a.take(Arg::Value(b"/tank".to_vec())), Next::Go);
    assert_eq!(a.dirs, vec![b"/tank".to_vec()]);
    assert_eq!(a.take(Arg::Long("cache")), Next::CachePath);
    assert_eq!(a.take(Arg::Short('c')), Next::CachePath);
    assert_eq!(a.take(Arg::Short('j')), Next::NumJobs);
    assert_eq!(a.take(Arg::Long("jobs")), Next::NumJobs);
    assert_eq!(a.take(Arg::Short('h')), Next::ShowUsage);
    assert_eq!(a.take(Arg::Long("help")), Next::ShowUsage);
    assert_eq!(a.take(Arg::Short('V')), Next::ShowVersion);
    assert_eq!(a.take(Arg::Long("version")), Next::ShowVersion);
    assert_eq!(a.take(Arg::Short('x')), Next::Unexpected);
    assert_eq!(a.take(Arg::Long("dry")), Next::Unexpected);
    assert_eq!(a.dirs.len(), 1);
    assert_eq!(Arg::Long("dry-run").flag(), Some(Flag::DryRun));
    assert_eq!(Arg::Value(b"n".to_vec()).flag(), None);
}

fn session(dry_run: bool, force: bool, private_ns: bool) -> Session {
    Session::new(dry_run, force, private_ns, bytes(&["/tank", "/tank/a"]), &bytes(&["/tank", "/x"]))
}

#[test]
fn a_whole_run() {
    let mut s = session(false, false, true);
    assert_eq!(s.step(), Step::CheckZfs);
    assert_eq!(s.dirs(), bytes(&["/tank", "/tank/a", "/x"]));
    assert!(!s.accepts(&Reply::Done));
    assert!(!s.accepts(&Reply::Keep(vec![true])));
    s.reply(Reply::Keep(vec![true, true, true]));
    assert_eq!(s.step(), Step::Remount);
    s.reply(Reply::Done);
    assert_eq!(s.step(), Step::CheckWritable);
    s.reply(Reply::Keep(vec![true, true, true]));
    assert_eq!(s.step(), Step::Probe);
    s.reply(Reply::Supported(true));
    assert_eq!(s.opts(), Opts { dry_run: false, fideduperange: true });
    assert_eq!(s.step(), Step::FindFsids);
    // /x lies on the dataset that is mounted at /tank.
    s.reply(Reply::Fsids(vec![Some(9), Some(5), Some(9)]));
    assert_eq!(s.step(), Step::Scan(0));
    assert_eq!((s.fsid(0), s.group_dirs(0)), (5, bytes(&["/tank/a"])));
    s.reply(Reply::Scanned { bytes: 10, errors: 0 });
    assert_eq!(s.step(), Step::Prune(0));
    s.reply(Reply::Done);
    assert_eq!(s.step(), Step::Dedup(0));
    let did = Stats { candidates: 2, verified: 1, cloned: 1, bytes: 4, mismatches: 1, errors: 0 };
    s.reply(Reply::Deduped(did));
    assert_eq!(s.step(), Step::Scan(1));
    assert_eq!((s.fsid(1), s.group_dirs(1)), (9, bytes(&["/tank", "/x"])));
    s.reply(Reply::Scanned { bytes: 20, errors: 1 });
    // A part of a dataset was scanned: nothing is pruned.
    assert_eq!(s.step(), Step::Dedup(1));
    s.reply(Reply::Deduped(did));
    assert_eq!(s.step(), Step::Compact);
    s.reply(Reply::Done);
    assert_eq!(s.step(), Step::Over(End::Finished(false)));
    assert_eq!(s.total(), 30);
    assert_eq!(s.stats().candidates, 4);
    assert_eq!(s.stats().bytes, 8);
}

#[test]
fn runs_that_do_not_start() {
    let mut s = session(false, false, false);
    s.reply(Reply::Keep(vec![false, false, true]));
    assert_eq!(s.dirs(), bytes(&["/x"]));
    assert_eq!(s.step(), Step::CheckWritable);
    s.reply(Reply::Keep(vec![false]));
    assert_eq!(s.step(), Step::Over(End::NothingToScan));

    let mut s = session(false, false, false);
    s.reply(Reply::Keep(vec![true, true, true]));
    s.reply(Reply::Keep(vec![true, true, true]));
    s.reply(Reply::Supported(false));
    assert_eq!(s.step(), Step::Over(End::NeedsForce));
}

#[test]
fn dry_runs_do_not_probe() {
    let mut s = session(true, false, false);
    s.reply(Reply::Keep(vec![true, true, true]));
    s.reply(Reply::Keep(vec![true, true, true]));
    assert_eq!(s.step(), Step::FindFsids);
    assert_eq!(s.opts(), Opts { dry_run: true, fideduperange: false });
    s.reply(Reply::Fsids(vec![None, None, None]));
    assert_eq!(s.step(), Step::Over(End::Finished(true)));
}

#[test]
fn dry_runs_leave_the_cache_alone() {
    let mut s = session(true, false, false);
    s.reply(Reply::Keep(vec![true, true, true]));
    s.reply(Reply::Keep(vec![true, true, true]));
    s.reply(Reply::Fsids(vec![Some(1), Some(2), None]));
    for g in 0..2 {
        assert_eq!(s.step(), Step::Scan(g));
        // The group is a whole dataset, and yet nothing is pruned.
        s.reply(Reply::Scanned { bytes: 1, errors: g });
        assert_eq!(s.step(), Step::Dedup(g));
        assert!(s.opts().dry_run);
        s.reply(Reply::Deduped(Stats::default()));
    }
    // Nor is the cache compacted.
    assert_eq!(s.step(), Step::Over(End::Finished(false)));
}

#[test]
fn how_the_cache_is_used() {
    assert_eq!(cache_use(false, true), CacheUse::Write);
    assert_eq!(cache_use(false, false), CacheUse::Write);
    assert_eq!(cache_use(true, true), CacheUse::ReadOnly);
    assert_eq!(cache_use(true, false), CacheUse::Scratch);
}

#[test]
fn sums_that_do_not_fit_are_not_accepted() {
    let mut s = session(true, false, false);
    s.reply(Reply::Keep(vec![true, true, true]));
    s.reply(Reply::Keep(vec![true, true, true]));
    s.reply(Reply::Fsids(vec![Some(1), Some(2), None]));
    s.reply(Reply::Scanned { bytes: u64::MAX, errors: 0 });
    s.reply(Reply::Deduped(Stats::default()));
    assert_eq!(s.step(), Step::Scan(1));
    assert!(!s.accepts(&Reply::Scanned { bytes: 1, errors: 0 }));
    assert!(s.accepts(&Reply::Scanned { bytes: 0, errors: 7 }));
}
