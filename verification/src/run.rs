//! The decisions of a run: what to scan, whether to go ahead, what to prune,
//! and what to report.

use crate::bloom;
use crate::bloom::Bloom;
use crate::cache;
use crate::dedup;
use crate::dedup::{Cause, Opts, Stats};
use crate::dirs;
use crate::hasher::Hashed;
use crate::path;
use crate::text;
use vstd::prelude::*;

verus! {

/// The low 64 bits of a product.
pub open spec fn times(a: u64, b: u64) -> u64 {
    ((a * b) % 0x1_0000_0000_0000_0000) as u64
}

/// `x` with its halves swapped.
pub open spec fn swap_halves(x: u64) -> u64 {
    ((x % 0x1_0000_0000) * 0x1_0000_0000 + x / 0x1_0000_0000) as u64
}

/// The bits of `k` mixed, so that close numbers scatter.
pub open spec fn mixed(k: u64) -> u64 {
    let a = times(k ^ (k >> 30), 0xbf58_476d_1ce4_e5b9);
    let b = times(a ^ (a >> 27), 0x94d0_49bb_1331_11eb);
    b ^ (b >> 31)
}

/// A file's key in the filter of files that a scan has seen.
pub open spec fn file_key(fsid: u64, ino: u64) -> u64 {
    mixed(swap_halves(fsid) ^ ino)
}

/// A file's key in the filter of files that a scan has seen.
pub fn prune_key(fsid: u64, ino: u64) -> (r: u64)
    ensures
        r == file_key(fsid, ino),
{
    assert((fsid << 32) | (fsid >> 32) == (fsid % 0x1_0000_0000) * 0x1_0000_0000 + fsid
        / 0x1_0000_0000) by (bit_vector);
    let k: u64 = ((fsid << 32) | (fsid >> 32)) ^ ino;
    let a: u64 = (k ^ (k >> 30)).wrapping_mul(0xbf58_476d_1ce4_e5b9);
    let b: u64 = (a ^ (a >> 27)).wrapping_mul(0x94d0_49bb_1331_11eb);
    b ^ (b >> 31)
}

/// What a scan of one dataset has seen. A filter is enough: a file that it
/// wrongly takes for seen keeps a stale cache entry for one run more.
pub struct Tally {
    seen: Bloom,
    hits: usize,
    errors: usize,
    keys: Ghost<Seq<u64>>,
}

impl Tally {
    /// What every operation keeps.
    pub closed spec fn wf(self) -> bool {
        self.seen@ == bloom::after_inserts(self.keys@, self.seen.size())
    }

    /// The keys of the files that were hashed, in order.
    pub closed spec fn keys(self) -> Seq<u64> {
        self.keys@
    }

    /// The size of the filter.
    pub closed spec fn size(self) -> nat {
        self.seen.size()
    }

    /// How many of the files had their hashes in the cache.
    pub closed spec fn n_hits(self) -> nat {
        self.hits as nat
    }

    /// How many files could not be hashed.
    pub closed spec fn n_errors(self) -> nat {
        self.errors as nat
    }

    /// The start of a scan of `n_files` files.
    pub fn new(n_files: u64) -> (r: Tally)
        requires
            n_files * bloom::BITS_PER_KEY <= 0x8000_0000_0000_0000,
            n_files * bloom::BITS_PER_KEY <= 32 * usize::MAX,
        ensures
            r.wf(),
            r.keys() == Seq::<u64>::empty(),
            bloom::is_filter_size(r.size(), n_files as nat),
            r.n_hits() == 0,
            r.n_errors() == 0,
    {
        Tally { seen: Bloom::new(n_files), hits: 0, errors: 0, keys: Ghost(Seq::empty()) }
    }

    /// Notes a file that was hashed.
    pub fn hashed(&mut self, h: &Hashed)
        requires
            old(self).wf(),
            old(self).n_hits() < usize::MAX,
        ensures
            final(self).wf(),
            final(self).keys() == old(self).keys().push(file_key(h.stat.fsid, h.stat.ino)),
            final(self).size() == old(self).size(),
            final(self).n_hits() == old(self).n_hits() + if h.from_cache {
                1int
            } else {
                0int
            },
            final(self).n_errors() == old(self).n_errors(),
    {
        let key: u64 = prune_key(h.stat.fsid, h.stat.ino);
        self.seen.insert(key);
        if h.from_cache {
            self.hits = self.hits + 1;
        }
        proof {
            let before = self.keys@;
            self.keys@ = before.push(key);
            assert(self.keys@.drop_last() =~= before);
        }
    }

    /// Notes a file that could not be hashed; whether to report it. Files vanish
    /// while a scan runs: that is no error.
    pub fn failed(&mut self, causes: &[Cause]) -> (report: bool)
        requires
            old(self).wf(),
            old(self).n_errors() < usize::MAX,
        ensures
            final(self).wf(),
            report == !dedup::says_gone(causes@),
            final(self).keys() == old(self).keys(),
            final(self).size() == old(self).size(),
            final(self).n_hits() == old(self).n_hits(),
            final(self).n_errors() == old(self).n_errors() + if report {
                1int
            } else {
                0int
            },
    {
        if dedup::is_not_found(causes) {
            return false;
        }
        self.errors = self.errors + 1;
        true
    }

    /// Whether the scan may have seen a file; it says so of every file that it has.
    pub fn saw(&self, fsid: u64, ino: u64) -> (r: bool)
        requires
            self.wf(),
        ensures
            r == bloom::holds(
                bloom::after_inserts(self.keys(), self.size()),
                self.size(),
                file_key(fsid, ino),
            ),
            self.keys().contains(file_key(fsid, ino)) ==> r,
    {
        proof {
            if self.keys().contains(file_key(fsid, ino)) {
                bloom::no_false_negatives(self.keys(), self.size(), file_key(fsid, ino));
            }
        }
        self.seen.contains(prune_key(fsid, ino))
    }

    /// How many of the files had their hashes in the cache.
    pub fn hits(&self) -> (r: usize)
        ensures
            r == self.n_hits(),
    {
        self.hits
    }

    /// How many files could not be hashed.
    pub fn errors(&self) -> (r: usize)
        ensures
            r == self.n_errors(),
    {
        self.errors
    }
}

/// Pruning after a scan keeps the cache entry of every file that the scan
/// hashed.
pub proof fn hashed_files_survive(tally: Tally, fsids: Set<u64>, h: Hashed)
    requires
        tally.keys().contains(file_key(h.stat.fsid, h.stat.ino)),
    ensures
        cache::survives(
            fsids,
            h.stat.fsid,
            bloom::holds(
                bloom::after_inserts(tally.keys(), tally.size()),
                tally.size(),
                file_key(h.stat.fsid, h.stat.ino),
            ),
        ),
{
    bloom::no_false_negatives(tally.keys(), tally.size(), file_key(h.stat.fsid, h.stat.ino));
}

/// The number of bytes in files.
pub open spec fn size_of_files<P>(files: Seq<(P, Hashed)>) -> nat
    decreases files.len(),
{
    if files.len() == 0 {
        0
    } else {
        size_of_files(files.drop_last()) + files.last().1.stat.size as nat
    }
}

proof fn lemma_size_of_files<P>(files: Seq<(P, Hashed)>, n: nat)
    requires
        n <= files.len(),
    ensures
        size_of_files(files.subrange(0, n as int)) <= size_of_files(files),
    decreases files.len(),
{
    if n == files.len() {
        assert(files.subrange(0, n as int) =~= files);
    } else {
        lemma_size_of_files(files.drop_last(), n);
        assert(files.drop_last().subrange(0, n as int) =~= files.subrange(0, n as int));
    }
}

/// The number of bytes in files; `None` if it does not fit.
pub fn group_total<P>(files: &[(P, Hashed)]) -> (r: Option<u64>)
    ensures
        match r {
            Some(n) => n == size_of_files(files@),
            None => size_of_files(files@) > u64::MAX,
        },
{
    let mut total: u64 = 0;
    let mut i: usize = 0;
    while i < files.len()
        invariant
            i <= files@.len(),
            total == size_of_files(files@.subrange(0, i as int)),
        decreases files@.len() - i,
    {
        let ghost part = files@.subrange(0, i + 1);
        assert(part.drop_last() =~= files@.subrange(0, i as int));
        assert(part.last() == files@[i as int]);
        match total.checked_add(files[i].1.stat.size) {
            Some(n) => total = n,
            None => {
                proof {
                    lemma_size_of_files(files@, (i + 1) as nat);
                }
                return None;
            },
        }
        i = i + 1;
    }
    assert(files@.subrange(0, files@.len() as int) =~= files@);
    Some(total)
}

/// How a run uses the cache file.
#[derive(Debug, Clone, Copy, PartialEq, Eq, Structural)]
pub enum CacheUse {
    /// It is opened for writing, and made where there is none.
    Write,
    /// It is read; what is new goes to a scratch file.
    ReadOnly,
    /// It is left alone; what is new goes to a scratch file.
    Scratch,
}

/// How a run uses the cache file, which may exist. A dry run neither makes nor
/// changes it.
pub fn cache_use(dry_run: bool, exists: bool) -> (r: CacheUse)
    ensures
        r == (if !dry_run {
            CacheUse::Write
        } else if exists {
            CacheUse::ReadOnly
        } else {
            CacheUse::Scratch
        }),
{
    if !dry_run {
        CacheUse::Write
    } else if exists {
        CacheUse::ReadOnly
    } else {
        CacheUse::Scratch
    }
}

/// Whether a run that was asked for may go ahead, and how. `supported` says
/// whether the kernel can compare and clone in one operation. Where it cannot, a
/// write between the comparison and the clone is lost, so the run needs `force`.
pub fn choose_opts(dry_run: bool, supported: bool, force: bool) -> (r: Option<Opts>)
    ensures
        r is None <==> !dry_run && !supported && !force,
        r is Some ==> r->0 == (Opts { dry_run, fideduperange: !dry_run && supported }),
        r is Some && !r->0.dry_run && !r->0.fideduperange ==> force,
{
    let fideduperange = !dry_run && supported;
    if !dry_run && !fideduperange && !force {
        None
    } else {
        Some(Opts { dry_run, fideduperange })
    }
}

/// Whether `replies` are what `probe` answered on the first of `dirs`, with no
/// answer before the last.
pub open spec fn probed<E, F: FnMut(&Vec<u8>) -> Result<bool, E>>(
    probe: F,
    dirs: Seq<Vec<u8>>,
    replies: Seq<Result<bool, E>>,
) -> bool {
    &&& replies.len() <= dirs.len()
    &&& forall|i: int| 0 <= i < replies.len() ==> probe.ensures((&dirs[i],), #[trigger] replies[i])
    &&& forall|i: int| 0 <= i < replies.len() - 1 ==> #[trigger] replies[i] is Err
}

/// The first answer that `probe` gives on one of `dirs`; no, if it gives none.
/// The answer is the kernel's and the same everywhere, so a directory that
/// cannot be probed is no reason to stop.
pub fn probe_fideduperange<E, F: FnMut(&Vec<u8>) -> Result<bool, E>>(dirs: &[Vec<u8>], probe: F) -> (r:
    bool)
    requires
        forall|i: int| 0 <= i < dirs@.len() ==> probe.requires((&#[trigger] dirs@[i],)),
    ensures
        exists|replies: Seq<Result<bool, E>>| #[trigger]
            probed(probe, dirs@, replies) && (replies.len() == dirs@.len() || (replies.len() > 0
                && replies.last() is Ok)) && r == (replies.len() > 0 && replies.last() == Ok::<
                bool,
                E,
            >(true)),
{
    let mut ask = probe;
    let ghost mut replies: Seq<Result<bool, E>> = Seq::empty();
    let mut i: usize = 0;
    while i < dirs.len()
        invariant
            i <= dirs@.len(),
            ask == probe,
            forall|j: int| 0 <= j < dirs@.len() ==> probe.requires((&#[trigger] dirs@[j],)),
            replies.len() == i,
            probed(probe, dirs@, replies),
            forall|j: int| 0 <= j < replies.len() ==> #[trigger] replies[j] is Err,
        decreases dirs@.len() - i,
    {
        let reply = ask(&dirs[i]);
        proof {
            let before = replies;
            replies = replies.push(reply);
            assert forall|j: int| 0 <= j < replies.len() implies probe.ensures(
                (&dirs@[j],),
                #[trigger] replies[j],
            ) by {
                if j < before.len() {
                    assert(replies[j] == before[j]);
                }
            }
            assert forall|j: int| 0 <= j < replies.len() - 1 implies #[trigger] replies[j] is Err by {
                assert(replies[j] == before[j]);
            }
            assert(probed(probe, dirs@, replies));
        }
        if let Ok(answer) = reply {
            return answer;
        }
        i = i + 1;
    }
    false
}

/// Whether a scan asked for `roots` covers the directory `m`: all mounts if no
/// root was given, else each root and the mounts under it.
pub open spec fn covers(mounts: Seq<Vec<u8>>, roots: Seq<Vec<u8>>, m: path::Route) -> bool {
    if roots.len() == 0 {
        dirs::found_in(mounts, m)
    } else {
        exists|i: int| 0 <= i < roots.len() && covers_under(mounts, #[trigger] roots[i]@, m)
    }
}

/// Whether a scan of `root` covers the directory `m`.
pub open spec fn covers_under(mounts: Seq<Vec<u8>>, root: Seq<u8>, m: path::Route) -> bool {
    m == path::route(root) || (dirs::found_in(mounts, m) && path::within(m, path::route(root)))
}

/// Adds the mounts at or under `root`; all of them if there is none.
fn add_mounts(dirs: &mut Vec<Vec<u8>>, mounts: &[Vec<u8>], root: Option<&[u8]>)
    requires
        dirs::sorted(old(dirs)@),
    ensures
        dirs::sorted(final(dirs)@),
        forall|m: path::Route| #[trigger]
            dirs::found_in(final(dirs)@, m) == (dirs::found_in(old(dirs)@, m) || (dirs::found_in(
                mounts@,
                m,
            ) && (root is Some ==> path::within(m, path::route(root->0@))))),
{
    let ghost was = dirs@;
    let mut i: usize = 0;
    while i < mounts.len()
        invariant
            i <= mounts@.len(),
            dirs::sorted(dirs@),
            forall|m: path::Route| #[trigger]
                dirs::found_in(dirs@, m) == (dirs::found_in(was, m) || (dirs::found_in(
                    mounts@.subrange(0, i as int),
                    m,
                ) && (root is Some ==> path::within(m, path::route(root->0@))))),
        decreases mounts@.len() - i,
    {
        let ghost part = mounts@.subrange(0, i as int);
        let ghost next = mounts@.subrange(0, i + 1);
        let ghost r = path::route(mounts@[i as int]@);
        assert forall|m: path::Route| #[trigger] dirs::found_in(next, m) == (dirs::found_in(part, m)
            || m == r) by {
            if dirs::found_in(part, m) {
                let j = choose|j: int| 0 <= j < part.len() && path::route((#[trigger] part[j])@) == m;
                assert(next[j] == part[j]);
            }
            if m == r {
                assert(next[i as int] == mounts@[i as int]);
            }
            if dirs::found_in(next, m) && m != r {
                let j = choose|j: int| 0 <= j < next.len() && path::route((#[trigger] next[j])@) == m;
                assert(part[j] == next[j]);
            }
        }
        let mount: &[u8] = mounts[i].as_slice();
        let wanted = match root {
            Some(base) => path::starts_with(mount, base),
            None => true,
        };
        if wanted {
            dirs::insert(dirs, text::copy(mount));
        }
        i = i + 1;
    }
    assert(mounts@.subrange(0, mounts@.len() as int) =~= mounts@);
}

/// The directories to scan, sorted. A dataset is a mount of its own and a walk
/// stops at mounts, so the mounts under a root have to be named beside it.
pub fn select_dirs(mounts: &[Vec<u8>], roots: &[Vec<u8>]) -> (r: Vec<Vec<u8>>)
    ensures
        dirs::sorted(r@),
        forall|m: path::Route| #[trigger] dirs::found_in(r@, m) == covers(mounts@, roots@, m),
        forall|i: int, j: int|
            0 <= i < mounts@.len() && 0 <= j < roots@.len() && path::within(
                path::route((#[trigger] mounts@[i])@),
                path::route((#[trigger] roots@[j])@),
            ) ==> dirs::found_in(r@, path::route(mounts@[i]@)),
{
    let mut out: Vec<Vec<u8>> = Vec::new();
    if roots.len() == 0 {
        add_mounts(&mut out, mounts, None);
        return out;
    }
    let mut i: usize = 0;
    while i < roots.len()
        invariant
            i <= roots@.len(),
            dirs::sorted(out@),
            forall|m: path::Route| #[trigger]
                dirs::found_in(out@, m) == exists|j: int|
                    0 <= j < i && covers_under(mounts@, #[trigger] roots@[j]@, m),
        decreases roots@.len() - i,
    {
        let ghost was = out@;
        add_mounts(&mut out, mounts, Some(roots[i].as_slice()));
        dirs::insert(&mut out, text::copy(roots[i].as_slice()));
        proof {
            assert forall|m: path::Route| #[trigger] dirs::found_in(out@, m) == (exists|j: int|
                0 <= j < i + 1 && covers_under(mounts@, #[trigger] roots@[j]@, m)) by {
                assert(dirs::found_in(was, m) == exists|j: int|
                    0 <= j < i && covers_under(mounts@, #[trigger] roots@[j]@, m));
                assert(covers_under(mounts@, roots@[i as int]@, m) ==> dirs::found_in(out@, m));
            }
        }
        i = i + 1;
    }
    proof {
        mounts_under_roots_are_scanned(mounts@, roots@, out@);
    }
    out
}

/// Whether `group` are all mounts, so that a scan of them covers their dataset
/// in full. What a scan of less did not see must not be pruned.
pub fn covers_dataset(group: &[Vec<u8>], mounts: &[Vec<u8>]) -> (r: bool)
    ensures
        r == forall|i: int|
            0 <= i < group@.len() ==> dirs::found_in(mounts@, path::route((#[trigger] group@[i])@)),
{
    let mut i: usize = 0;
    while i < group.len()
        invariant
            i <= group@.len(),
            forall|j: int|
                0 <= j < i ==> dirs::found_in(mounts@, path::route((#[trigger] group@[j])@)),
        decreases group@.len() - i,
    {
        if !dirs::contains(mounts, group[i].as_slice()) {
            assert(!dirs::found_in(mounts@, path::route(group@[i as int]@)));
            return false;
        }
        i = i + 1;
    }
    true
}

/// Whether a run that ended left nothing undone.
pub fn succeeded(hash_errors: usize, stats: &Stats) -> (r: bool)
    ensures
        r == (hash_errors == 0 && stats.errors == 0),
{
    hash_errors == 0 && stats.errors == 0
}

/// The places in `ids` at which `id` stands.
pub open spec fn places(ids: Seq<Option<u64>>, id: u64) -> Seq<usize>
    decreases ids.len(),
{
    if ids.len() == 0 {
        Seq::empty()
    } else if ids.last() == Some(id) {
        places(ids.drop_last(), id).push((ids.len() - 1) as usize)
    } else {
        places(ids.drop_last(), id)
    }
}

/// Whether `groups` are the ids that stand in `ids`, sorted, each with its places.
pub open spec fn are_groups(groups: Seq<(u64, Vec<usize>)>, ids: Seq<Option<u64>>) -> bool {
    &&& forall|i: int, j: int|
        0 <= i < j < groups.len() ==> (#[trigger] groups[i]).0 < (#[trigger] groups[j]).0
    &&& forall|i: int|
        0 <= i < groups.len() ==> (#[trigger] groups[i]).1@ == places(ids, groups[i].0)
    &&& forall|id: u64| #[trigger] places(ids, id).len() > 0 <==> grouped(groups, id)
}

/// Whether there is a group of `id`.
pub open spec fn grouped(groups: Seq<(u64, Vec<usize>)>, id: u64) -> bool {
    exists|i: int| 0 <= i < groups.len() && (#[trigger] groups[i]).0 == id
}

/// Directories by dataset: nothing can be cloned from one dataset into another,
/// so each is scanned by itself. `ids` are the ids of the datasets, `None` for a
/// directory that has none; a group holds places in it.
pub fn group_by_fsid(ids: &[Option<u64>]) -> (r: Vec<(u64, Vec<usize>)>)
    ensures
        are_groups(r@, ids@),
{
    let mut groups: Vec<(u64, Vec<usize>)> = Vec::new();
    let mut i: usize = 0;
    assert(ids@.subrange(0, 0) =~= Seq::empty());
    while i < ids.len()
        invariant
            i <= ids@.len(),
            are_groups(groups@, ids@.subrange(0, i as int)),
        decreases ids@.len() - i,
    {
        let ghost part = ids@.subrange(0, i as int);
        let ghost next = ids@.subrange(0, i + 1);
        assert(next.drop_last() =~= part);
        assert(next.last() == ids@[i as int]);
        if let Some(id) = ids[i] {
            let ghost was = groups@;
            let mut n: usize = 0;
            while n < groups.len() && groups[n].0 < id
                invariant
                    n <= groups@.len(),
                    forall|j: int| 0 <= j < n ==> (#[trigger] groups@[j]).0 < id,
                decreases groups@.len() - n,
            {
                n = n + 1;
            }
            if n < groups.len() && groups[n].0 == id {
                groups[n].1.push(i);
                proof {
                    let now = groups@;
                    assert forall|j: int| 0 <= j < now.len() implies (#[trigger] now[j]).0
                        == was[j].0 && now[j].1@ == places(next, now[j].0) by {
                        if j != n {
                            assert(was[j].0 != was[n as int].0);
                        }
                    }
                    assert forall|x: u64| #[trigger] places(next, x).len() > 0 <==> grouped(now, x) by {
                        assert(places(part, x).len() > 0 <==> grouped(was, x));
                        if grouped(was, x) {
                            let j = choose|j: int| 0 <= j < was.len() && (#[trigger] was[j]).0 == x;
                            assert(now[j].0 == x);
                        }
                        if grouped(now, x) {
                            let j = choose|j: int| 0 <= j < now.len() && (#[trigger] now[j]).0 == x;
                            assert(was[j].0 == x);
                        }
                    }
                }
            } else {
                proof {
                    if grouped(was, id) {
                        let j = choose|j: int| 0 <= j < was.len() && (#[trigger] was[j]).0 == id;
                        assert(j >= n);
                        if j > n {
                            assert(was[n as int].0 < was[j].0);
                        }
                    }
                    assert(places(part, id).len() == 0);
                }
                let mut one: Vec<usize> = Vec::new();
                one.push(i);
                groups.insert(n, (id, one));
                proof {
                    let now = groups@;
                    assert(now =~= was.insert(n as int, now[n as int]));
                    assert(now[n as int].1@ =~= places(next, id));
                    assert forall|a: int| 0 <= a < now.len() && a != n implies #[trigger] now[a]
                        == was[if a < n { a } else { a - 1 }] by {}
                    assert forall|a: int, b: int| 0 <= a < b < now.len() implies (#[trigger] now[a]).0
                        < (#[trigger] now[b]).0 by {
                        let x = if a < n { a } else { a - 1 };
                        let y = if b < n { b } else { b - 1 };
                        if a == n {
                            assert(now[b] == was[y]);
                            assert(was[n as int].0 >= id);
                        } else if b == n {
                            assert(now[a] == was[x]);
                        } else {
                            assert(was[x].0 < was[y].0);
                        }
                    }
                    assert forall|j: int| 0 <= j < now.len() implies (#[trigger] now[j]).1@ == places(
                        next,
                        now[j].0,
                    ) by {
                        if j != n {
                            let x = if j < n { j } else { j - 1 };
                            assert(was[x].1@ == places(part, was[x].0));
                            assert(grouped(was, was[x].0));
                        }
                    }
                    assert forall|x: u64| #[trigger] places(next, x).len() > 0 <==> grouped(now, x) by {
                        assert(places(part, x).len() > 0 <==> grouped(was, x));
                        if grouped(was, x) {
                            let j = choose|j: int| 0 <= j < was.len() && (#[trigger] was[j]).0 == x;
                            let k = if j < n { j } else { j + 1 };
                            assert(now[k].0 == x);
                        }
                        if x == id {
                            assert(now[n as int].0 == x);
                        }
                        if grouped(now, x) && x != id {
                            let k = choose|k: int| 0 <= k < now.len() && (#[trigger] now[k]).0 == x;
                            let j = if k < n { k } else { k - 1 };
                            assert(was[j].0 == x);
                        }
                    }
                }
            }
        } else {
            assert forall|x: u64| #[trigger] places(next, x) == places(part, x) by {}
        }
        i = i + 1;
    }
    assert(ids@.subrange(0, ids@.len() as int) =~= ids@);
    groups
}

/// A mount is scanned if it lies at or under one of the roots, however deep; a
/// root is scanned itself; without roots every mount is. Nothing else is scanned.
pub proof fn mounts_under_roots_are_scanned(
    mounts: Seq<Vec<u8>>,
    roots: Seq<Vec<u8>>,
    dirs: Seq<Vec<u8>>,
)
    requires
        forall|m: path::Route| #[trigger] dirs::found_in(dirs, m) == covers(mounts, roots, m),
    ensures
        forall|i: int, j: int|
            0 <= i < mounts.len() && 0 <= j < roots.len() && path::within(
                path::route((#[trigger] mounts[i])@),
                path::route((#[trigger] roots[j])@),
            ) ==> dirs::found_in(dirs, path::route(mounts[i]@)),
        forall|j: int|
            0 <= j < roots.len() ==> dirs::found_in(dirs, path::route((#[trigger] roots[j])@)),
        roots.len() == 0 ==> forall|i: int|
            0 <= i < mounts.len() ==> dirs::found_in(dirs, path::route((#[trigger] mounts[i])@)),
        forall|m: path::Route| #[trigger]
            dirs::found_in(dirs, m) ==> {
                ||| exists|j: int| 0 <= j < roots.len() && path::route((#[trigger] roots[j])@) == m
                ||| exists|i: int|
                    0 <= i < mounts.len() && path::route((#[trigger] mounts[i])@) == m && (roots.len()
                        == 0 || exists|j: int|
                        0 <= j < roots.len() && path::within(m, path::route((#[trigger] roots[j])@)))
            },
{
    assert forall|i: int, j: int|
        0 <= i < mounts.len() && 0 <= j < roots.len() && path::within(
            path::route((#[trigger] mounts[i])@),
            path::route((#[trigger] roots[j])@),
        ) implies dirs::found_in(dirs, path::route(mounts[i]@)) by {
        let m = path::route(mounts[i]@);
        assert(dirs::found_in(mounts, m));
        assert(covers_under(mounts, roots[j]@, m));
        assert(covers(mounts, roots, m));
    }
    assert forall|j: int| 0 <= j < roots.len() implies dirs::found_in(
        dirs,
        path::route((#[trigger] roots[j])@),
    ) by {
        assert(covers_under(mounts, roots[j]@, path::route(roots[j]@)));
    }
    if roots.len() == 0 {
        assert forall|i: int| 0 <= i < mounts.len() implies dirs::found_in(
            dirs,
            path::route((#[trigger] mounts[i])@),
        ) by {
            assert(dirs::found_in(mounts, path::route(mounts[i]@)));
        }
    }
}

/// Where the roots lead to the same places, the same is scanned, whatever their
/// order and number.
pub proof fn equal_roots_scan_alike(
    mounts: Seq<Vec<u8>>,
    a: Seq<Vec<u8>>,
    b: Seq<Vec<u8>>,
    m: path::Route,
)
    requires
        a.len() > 0,
        b.len() > 0,
        forall|r: path::Route| #[trigger] dirs::found_in(a, r) == dirs::found_in(b, r),
    ensures
        covers(mounts, a, m) == covers(mounts, b, m),
{
    if covers(mounts, a, m) {
        let i = choose|i: int| 0 <= i < a.len() && covers_under(mounts, #[trigger] a[i]@, m);
        let r = path::route(a[i]@);
        assert(dirs::found_in(a, r));
        assert(dirs::found_in(b, r));
        let j = choose|j: int| 0 <= j < b.len() && path::route((#[trigger] b[j])@) == r;
        assert(covers_under(mounts, b[j]@, m));
    }
    if covers(mounts, b, m) {
        let i = choose|i: int| 0 <= i < b.len() && covers_under(mounts, #[trigger] b[i]@, m);
        let r = path::route(b[i]@);
        assert(dirs::found_in(b, r));
        assert(dirs::found_in(a, r));
        let j = choose|j: int| 0 <= j < a.len() && path::route((#[trigger] a[j])@) == r;
        assert(covers_under(mounts, a[j]@, m));
    }
}

pub(crate) proof fn lemma_times_back(a: u64, b: u64, c: u64, k: int)
    requires
        b * c == 1 + k * 0x1_0000_0000_0000_0000,
    ensures
        times(times(a, b), c) == a,
{
    let m: int = 0x1_0000_0000_0000_0000;
    vstd::arithmetic::div_mod::lemma_mod_bound(a * b, m);
    vstd::arithmetic::div_mod::lemma_mul_mod_noop_left(a * b, c as int, m);
    assert((a * b) * c == a + (a * k) * m) by (nonlinear_arith)
        requires
            b * c == 1 + k * m,
    ;
    vstd::arithmetic::div_mod::lemma_mod_multiples_vanish(a * k, a as int, m);
    assert(m * (a * k) + a == a + (a * k) * m) by (nonlinear_arith);
    vstd::arithmetic::div_mod::lemma_small_mod(a as nat, m as nat);
}

/// Mixing loses nothing.
proof fn lemma_mixed_differ(a: u64, b: u64)
    requires
        mixed(a) == mixed(b),
    ensures
        a == b,
{
    let c1: u64 = 0xbf58_476d_1ce4_e5b9;
    let c2: u64 = 0x94d0_49bb_1331_11eb;
    let d1: u64 = 0x96de_1b17_3f11_9089;
    let d2: u64 = 0x3196_42b2_d24d_8ec3;
    assert(c1 * d1 == 1 + 8125545580553827436int * 0x1_0000_0000_0000_0000) by (nonlinear_arith)
        requires
            c1 == 0xbf58_476d_1ce4_e5b9,
            d1 == 0x96de_1b17_3f11_9089,
    ;
    assert(c2 * d2 == 1 + 2077064247507883091int * 0x1_0000_0000_0000_0000) by (nonlinear_arith)
        requires
            c2 == 0x94d0_49bb_1331_11eb,
            d2 == 0x3196_42b2_d24d_8ec3,
    ;
    let xa: u64 = a ^ (a >> 30);
    let xb: u64 = b ^ (b >> 30);
    let ya: u64 = times(xa, c1);
    let yb: u64 = times(xb, c1);
    let za: u64 = ya ^ (ya >> 27);
    let zb: u64 = yb ^ (yb >> 27);
    let wa: u64 = times(za, c2);
    let wb: u64 = times(zb, c2);
    assert(wa == wb) by (bit_vector)
        requires
            wa ^ (wa >> 31) == wb ^ (wb >> 31),
    ;
    lemma_times_back(za, c2, d2, 2077064247507883091);
    lemma_times_back(zb, c2, d2, 2077064247507883091);
    assert(ya == yb) by (bit_vector)
        requires
            ya ^ (ya >> 27) == yb ^ (yb >> 27),
    ;
    lemma_times_back(xa, c1, d1, 8125545580553827436);
    lemma_times_back(xb, c1, d1, 8125545580553827436);
    assert(a == b) by (bit_vector)
        requires
            a ^ (a >> 30) == b ^ (b >> 30),
    ;
}

proof fn lemma_swap_halves(x: u64)
    ensures
        swap_halves(x) == (x << 32) | (x >> 32),
{
    assert((x << 32) | (x >> 32) == (x % 0x1_0000_0000) * 0x1_0000_0000 + x / 0x1_0000_0000)
        by (bit_vector);
}

/// Files differ in their keys: no two files of one dataset share one, nor do two
/// files of one number in different datasets, nor, as long as the ids and numbers
/// fit 32 bits, any two files.
pub proof fn files_have_their_own_keys(fsid: u64, ino: u64, fsid2: u64, ino2: u64)
    requires
        (fsid, ino) != (fsid2, ino2),
        fsid == fsid2 || ino == ino2 || (fsid < 0x1_0000_0000 && fsid2 < 0x1_0000_0000 && ino
            < 0x1_0000_0000 && ino2 < 0x1_0000_0000),
    ensures
        file_key(fsid, ino) != file_key(fsid2, ino2),
{
    if file_key(fsid, ino) == file_key(fsid2, ino2) {
        lemma_swap_halves(fsid);
        lemma_swap_halves(fsid2);
        lemma_mixed_differ(swap_halves(fsid) ^ ino, swap_halves(fsid2) ^ ino2);
        assert(fsid == fsid2 && ino == ino2) by (bit_vector)
            requires
                ((fsid << 32) | (fsid >> 32)) ^ ino == ((fsid2 << 32) | (fsid2 >> 32)) ^ ino2,
                fsid == fsid2 || ino == ino2 || (fsid < 0x1_0000_0000 && fsid2 < 0x1_0000_0000
                    && ino < 0x1_0000_0000 && ino2 < 0x1_0000_0000),
        ;
    }
}

/// Each file adds its size to the total.
pub proof fn sizes_add_up<P>(files: Seq<(P, Hashed)>, more: Seq<(P, Hashed)>, f: (P, Hashed))
    ensures
        size_of_files(Seq::<(P, Hashed)>::empty()) == 0,
        size_of_files(files.push(f)) == size_of_files(files) + f.1.stat.size,
        size_of_files(files + more) == size_of_files(files) + size_of_files(more),
    decreases more.len(),
{
    assert(files.push(f).drop_last() =~= files);
    if more.len() == 0 {
        assert(files + more =~= files);
    } else {
        sizes_add_up(files, more.drop_last(), f);
        assert((files + more).drop_last() =~= files + more.drop_last());
        assert((files + more).last() == more.last());
    }
}

/// Directories are asked in order, until one of them answers.
pub proof fn probing_stops_at_an_answer<E, F: FnMut(&Vec<u8>) -> Result<bool, E>>(
    probe: F,
    dirs: Seq<Vec<u8>>,
    replies: Seq<Result<bool, E>>,
    i: int,
)
    requires
        probed(probe, dirs, replies),
        0 <= i < replies.len(),
    ensures
        i < dirs.len(),
        probe.ensures((&dirs[i],), replies[i]),
        replies[i] is Ok ==> i == replies.len() - 1,
{
}

/// The places of an id are all indices at which it stands, from first to last.
pub proof fn places_are_complete(ids: Seq<Option<u64>>, id: u64)
    requires
        ids.len() <= usize::MAX,
    ensures
        forall|k: usize| #[trigger]
            places(ids, id).contains(k) <==> k < ids.len() && ids[k as int] == Some(id),
        forall|a: int, b: int|
            0 <= a < b < places(ids, id).len() ==> #[trigger] places(ids, id)[a] < #[trigger] places(
                ids,
                id,
            )[b],
    decreases ids.len(),
{
    let all = places(ids, id);
    if ids.len() > 0 {
        let less = ids.drop_last();
        let rest = places(less, id);
        places_are_complete(less, id);
        let last = (ids.len() - 1) as usize;
        assert forall|k: usize| #[trigger] all.contains(k) <==> k < ids.len() && ids[k as int]
            == Some(id) by {
            assert(rest.contains(k) <==> k < less.len() && less[k as int] == Some(id));
            if rest.contains(k) {
                let j = choose|j: int| 0 <= j < rest.len() && rest[j] == k;
                assert(all[j] == k);
            }
            if all.contains(k) && k != last {
                let j = choose|j: int| 0 <= j < all.len() && all[j] == k;
                assert(rest[j] == k);
            }
            if k == last && ids.last() == Some(id) {
                assert(all[all.len() - 1] == k);
            }
        }
        assert forall|a: int, b: int| 0 <= a < b < all.len() implies #[trigger] all[a]
            < #[trigger] all[b] by {
            assert(all[a] == rest[a]);
            assert(rest.contains(rest[a]));
            if b < rest.len() {
                assert(all[b] == rest[b]);
            }
        }
    }
}

/// Each directory of a dataset is in the group of that dataset and in no other,
/// groups hold nothing else and are not empty, and no dataset has two.
pub proof fn directories_are_grouped_once(
    groups: Seq<(u64, Vec<usize>)>,
    ids: Seq<Option<u64>>,
)
    requires
        ids.len() <= usize::MAX,
        are_groups(groups, ids),
    ensures
        forall|k: int|
            0 <= k < ids.len() && #[trigger] ids[k] is Some ==> exists|g: int|
                0 <= g < groups.len() && (#[trigger] groups[g]).0 == ids[k]->Some_0,
        forall|g: int, k: usize|
            0 <= g < groups.len() ==> ((#[trigger] groups[g]).1@.contains(k) <==> k < ids.len()
                && #[trigger] ids[k as int] == Some(groups[g].0)),
        forall|g: int| 0 <= g < groups.len() ==> (#[trigger] groups[g]).1@.len() > 0,
        forall|g: int, a: int, b: int|
            0 <= g < groups.len() && 0 <= a < b < groups[g].1@.len() ==> #[trigger] groups[g].1@[a]
                < #[trigger] groups[g].1@[b],
        forall|g: int, h: int|
            0 <= g < h < groups.len() ==> (#[trigger] groups[g]).0 < (#[trigger] groups[h]).0,
{
    assert forall|k: int| 0 <= k < ids.len() && #[trigger] ids[k] is Some implies exists|g: int|
        0 <= g < groups.len() && (#[trigger] groups[g]).0 == ids[k]->Some_0 by {
        let id = ids[k]->Some_0;
        places_are_complete(ids, id);
        assert(places(ids, id).contains(k as usize));
        assert(places(ids, id).len() > 0);
        assert(grouped(groups, id));
    }
    assert forall|g: int, k: usize| 0 <= g < groups.len() implies ((#[trigger] groups[g]).1@.contains(k)
        <==> k < ids.len() && #[trigger] ids[k as int] == Some(groups[g].0)) by {
        places_are_complete(ids, groups[g].0);
        assert(groups[g].1@ == places(ids, groups[g].0));
    }
    assert forall|g: int| 0 <= g < groups.len() implies (#[trigger] groups[g]).1@.len() > 0 by {
        assert(grouped(groups, groups[g].0));
        assert(places(ids, groups[g].0).len() > 0);
    }
    assert forall|g: int, a: int, b: int|
        0 <= g < groups.len() && 0 <= a < b < groups[g].1@.len() implies #[trigger] groups[g].1@[a]
        < #[trigger] groups[g].1@[b] by {
        places_are_complete(ids, groups[g].0);
        assert(groups[g].1@ == places(ids, groups[g].0));
    }
}

} // verus!
