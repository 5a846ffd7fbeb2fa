//! A run from its arguments to its end, step by step.

use crate::dedup;
use crate::dedup::{Opts, Stats};
use crate::dirs;
use crate::path;
use crate::run;
use crate::text;
use vstd::prelude::*;

verus! {

/// What is to be done next.
#[derive(Debug, Clone, Copy, PartialEq, Eq, Structural)]
pub enum Step {
    /// Find out which directories are on ZFS.
    CheckZfs,
    /// Remount read-only binds over writable datasets.
    Remount,
    /// Find out which directories can be written to.
    CheckWritable,
    /// Find out whether the kernel can compare and clone in one operation.
    Probe,
    /// Find the ids of the datasets.
    FindFsids,
    /// Walk the directories of a group and hash their files.
    Scan(usize),
    /// Drop the cache entries of files that the scan of a group did not see.
    Prune(usize),
    /// Share the blocks that repeat in a group.
    Dedup(usize),
    /// Compact the cache if it is bloated.
    Compact,
    /// Nothing is left to do.
    Over(End),
}

/// How a run ends.
#[derive(Debug, Clone, Copy, PartialEq, Eq, Structural)]
pub enum End {
    /// There is no directory to scan.
    NothingToScan,
    /// The kernel cannot compare and clone in one operation, and the run was not
    /// told to go ahead without.
    NeedsForce,
    /// All is done; whether without errors.
    Finished(bool),
}

/// What became of a step.
#[derive(Debug)]
pub enum Reply {
    /// Which directories stay.
    Keep(Vec<bool>),
    /// It is done.
    Done,
    /// Whether the kernel can.
    Supported(bool),
    /// The id of each directory's dataset, if it has one.
    Fsids(Vec<Option<u64>>),
    /// How many bytes the files have and how many files failed.
    Scanned { bytes: u64, errors: usize },
    /// What the work on a group did.
    Deduped(Stats),
}

/// The model of a reply.
pub enum Event {
    Keep(Seq<bool>),
    Done,
    Supported(bool),
    Fsids(Seq<Option<u64>>),
    Scanned { bytes: u64, errors: usize },
    Deduped(Stats),
}

impl View for Reply {
    type V = Event;

    open spec fn view(&self) -> Event {
        match self {
            Reply::Keep(keep) => Event::Keep(keep@),
            Reply::Done => Event::Done,
            Reply::Supported(yes) => Event::Supported(*yes),
            Reply::Fsids(ids) => Event::Fsids(ids@),
            Reply::Scanned { bytes, errors } => Event::Scanned { bytes: *bytes, errors: *errors },
            Reply::Deduped(stats) => Event::Deduped(*stats),
        }
    }
}

/// Those of `dirs` that stay.
pub open spec fn kept(dirs: Seq<Vec<u8>>, keep: Seq<bool>) -> Seq<Vec<u8>>
    decreases dirs.len(),
{
    if dirs.len() == 0 || keep.len() == 0 {
        Seq::empty()
    } else {
        let rest = kept(dirs.drop_last(), keep.drop_last());
        if keep.last() {
            rest.push(dirs.last())
        } else {
            rest
        }
    }
}

/// The sum of two counts.
pub open spec fn sum(a: Stats, b: Stats) -> Stats {
    Stats {
        candidates: (a.candidates + b.candidates) as usize,
        verified: (a.verified + b.verified) as usize,
        cloned: (a.cloned + b.cloned) as usize,
        bytes: (a.bytes + b.bytes) as u64,
        mismatches: (a.mismatches + b.mismatches) as usize,
        errors: (a.errors + b.errors) as usize,
    }
}

/// The model of a run.
#[verifier::ext_equal]
pub struct Run {
    pub dry_run: bool,
    pub force: bool,
    /// Whether mounts can be changed without the host noticing.
    pub private_ns: bool,
    pub mounts: Seq<Vec<u8>>,
    pub dirs: Seq<Vec<u8>>,
    pub opts: Opts,
    pub ids: Seq<Option<u64>>,
    pub groups: Seq<(u64, Vec<usize>)>,
    pub at: Step,
    pub total: u64,
    pub hash_errors: usize,
    pub stats: Stats,
}

impl Run {
    /// Whether a step may be answered so.
    pub open spec fn accepts(self, e: Event) -> bool {
        match (self.at, e) {
            (Step::CheckZfs, Event::Keep(keep)) => keep.len() == self.dirs.len(),
            (Step::CheckWritable, Event::Keep(keep)) => keep.len() == self.dirs.len(),
            (Step::Remount, Event::Done) => true,
            (Step::Probe, Event::Supported(_)) => true,
            (Step::FindFsids, Event::Fsids(ids)) => ids.len() == self.dirs.len(),
            (Step::Scan(_), Event::Scanned { bytes, errors }) => self.total + bytes <= u64::MAX
                && self.hash_errors + errors <= usize::MAX,
            (Step::Prune(_), Event::Done) => true,
            (Step::Dedup(_), Event::Deduped(stats)) => self.stats.sum_fits(stats),
            (Step::Compact, Event::Done) => true,
            _ => false,
        }
    }

    /// Goes on once it is known whether the kernel can compare and clone in one
    /// operation.
    pub open spec fn decided(self, supported: bool) -> Run {
        if !self.dry_run && !supported && !self.force {
            Run { at: Step::Over(End::NeedsForce), ..self }
        } else {
            Run {
                opts: Opts { dry_run: self.dry_run, fideduperange: !self.dry_run && supported },
                at: Step::FindFsids,
                ..self
            }
        }
    }

    /// Goes on to a group, or to the end if there is none left. A dry run leaves
    /// the cache as it is.
    pub open spec fn to_group(self, g: int) -> Run {
        Run {
            at: if g < self.groups.len() {
                Step::Scan(g as usize)
            } else if self.dry_run {
                Step::Over(End::Finished(self.success()))
            } else {
                Step::Compact
            },
            ..self
        }
    }

    /// Whether the directories of a group are all mounts.
    pub open spec fn covers_dataset(self, g: int) -> bool {
        forall|i: int|
            0 <= i < self.groups[g].1@.len() ==> dirs::found_in(
                self.mounts,
                path::route(self.dirs[(#[trigger] self.groups[g].1@[i]) as int]@),
            )
    }

    /// Whether the run left nothing undone.
    pub open spec fn success(self) -> bool {
        self.hash_errors == 0 && self.stats.errors == 0
    }

    /// Whether `next` is the run after `e` became of the step that was due.
    pub open spec fn goes_to(self, e: Event, next: Run) -> bool {
        match (self.at, e) {
            (Step::CheckZfs, Event::Keep(keep)) => next == (Run {
                dirs: kept(self.dirs, keep),
                at: if self.private_ns {
                    Step::Remount
                } else {
                    Step::CheckWritable
                },
                ..self
            }),
            (Step::Remount, Event::Done) => next == (Run { at: Step::CheckWritable, ..self }),
            (Step::CheckWritable, Event::Keep(keep)) => {
                let left = Run { dirs: kept(self.dirs, keep), ..self };
                next == if left.dirs.len() == 0 {
                    Run { at: Step::Over(End::NothingToScan), ..left }
                } else if self.dry_run {
                    left.decided(false)
                } else {
                    Run { at: Step::Probe, ..left }
                }
            },
            (Step::Probe, Event::Supported(yes)) => next == self.decided(yes),
            (Step::FindFsids, Event::Fsids(ids)) => {
                &&& run::are_groups(next.groups, ids)
                &&& next.groups.len() <= usize::MAX
                &&& next == (Run { ids, groups: next.groups, ..self }).to_group(0)
            },
            (Step::Scan(g), Event::Scanned { bytes, errors }) => next == (Run {
                total: (self.total + bytes) as u64,
                hash_errors: (self.hash_errors + errors) as usize,
                at: if !self.dry_run && self.covers_dataset(g as int) {
                    Step::Prune(g)
                } else {
                    Step::Dedup(g)
                },
                ..self
            }),
            (Step::Prune(g), Event::Done) => next == (Run { at: Step::Dedup(g), ..self }),
            (Step::Dedup(g), Event::Deduped(stats)) => next == (Run {
                stats: sum(self.stats, stats),
                ..self
            }).to_group(g + 1),
            (Step::Compact, Event::Done) => next == (Run {
                at: Step::Over(End::Finished(self.success())),
                ..self
            }),
            _ => false,
        }
    }

    /// Whether the run is past the decision how to dedup.
    pub open spec fn is_decided(self) -> bool {
        match self.at {
            Step::CheckZfs | Step::Remount | Step::CheckWritable | Step::Probe => false,
            Step::Over(End::NothingToScan) | Step::Over(End::NeedsForce) => false,
            _ => true,
        }
    }

    /// The group at hand, if there is one.
    pub open spec fn group(self) -> Option<usize> {
        match self.at {
            Step::Scan(g) | Step::Prune(g) | Step::Dedup(g) => Some(g),
            _ => None,
        }
    }

    /// What holds at every step.
    pub open spec fn wf(self) -> bool {
        &&& dirs::sorted(self.dirs)
        &&& self.at is Remount ==> self.private_ns
        &&& self.at is Probe ==> !self.dry_run && self.dirs.len() > 0
        &&& self.is_decided() ==> {
            &&& self.opts.dry_run == self.dry_run
            &&& self.opts.fideduperange ==> !self.dry_run
            &&& !self.opts.dry_run && !self.opts.fideduperange ==> self.force
            &&& self.dirs.len() > 0
        }
        &&& match self.group() {
            Some(g) => {
                &&& g < self.groups.len() <= usize::MAX
                &&& self.ids.len() == self.dirs.len()
                &&& run::are_groups(self.groups, self.ids)
            },
            None => true,
        }
        &&& self.at is Prune || self.at is Compact ==> !self.dry_run
        &&& self.at matches Step::Prune(g) ==> self.covers_dataset(g as int)
        &&& self.at matches Step::Over(End::Finished(ok)) ==> ok == self.success()
    }

    /// How much is left to do.
    pub open spec fn left(self) -> int {
        let n = self.groups.len();
        match self.at {
            Step::CheckZfs => 6,
            Step::Remount => 5,
            Step::CheckWritable => 4,
            Step::Probe => 3,
            Step::FindFsids => 2,
            Step::Scan(g) => 3 * (n - g) + 1,
            Step::Prune(g) => 3 * (n - g),
            Step::Dedup(g) => 3 * (n - g) - 1,
            Step::Compact => 1,
            Step::Over(_) => 0,
        }
    }

    /// Whether the groups are known.
    pub open spec fn has_groups(self) -> bool {
        self.group() is Some || self.at is Compact || self.at is Over
    }
}

proof fn lemma_kept(dirs: Seq<Vec<u8>>, keep: Seq<bool>)
    requires
        dirs.len() == keep.len(),
        dirs::sorted(dirs),
    ensures
        dirs::sorted(kept(dirs, keep)),
        forall|i: int| 0 <= i < kept(dirs, keep).len() ==> dirs.contains(#[trigger] kept(dirs, keep)[i]),
    decreases dirs.len(),
{
    if dirs.len() > 0 {
        let less = dirs.drop_last();
        let rest = kept(less, keep.drop_last());
        let all = kept(dirs, keep);
        assert(dirs::sorted(less)) by {
            assert forall|i: int, j: int| 0 <= i < j < less.len() implies dirs::before(
                path::route((#[trigger] less[i])@),
                path::route((#[trigger] less[j])@),
            ) by {
                assert(dirs[i] == less[i] && dirs[j] == less[j]);
            }
        }
        lemma_kept(less, keep.drop_last());
        assert forall|i: int| 0 <= i < all.len() implies dirs.contains(#[trigger] all[i]) by {
            if i < rest.len() {
                assert(all[i] == rest[i]);
                let j = choose|j: int| 0 <= j < less.len() && less[j] == rest[i];
                assert(dirs[j] == all[i]);
            } else {
                assert(dirs[dirs.len() - 1] == all[i]);
            }
        }
        assert forall|i: int, j: int| 0 <= i < j < all.len() implies dirs::before(
            path::route((#[trigger] all[i])@),
            path::route((#[trigger] all[j])@),
        ) by {
            assert(all[i] == rest[i]);
            if j < rest.len() {
                assert(all[j] == rest[j]);
            } else {
                let k = choose|k: int| 0 <= k < less.len() && less[k] == rest[i];
                assert(dirs[k] == all[i] && dirs[dirs.len() - 1] == all[j]);
            }
        }
    }
}

/// What holds at every step holds after each.
pub proof fn steps_keep_wf(run: Run, e: Event, next: Run)
    requires
        run.wf(),
        run.accepts(e),
        run.goes_to(e, next),
    ensures
        next.wf(),
{
    if let Event::Keep(keep) = e {
        lemma_kept(run.dirs, keep);
    }
}

/// Each reply brings the run nearer to its end, once more within the groups
/// when they become known.
pub proof fn steps_make_progress(run: Run, e: Event, next: Run)
    requires
        run.wf(),
        run.accepts(e),
        run.goes_to(e, next),
    ensures
        next.has_groups() || !run.has_groups(),
        next.has_groups() == run.has_groups() ==> 0 <= next.left() < run.left(),
{
}

/// Mounts are changed only where the host does not notice.
pub proof fn remounts_are_private(run: Run)
    requires
        run.wf(),
        run.at is Remount,
    ensures
        run.private_ns,
{
}

/// A dry run changes nothing: it writes no probe, leaves the cache as it is and
/// works on its groups as a dry run.
pub proof fn dry_runs_change_nothing(run: Run)
    requires
        run.wf(),
        run.dry_run,
    ensures
        !(run.at is Probe),
        !(run.at is Prune),
        !(run.at is Compact),
        run.at is Dedup ==> run.opts.dry_run && !run.opts.fideduperange,
{
}

/// Blocks are compared and cloned in two operations only if the run was told to
/// go ahead without the kernel's own check, and a dry run stays one.
pub proof fn racy_runs_are_forced(run: Run)
    requires
        run.wf(),
        run.at is Dedup,
    ensures
        run.opts.dry_run == run.dry_run,
        !run.opts.dry_run && !run.opts.fideduperange ==> run.force,
{
}

/// Only what a scan covered in full is pruned.
pub proof fn partial_scans_prune_nothing(run: Run, g: usize, i: int)
    requires
        run.wf(),
        run.at == Step::Prune(g),
        0 <= i < run.groups[g as int].1@.len(),
    ensures
        dirs::found_in(
            run.mounts,
            path::route(run.dirs[run.groups[g as int].1@[i] as int]@),
        ),
{
}

/// Nothing is scanned that was not asked for.
pub proof fn scans_stay_in_scope(run: Run, e: Event, next: Run, d: Vec<u8>)
    requires
        run.wf(),
        run.accepts(e),
        run.goes_to(e, next),
        next.dirs.contains(d),
    ensures
        run.dirs.contains(d),
{
    if let Event::Keep(keep) = e {
        lemma_kept(run.dirs, keep);
    }
}

/// A run, step by step.
pub struct Session {
    dry_run: bool,
    force: bool,
    private_ns: bool,
    mounts: Vec<Vec<u8>>,
    dirs: Vec<Vec<u8>>,
    opts: Opts,
    groups: Vec<(u64, Vec<usize>)>,
    at: Step,
    total: u64,
    hash_errors: usize,
    stats: Stats,
    ids: Ghost<Seq<Option<u64>>>,
}

impl View for Session {
    type V = Run;

    closed spec fn view(&self) -> Run {
        Run {
            dry_run: self.dry_run,
            force: self.force,
            private_ns: self.private_ns,
            mounts: self.mounts@,
            dirs: self.dirs@,
            opts: self.opts,
            ids: self.ids@,
            groups: self.groups@,
            at: self.at,
            total: self.total,
            hash_errors: self.hash_errors,
            stats: self.stats,
        }
    }
}

proof fn lemma_places(ids: Seq<Option<u64>>, id: u64)
    requires
        ids.len() <= usize::MAX,
    ensures
        forall|i: int|
            0 <= i < run::places(ids, id).len() ==> #[trigger] run::places(ids, id)[i] < ids.len()
                && ids[run::places(ids, id)[i] as int] == Some(id),
    decreases ids.len(),
{
    if ids.len() > 0 {
        let less = ids.drop_last();
        lemma_places(less, id);
        let rest = run::places(less, id);
        let all = run::places(ids, id);
        assert forall|i: int| 0 <= i < all.len() implies #[trigger] all[i] < ids.len()
            && ids[all[i] as int] == Some(id) by {
            if i < rest.len() {
                assert(all[i] == rest[i]);
                assert(less[rest[i] as int] == ids[rest[i] as int]);
            }
        }
    }
}

impl Session {
    /// A run on `roots`, or on everything if there are none. `mounts` are the
    /// mounted datasets.
    pub fn new(
        dry_run: bool,
        force: bool,
        private_ns: bool,
        mounts: Vec<Vec<u8>>,
        roots: &[Vec<u8>],
    ) -> (r: Session)
        ensures
            r@.wf(),
            r@.dry_run == dry_run,
            r@.force == force,
            r@.private_ns == private_ns,
            r@.mounts == mounts@,
            r@.at == Step::CheckZfs,
            r@.total == 0,
            r@.hash_errors == 0,
            r@.stats == dedup::no_stats(),
            forall|m: path::Route| #[trigger]
                dirs::found_in(r@.dirs, m) == run::covers(mounts@, roots@, m),
    {
        let dirs = run::select_dirs(mounts.as_slice(), roots);
        Session {
            dry_run,
            force,
            private_ns,
            mounts,
            dirs,
            opts: Opts { dry_run: true, fideduperange: false },
            groups: Vec::new(),
            at: Step::CheckZfs,
            total: 0,
            hash_errors: 0,
            stats: Stats::default(),
            ids: Ghost(Seq::empty()),
        }
    }

    /// The step that is due.
    pub fn step(&self) -> (r: Step)
        ensures
            r == self@.at,
    {
        self.at
    }

    /// The directories to scan.
    pub fn dirs(&self) -> (r: &[Vec<u8>])
        ensures
            r@ == self@.dirs,
    {
        self.dirs.as_slice()
    }

    /// How to dedup.
    pub fn opts(&self) -> (r: Opts)
        ensures
            r == self@.opts,
    {
        self.opts
    }

    /// The id of the dataset of a group.
    pub fn fsid(&self, g: usize) -> (r: u64)
        requires
            g < self@.groups.len(),
        ensures
            r == self@.groups[g as int].0,
    {
        self.groups[g].0
    }

    /// The directories of a group.
    pub fn group_dirs(&self, g: usize) -> (r: Vec<Vec<u8>>)
        requires
            self@.wf(),
            self@.group() is Some,
            g < self@.groups.len(),
        ensures
            r@.len() == self@.groups[g as int].1@.len(),
            forall|i: int|
                0 <= i < r@.len() ==> (#[trigger] r@[i])@ == self@.dirs[self@.groups[g as int].1@[i] as int]@,
    {
        proof {
            assert(self.dirs@.len() == self.dirs.len());
            lemma_places(self@.ids, self@.groups[g as int].0);
        }
        let places: &Vec<usize> = &self.groups[g].1;
        let mut out: Vec<Vec<u8>> = Vec::new();
        let mut i: usize = 0;
        while i < places.len()
            invariant
                i <= places@.len(),
                g < self.groups@.len(),
                places@ == self.groups@[g as int].1@,
                forall|j: int| 0 <= j < places@.len() ==> #[trigger] places@[j] < self.dirs@.len(),
                out@.len() == i,
                forall|j: int|
                    0 <= j < i ==> (#[trigger] out@[j])@ == self.dirs@[places@[j] as int]@,
            decreases places@.len() - i,
        {
            assert(places@[i as int] < self.dirs@.len());
            out.push(text::copy(self.dirs[places[i]].as_slice()));
            i = i + 1;
        }
        out
    }

    /// The number of bytes in the files that were scanned.
    pub fn total(&self) -> (r: u64)
        ensures
            r == self@.total,
    {
        self.total
    }

    /// What the run did.
    pub fn stats(&self) -> (r: Stats)
        ensures
            r == self@.stats,
    {
        self.stats
    }

    /// Whether the step that is due may be answered so.
    pub fn accepts(&self, r: &Reply) -> (ok: bool)
        ensures
            ok == self@.accepts(r@),
    {
        match (self.at, r) {
            (Step::CheckZfs, Reply::Keep(keep)) => keep.len() == self.dirs.len(),
            (Step::CheckWritable, Reply::Keep(keep)) => keep.len() == self.dirs.len(),
            (Step::Remount, Reply::Done) => true,
            (Step::Probe, Reply::Supported(_)) => true,
            (Step::FindFsids, Reply::Fsids(ids)) => ids.len() == self.dirs.len(),
            (Step::Scan(_), Reply::Scanned { bytes, errors }) => *bytes <= u64::MAX - self.total
                && *errors <= usize::MAX - self.hash_errors,
            (Step::Prune(_), Reply::Done) => true,
            (Step::Dedup(_), Reply::Deduped(stats)) => self.stats.fits(stats),
            (Step::Compact, Reply::Done) => true,
            _ => false,
        }
    }

    /// Drops the directories that do not stay.
    fn retain(&mut self, keep: &Vec<bool>)
        requires
            keep@.len() == old(self).dirs@.len(),
        ensures
            final(self)@ == (Run { dirs: kept(old(self)@.dirs, keep@), ..old(self)@ }),
    {
        let mut was: Vec<Vec<u8>> = Vec::new();
        std::mem::swap(&mut was, &mut self.dirs);
        let ghost all = was@;
        let mut out: Vec<Vec<u8>> = Vec::new();
        let mut i: usize = 0;
        assert(all.subrange(0, 0) =~= Seq::empty());
        for d in it: was
            invariant
                it.seq() == all,
                i == it.index(),
                keep@.len() == all.len(),
                out@ == kept(all.subrange(0, i as int), keep@.subrange(0, i as int)),
        {
            assert(all.subrange(0, i + 1).drop_last() =~= all.subrange(0, i as int));
            assert(keep@.subrange(0, i + 1).drop_last() =~= keep@.subrange(0, i as int));
            assert(all[i as int] == d);
            assert(i < keep.len());
            if keep[i] {
                out.push(d);
            }
            i = i + 1;
        }
        assert(all.subrange(0, all.len() as int) =~= all);
        assert(keep@.subrange(0, keep@.len() as int) =~= keep@);
        self.dirs = out;
    }

    fn decide(&mut self, supported: bool)
        ensures
            final(self)@ == old(self)@.decided(supported),
    {
        match run::choose_opts(self.dry_run, supported, self.force) {
            Some(opts) => {
                self.opts = opts;
                self.at = Step::FindFsids;
            },
            None => {
                self.at = Step::Over(End::NeedsForce);
            },
        }
    }

    fn to_group(&mut self, g: usize)
        ensures
            final(self)@ == old(self)@.to_group(g as int),
    {
        if g < self.groups.len() {
            self.at = Step::Scan(g);
        } else if self.dry_run {
            self.at = Step::Over(End::Finished(run::succeeded(self.hash_errors, &self.stats)));
        } else {
            self.at = Step::Compact;
        }
    }

    /// Takes account of what became of the step that was due.
    pub fn reply(&mut self, r: Reply)
        requires
            old(self)@.wf(),
            old(self)@.accepts(r@),
        ensures
            old(self)@.goes_to(r@, final(self)@),
            final(self)@.wf(),
    {
        let ghost before = self@;
        let ghost event = r@;
        match r {
            Reply::Keep(keep) => {
                self.retain(&keep);
                if let Step::CheckZfs = self.at {
                    self.at =
                    if self.private_ns {
                        Step::Remount
                    } else {
                        Step::CheckWritable
                    };
                } else if self.dirs.len() == 0 {
                    self.at = Step::Over(End::NothingToScan);
                } else if self.dry_run {
                    self.decide(false);
                } else {
                    self.at = Step::Probe;
                }
            },
            Reply::Supported(yes) => self.decide(yes),
            Reply::Fsids(ids) => {
                self.groups = run::group_by_fsid(ids.as_slice());
                assert(self.groups@.len() == self.groups.len());
                proof {
                    self.ids@ = ids@;
                }
                self.to_group(0);
            },
            Reply::Scanned { bytes, errors } => {
                self.total = self.total + bytes;
                self.hash_errors = self.hash_errors + errors;
                if let Step::Scan(g) = self.at {
                    let group = self.group_dirs(g);
                    let covers = run::covers_dataset(group.as_slice(), self.mounts.as_slice());
                    assert(covers == before.covers_dataset(g as int)) by {
                        let places = before.groups[g as int].1@;
                        if covers {
                            assert forall|i: int| 0 <= i < places.len() implies dirs::found_in(
                                before.mounts,
                                path::route(before.dirs[(#[trigger] places[i]) as int]@),
                            ) by {
                                assert(dirs::found_in(before.mounts, path::route(group@[i]@)));
                            }
                        } else {
                            let i = choose|i: int|
                                0 <= i < group@.len() && !dirs::found_in(
                                    before.mounts,
                                    path::route((#[trigger] group@[i])@),
                                );
                            assert(!dirs::found_in(
                                before.mounts,
                                path::route(before.dirs[places[i] as int]@),
                            ));
                        }
                    }
                    self.at =
                    if !self.dry_run && covers {
                        Step::Prune(g)
                    } else {
                        Step::Dedup(g)
                    };
                }
            },
            Reply::Deduped(stats) => {
                self.stats.add_assign(stats);
                if let Step::Dedup(g) = self.at {
                    self.to_group(g + 1);
                }
            },
            Reply::Done => match self.at {
                Step::Remount => {
                    self.at = Step::CheckWritable;
                },
                Step::Prune(g) => {
                    self.at = Step::Dedup(g);
                },
                _ => {
                    self.at =
                    Step::Over(End::Finished(run::succeeded(self.hash_errors, &self.stats)));
                },
            },
        }
        proof {
            assert(before.goes_to(event, self@));
            steps_keep_wf(before, event, self@);
        }
    }
}

/// Every scan adds its bytes and its errors to the totals of the run and every
/// group what was done to it; nothing else changes them, so that none ever falls.
pub proof fn counts_add_up(run: Run, e: Event, next: Run)
    requires
        run.wf(),
        run.accepts(e),
        run.goes_to(e, next),
    ensures
        next.total == run.total + match e {
            Event::Scanned { bytes, .. } => bytes as int,
            _ => 0,
        },
        next.hash_errors == run.hash_errors + match e {
            Event::Scanned { errors, .. } => errors as int,
            _ => 0,
        },
        match e {
            Event::Deduped(s) => {
                &&& next.stats.candidates == run.stats.candidates + s.candidates
                &&& next.stats.verified == run.stats.verified + s.verified
                &&& next.stats.cloned == run.stats.cloned + s.cloned
                &&& next.stats.bytes == run.stats.bytes + s.bytes
                &&& next.stats.mismatches == run.stats.mismatches + s.mismatches
                &&& next.stats.errors == run.stats.errors + s.errors
            },
            _ => next.stats == run.stats,
        },
        next.hash_errors >= run.hash_errors,
        next.stats.errors >= run.stats.errors,
{
}

/// What a run was asked for stays as it is; directories are dropped only where it
/// is said which stay, groups are made once, and how to dedup is decided once.
pub proof fn settings_stay(run: Run, e: Event, next: Run)
    requires
        run.wf(),
        run.accepts(e),
        run.goes_to(e, next),
    ensures
        next.dry_run == run.dry_run,
        next.force == run.force,
        next.private_ns == run.private_ns,
        next.mounts == run.mounts,
        !(e is Keep) ==> next.dirs == run.dirs,
        !(run.at is FindFsids) ==> next.groups == run.groups && next.ids == run.ids,
        run.at is FindFsids ==> next.ids == e->Fsids_0 && run::are_groups(next.groups, next.ids),
        !(next.at is FindFsids) ==> next.opts == run.opts,
        next.at is FindFsids ==> next.opts.dry_run == run.dry_run && next.opts.fideduperange == (
        !run.dry_run && e == Event::Supported(true)),
{
}

/// The steps come in their order: the checks, the probe where something is to be
/// changed, then each group in turn, scanned, pruned where the scan covered its
/// dataset in full, and deduped, and at the end the cache is compacted. The run
/// ends early if nothing is left to scan, or where it would need to be forced.
pub proof fn steps_come_in_order(run: Run, e: Event, next: Run)
    requires
        run.wf(),
        run.accepts(e),
        run.goes_to(e, next),
    ensures
        match run.at {
            Step::CheckZfs => next.at == if run.private_ns {
                Step::Remount
            } else {
                Step::CheckWritable
            },
            Step::Remount => next.at == Step::CheckWritable,
            Step::CheckWritable => next.at == if next.dirs.len() == 0 {
                Step::Over(End::NothingToScan)
            } else if run.dry_run {
                Step::FindFsids
            } else {
                Step::Probe
            },
            Step::Probe => next.at == if e == Event::Supported(true) || run.force {
                Step::FindFsids
            } else {
                Step::Over(End::NeedsForce)
            },
            Step::FindFsids => if next.groups.len() > 0 {
                next.at == Step::Scan(0)
            } else if run.dry_run {
                next.at == Step::Over(
                    End::Finished(run.hash_errors == 0 && run.stats.errors == 0),
                )
            } else {
                next.at == Step::Compact
            },
            Step::Scan(g) => {
                let group = run.groups[g as int].1@;
                let whole = forall|i: int|
                    0 <= i < group.len() ==> dirs::found_in(
                        run.mounts,
                        path::route(run.dirs[#[trigger] group[i] as int]@),
                    );
                next.at == if whole && !run.dry_run {
                    Step::Prune(g)
                } else {
                    Step::Dedup(g)
                }
            },
            Step::Prune(g) => next.at == Step::Dedup(g),
            Step::Dedup(g) => if g + 1 < run.groups.len() {
                next.at == Step::Scan((g + 1) as usize)
            } else if run.dry_run {
                next.at == Step::Over(
                    End::Finished(next.hash_errors == 0 && next.stats.errors == 0),
                )
            } else {
                next.at == Step::Compact
            },
            Step::Compact => next.at == Step::Over(
                End::Finished(run.hash_errors == 0 && run.stats.errors == 0),
            ),
            Step::Over(_) => false,
        },
{
    match run.at {
        Step::Scan(g) => {
            let group = run.groups[g as int].1@;
            let whole = forall|i: int|
                0 <= i < group.len() ==> dirs::found_in(
                    run.mounts,
                    path::route(run.dirs[#[trigger] group[i] as int]@),
                );
            assert(whole == run.covers_dataset(g as int));
        },
        _ => {},
    }
}

/// A step is answered by what it asks for, an answer for each directory where it
/// asks about all of them, and as long as the sums can be counted.
pub proof fn answers_fit_their_steps(run: Run, e: Event)
    ensures
        run.accepts(e) <==> match run.at {
            Step::CheckZfs | Step::CheckWritable => e is Keep && e->Keep_0.len() == run.dirs.len(),
            Step::Remount | Step::Prune(_) | Step::Compact => e == Event::Done,
            Step::Probe => e is Supported,
            Step::FindFsids => e is Fsids && e->Fsids_0.len() == run.dirs.len(),
            Step::Scan(_) => match e {
                Event::Scanned { bytes, errors } => run.total + bytes <= u64::MAX && run.hash_errors
                    + errors <= usize::MAX,
                _ => false,
            },
            Step::Dedup(_) => match e {
                Event::Deduped(s) => {
                    &&& run.stats.candidates + s.candidates <= usize::MAX
                    &&& run.stats.verified + s.verified <= usize::MAX
                    &&& run.stats.cloned + s.cloned <= usize::MAX
                    &&& run.stats.bytes + s.bytes <= u64::MAX
                    &&& run.stats.mismatches + s.mismatches <= usize::MAX
                    &&& run.stats.errors + s.errors <= usize::MAX
                },
                _ => false,
            },
            Step::Over(_) => false,
        },
{
}

/// A directory stays exactly if it was said to, and the order stays.
pub proof fn kept_directories_stay(dirs: Seq<Vec<u8>>, keep: Seq<bool>, d: Vec<u8>, stays: bool)
    requires
        dirs.len() == keep.len(),
    ensures
        kept(Seq::empty(), Seq::empty()) == Seq::<Vec<u8>>::empty(),
        kept(dirs.push(d), keep.push(stays)) == if stays {
            kept(dirs, keep).push(d)
        } else {
            kept(dirs, keep)
        },
        (forall|i: int| 0 <= i < keep.len() ==> #[trigger] keep[i]) ==> kept(dirs, keep) == dirs,
    decreases dirs.len(),
{
    assert(dirs.push(d).drop_last() =~= dirs);
    assert(keep.push(stays).drop_last() =~= keep);
    if forall|i: int| 0 <= i < keep.len() ==> #[trigger] keep[i] {
        if dirs.len() > 0 {
            let less = keep.drop_last();
            assert forall|i: int| 0 <= i < less.len() implies #[trigger] less[i] by {
                assert(keep[i]);
            }
            assert(keep[keep.len() - 1]);
            kept_directories_stay(dirs.drop_last(), less, d, stays);
        }
        assert(kept(dirs, keep) =~= dirs);
    }
}

/// Every directory that was said to stay is among those that do.
pub proof fn no_kept_directory_is_lost(dirs: Seq<Vec<u8>>, keep: Seq<bool>, i: int)
    requires
        dirs.len() == keep.len(),
        0 <= i < dirs.len(),
        keep[i],
    ensures
        kept(dirs, keep).contains(dirs[i]),
    decreases dirs.len(),
{
    let all = kept(dirs, keep);
    if i < dirs.len() - 1 {
        let rest = kept(dirs.drop_last(), keep.drop_last());
        no_kept_directory_is_lost(dirs.drop_last(), keep.drop_last(), i);
        let j = choose|j: int| 0 <= j < rest.len() && rest[j] == dirs[i];
        assert(all[j] == dirs[i]);
    } else {
        assert(all[all.len() - 1] == dirs[i]);
    }
}

/// Whether `runs` are the states of a run from its start on, between the events
/// that took it from each to the next.
pub open spec fn is_history(runs: Seq<Run>, events: Seq<Event>) -> bool {
    &&& runs.len() == events.len() + 1
    &&& runs[0].wf()
    &&& runs[0].at == Step::CheckZfs
    &&& runs[0].hash_errors == 0
    &&& runs[0].stats.errors == 0
    &&& runs[0].total == 0
    &&& forall|i: int|
        0 <= i < events.len() ==> #[trigger] runs[i].accepts(events[i]) && runs[i].goes_to(
            events[i],
            runs[i + 1],
        )
}

/// Whether what became of a step is free of errors.
pub open spec fn is_clean(e: Event) -> bool {
    match e {
        Event::Scanned { errors, .. } => errors == 0,
        Event::Deduped(stats) => stats.errors == 0,
        _ => true,
    }
}

proof fn lemma_history_wf(runs: Seq<Run>, events: Seq<Event>, n: int)
    requires
        is_history(runs, events),
        0 <= n <= events.len(),
    ensures
        runs[n].wf(),
    decreases n,
{
    if n > 0 {
        lemma_history_wf(runs, events, n - 1);
        assert(runs[n - 1].accepts(events[n - 1]));
        steps_keep_wf(runs[n - 1], events[n - 1], runs[n]);
    }
}

proof fn lemma_history_errors(runs: Seq<Run>, events: Seq<Event>, n: int)
    requires
        is_history(runs, events),
        0 <= n <= events.len(),
    ensures
        (runs[n].hash_errors == 0 && runs[n].stats.errors == 0) <==> forall|i: int|
            0 <= i < n ==> is_clean(#[trigger] events[i]),
    decreases n,
{
    if n > 0 {
        lemma_history_wf(runs, events, n - 1);
        lemma_history_errors(runs, events, n - 1);
        let e = events[n - 1];
        assert(runs[n - 1].accepts(e));
        counts_add_up(runs[n - 1], e, runs[n]);
        if runs[n].hash_errors == 0 && runs[n].stats.errors == 0 {
            assert forall|i: int| 0 <= i < n implies is_clean(#[trigger] events[i]) by {
                if i == n - 1 {
                    assert(is_clean(e));
                }
            }
        }
        if forall|i: int| 0 <= i < n ==> is_clean(#[trigger] events[i]) {
            assert(is_clean(events[n - 1]));
        }
    }
}

/// A run that finishes reports success exactly if no scan of any dataset and no
/// work on any group had an error.
pub proof fn success_means_no_errors(runs: Seq<Run>, events: Seq<Event>, ok: bool)
    requires
        is_history(runs, events),
        runs.last().at == Step::Over(End::Finished(ok)),
    ensures
        ok <==> forall|i: int|
            0 <= i < events.len() ==> match #[trigger] events[i] {
                Event::Scanned { errors, .. } => errors == 0,
                Event::Deduped(stats) => stats.errors == 0,
                _ => true,
            },
{
    let n = events.len() as int;
    lemma_history_wf(runs, events, n);
    lemma_history_errors(runs, events, n);
    if ok {
        assert forall|i: int| 0 <= i < n implies match #[trigger] events[i] {
            Event::Scanned { errors, .. } => errors == 0,
            Event::Deduped(stats) => stats.errors == 0,
            _ => true,
        } by {
            assert(is_clean(events[i]));
        }
    } else if forall|i: int|
        0 <= i < events.len() ==> match #[trigger] events[i] {
            Event::Scanned { errors, .. } => errors == 0,
            Event::Deduped(stats) => stats.errors == 0,
            _ => true,
        } {
        assert forall|i: int| 0 <= i < n implies is_clean(#[trigger] events[i]) by {
            let e = events[i];
            assert(match e {
                Event::Scanned { errors, .. } => errors == 0,
                Event::Deduped(stats) => stats.errors == 0,
                _ => true,
            });
        }
    }
}

/// The bytes of all scans in `events`.
pub open spec fn scanned(events: Seq<Event>) -> nat
    decreases events.len(),
{
    if events.len() == 0 {
        0
    } else {
        scanned(events.drop_last()) + match events.last() {
            Event::Scanned { bytes, .. } => bytes as nat,
            _ => 0,
        }
    }
}

/// The total of a run is the sum of the bytes of all its scans.
pub proof fn totals_are_sums(runs: Seq<Run>, events: Seq<Event>)
    requires
        is_history(runs, events),
    ensures
        runs.last().total == scanned(events),
    decreases events.len(),
{
    let n = events.len() as int;
    if n > 0 {
        let before = runs.drop_last();
        let less = events.drop_last();
        assert(is_history(before, less)) by {
            assert forall|i: int| 0 <= i < less.len() implies #[trigger] before[i].accepts(less[i])
                && before[i].goes_to(less[i], before[i + 1]) by {
                assert(runs[i].accepts(events[i]));
            }
        }
        totals_are_sums(before, less);
        lemma_history_wf(runs, events, n - 1);
        assert(runs[n - 1].accepts(events[n - 1]));
        counts_add_up(runs[n - 1], events[n - 1], runs[n]);
    }
}

proof fn lemma_groups_done(runs: Seq<Run>, events: Seq<Event>, n: int, h: int)
    requires
        is_history(runs, events),
        0 <= n <= events.len(),
        runs[n].group() is Some || runs[n].at is Compact || runs[n].at is Over,
        0 <= h < runs[n].groups.len(),
        match runs[n].at {
            Step::Scan(g) | Step::Prune(g) | Step::Dedup(g) => h < g,
            Step::Compact => true,
            Step::Over(End::Finished(_)) => true,
            _ => false,
        },
    ensures
        exists|i: int| 0 <= i < n && (#[trigger] runs[i]).at == Step::Scan(h as usize),
        exists|i: int| 0 <= i < n && (#[trigger] runs[i]).at == Step::Dedup(h as usize),
    decreases n,
{
    if n > 0 {
        let last = runs[n - 1];
        lemma_history_wf(runs, events, n - 1);
        lemma_history_wf(runs, events, n);
        assert(last.accepts(events[n - 1]));
        steps_come_in_order(last, events[n - 1], runs[n]);
        settings_stay(last, events[n - 1], runs[n]);
        if last.at == Step::Dedup(h as usize) {
            assert(runs[n - 1].at == Step::Dedup(h as usize));
            lemma_scanned_before(runs, events, n - 1);
            let i = choose|i: int| 0 <= i < n - 1 && (#[trigger] runs[i]).at == Step::Scan(h as usize);
            assert(runs[i].at == Step::Scan(h as usize));
        } else {
            lemma_groups_done(runs, events, n - 1, h);
            let i = choose|i: int| 0 <= i < n - 1 && (#[trigger] runs[i]).at == Step::Scan(h as usize);
            assert(runs[i].at == Step::Scan(h as usize));
            let j = choose|j: int| 0 <= j < n - 1 && (#[trigger] runs[j]).at == Step::Dedup(h as usize);
            assert(runs[j].at == Step::Dedup(h as usize));
        }
    }
}

proof fn lemma_scanned_before(runs: Seq<Run>, events: Seq<Event>, n: int)
    requires
        is_history(runs, events),
        0 <= n <= events.len(),
        runs[n].at is Dedup || runs[n].at is Prune,
    ensures
        exists|i: int|
            0 <= i < n && (#[trigger] runs[i]).at == Step::Scan(runs[n].group()->Some_0),
    decreases n,
{
    if n > 0 {
        let last = runs[n - 1];
        lemma_history_wf(runs, events, n - 1);
        assert(last.accepts(events[n - 1]));
        steps_come_in_order(last, events[n - 1], runs[n]);
        if last.at is Prune {
            lemma_scanned_before(runs, events, n - 1);
            let i = choose|i: int|
                0 <= i < n - 1 && (#[trigger] runs[i]).at == Step::Scan(last.group()->Some_0);
            assert(runs[i].at == Step::Scan(runs[n].group()->Some_0));
        } else {
            assert(runs[n - 1].at == Step::Scan(runs[n].group()->Some_0));
        }
    }
}

/// A run that finishes has scanned and deduped every group.
pub proof fn every_group_is_worked_on(runs: Seq<Run>, events: Seq<Event>, ok: bool, g: int)
    requires
        is_history(runs, events),
        runs.last().at == Step::Over(End::Finished(ok)),
        0 <= g < runs.last().groups.len(),
    ensures
        exists|i: int| 0 <= i < runs.len() && (#[trigger] runs[i]).at == Step::Scan(g as usize),
        exists|i: int| 0 <= i < runs.len() && (#[trigger] runs[i]).at == Step::Dedup(g as usize),
{
    lemma_groups_done(runs, events, events.len() as int, g);
}

/// A reply means what it says: which directories stay, what the kernel can, the
/// ids, and the counts, unchanged.
pub proof fn replies_mean_what_they_say(r: Reply)
    ensures
        match r {
            Reply::Keep(keep) => r@ == Event::Keep(keep@),
            Reply::Done => r@ == Event::Done,
            Reply::Supported(yes) => r@ == Event::Supported(yes),
            Reply::Fsids(ids) => r@ == Event::Fsids(ids@),
            Reply::Scanned { bytes, errors } => r@ == (Event::Scanned { bytes, errors }),
            Reply::Deduped(stats) => r@ == Event::Deduped(stats),
        },
{
}

} // verus!
