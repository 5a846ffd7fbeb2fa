//! The dedup phase: what is done to the chunks of a group, step by step, and
//! what is counted.

use crate::clone::Dedupe;
use crate::hasher::Hashed;
use crate::index::Loc;
use crate::text::same_bytes;
use vstd::prelude::*;

verus! {

/// What a run did.
#[derive(Debug, Clone, Copy, PartialEq, Eq)]
pub struct Stats {
    pub candidates: usize,
    pub verified: usize,
    pub cloned: usize,
    pub bytes: u64,
    pub mismatches: usize,
    pub errors: usize,
}

/// The counts of a run that did nothing.
pub open spec fn no_stats() -> Stats {
    Stats { candidates: 0, verified: 0, cloned: 0, bytes: 0, mismatches: 0, errors: 0 }
}

impl Default for Stats {
    fn default() -> (r: Stats)
        ensures
            r == no_stats(),
            r.candidates == 0 && r.verified == 0 && r.cloned == 0,
            r.bytes == 0 && r.mismatches == 0 && r.errors == 0,
    {
        Stats { candidates: 0, verified: 0, cloned: 0, bytes: 0, mismatches: 0, errors: 0 }
    }
}

impl Stats {
    /// Whether each count of the sum of `self` and `o` fits.
    pub open spec fn sum_fits(self, o: Stats) -> bool {
        &&& self.candidates + o.candidates <= usize::MAX
        &&& self.verified + o.verified <= usize::MAX
        &&& self.cloned + o.cloned <= usize::MAX
        &&& self.bytes + o.bytes <= u64::MAX
        &&& self.mismatches + o.mismatches <= usize::MAX
        &&& self.errors + o.errors <= usize::MAX
    }

    /// Whether each count of the sum of `self` and `o` fits.
    pub fn fits(&self, o: &Stats) -> (r: bool)
        ensures
            r == self.sum_fits(*o),
    {
        o.candidates <= usize::MAX - self.candidates && o.verified <= usize::MAX - self.verified
            && o.cloned <= usize::MAX - self.cloned && o.bytes <= u64::MAX - self.bytes
            && o.mismatches <= usize::MAX - self.mismatches && o.errors <= usize::MAX - self.errors
    }

    /// Adds the counts of `o`.
    pub fn add_assign(&mut self, o: Stats)
        requires
            old(self).sum_fits(o),
        ensures
            final(self).candidates == old(self).candidates + o.candidates,
            final(self).verified == old(self).verified + o.verified,
            final(self).cloned == old(self).cloned + o.cloned,
            final(self).bytes == old(self).bytes + o.bytes,
            final(self).mismatches == old(self).mismatches + o.mismatches,
            final(self).errors == old(self).errors + o.errors,
    {
        self.candidates = self.candidates + o.candidates;
        self.verified = self.verified + o.verified;
        self.cloned = self.cloned + o.cloned;
        self.bytes = self.bytes + o.bytes;
        self.mismatches = self.mismatches + o.mismatches;
        self.errors = self.errors + o.errors;
    }
}

/// How to dedup.
#[derive(Debug, Clone, Copy, PartialEq, Eq)]
pub struct Opts {
    /// Compare and count, change nothing.
    pub dry_run: bool,
    /// The kernel can compare and clone in one operation.
    pub fideduperange: bool,
}

impl Opts {
    /// Whether the ranges are compared here rather than in the kernel.
    pub open spec fn compares(self) -> bool {
        self.dry_run || !self.fideduperange
    }
}

/// Bytes in chunk `chunk` of a file of `size` bytes: the last chunk is short,
/// and one at or past the end has none.
pub open spec fn bytes_in_chunk(size: nat, chunk: nat, blksz: nat) -> nat {
    let off = chunk * blksz;
    if size <= off {
        0
    } else if size - off < blksz {
        (size - off) as nat
    } else {
        blksz
    }
}

/// Bytes in chunk `chunk` of the file `h`.
pub fn chunk_len(h: &Hashed, chunk: u32, blksz: u32) -> (r: u64)
    ensures
        r == bytes_in_chunk(h.stat.size as nat, chunk as nat, blksz as nat),
{
    let off: u64 = Loc { file: 0, chunk }.off(blksz);
    let rest: u64 = h.stat.size.saturating_sub(off);
    if rest < blksz as u64 {
        rest
    } else {
        blksz as u64
    }
}

/// One error in the chain of an error's causes.
#[derive(Debug, Clone, Copy, PartialEq, Eq)]
pub enum Cause {
    /// A file was not there.
    NotFound,
    /// A file was shorter than expected.
    UnexpectedEof,
    /// Any other I/O error.
    OtherIo,
    /// Not an I/O error.
    Other,
}

/// Whether an error with these causes comes of a file that vanished or shrank.
pub open spec fn says_gone(causes: Seq<Cause>) -> bool {
    exists|i: int|
        0 <= i < causes.len() && (#[trigger] causes[i] == Cause::NotFound || causes[i]
            == Cause::UnexpectedEof)
}

/// Whether an error with these causes comes of a file that vanished or shrank
/// since it was scanned. Any cause in the chain counts, not only the outermost.
pub fn is_not_found(causes: &[Cause]) -> (r: bool)
    ensures
        r == says_gone(causes@),
{
    let mut i: usize = 0;
    while i < causes.len()
        invariant
            i <= causes@.len(),
            forall|j: int|
                0 <= j < i ==> (#[trigger] causes@[j]) != Cause::NotFound && causes@[j]
                    != Cause::UnexpectedEof,
        decreases causes@.len() - i,
    {
        match causes[i] {
            Cause::NotFound | Cause::UnexpectedEof => {
                assert(says_gone(causes@)) by {
                    assert(causes@[i as int] == Cause::NotFound || causes@[i as int]
                        == Cause::UnexpectedEof);
                }
                return true;
            },
            _ => {},
        }
        i = i + 1;
    }
    false
}

/// What is to be done next for a group.
#[derive(Debug, Clone, Copy, PartialEq, Eq)]
pub enum Step {
    /// Open the source, which is never written to.
    OpenSource { file: u32 },
    /// Read a range of the source.
    ReadSource { off: u64, len: u64 },
    /// Open a target, for the range at `off`.
    OpenTarget { file: u32, off: u64, write: bool },
    /// Compare and clone a range of the source into the target in the kernel.
    DedupeRange { src_off: u64, dst_off: u64, len: u64 },
    /// Read a range of the target.
    ReadTarget { off: u64, len: u64 },
    /// Clone a range of the source into the target.
    CloneRange { src_off: u64, dst_off: u64, len: u64 },
    /// Nothing is left.
    Done,
}

/// What became of a step.
#[derive(Debug, Clone, Copy)]
pub enum Reply<'a> {
    /// The file is open.
    Opened,
    /// The bytes of the range.
    Read(&'a [u8]),
    /// The kernel's verdict on the two ranges.
    Deduped(Dedupe),
    /// The range is cloned.
    Cloned,
    /// The file vanished or shrank.
    Gone,
    /// It failed otherwise.
    Failed,
}

/// The model of a reply.
pub enum Event {
    Opened,
    Read(Seq<u8>),
    Deduped(Dedupe),
    Cloned,
    Gone,
    Failed,
}

impl<'a> View for Reply<'a> {
    type V = Event;

    open spec fn view(&self) -> Event {
        match self {
            Reply::Opened => Event::Opened,
            Reply::Read(data) => Event::Read(data@),
            Reply::Deduped(d) => Event::Deduped(*d),
            Reply::Cloned => Event::Cloned,
            Reply::Gone => Event::Gone,
            Reply::Failed => Event::Failed,
        }
    }
}

/// How far the work on a group is; the number is that of the target.
#[derive(Debug, Clone, Copy, PartialEq, Eq)]
pub enum At {
    OpenSource,
    ReadSource,
    OpenTarget(usize),
    DedupeRange(usize),
    ReadTarget(usize),
    CloneRange(usize),
    Done,
}

/// The model of the work on a group. `targets` are the places that the source
/// may be cloned to and `data` is what was read of the source.
pub struct Run {
    pub opts: Opts,
    pub blksz: u32,
    pub len: u64,
    pub src: Loc,
    pub targets: Seq<Loc>,
    pub at: At,
    pub data: Seq<u8>,
    pub stats: Stats,
}

impl Run {
    /// Goes on to target `i`, or to the end if there is none.
    pub open spec fn to_target(self, i: int) -> Run {
        if i < self.targets.len() {
            Run {
                at: At::OpenTarget(i as usize),
                stats: Stats { candidates: (self.stats.candidates + 1) as usize, ..self.stats },
                ..self
            }
        } else {
            Run { at: At::Done, ..self }
        }
    }

    /// Counts a target that shares `bytes` bytes with the source, or would.
    pub open spec fn count_verified(self, bytes: u64) -> Run {
        Run {
            stats: Stats {
                verified: (self.stats.verified + 1) as usize,
                cloned: if self.opts.dry_run {
                    self.stats.cloned
                } else {
                    (self.stats.cloned + 1) as usize
                },
                bytes: (self.stats.bytes + bytes) as u64,
                ..self.stats
            },
            ..self
        }
    }

    /// Counts a target whose bytes differ from the source's.
    pub open spec fn count_mismatch(self) -> Run {
        Run {
            stats: Stats { mismatches: (self.stats.mismatches + 1) as usize, ..self.stats },
            ..self
        }
    }

    /// Counts an error.
    pub open spec fn count_error(self) -> Run {
        Run { stats: Stats { errors: (self.stats.errors + 1) as usize, ..self.stats }, ..self }
    }

    /// Gives up on the group, or on the target at hand.
    pub open spec fn give_up(self) -> Run {
        match self.at {
            At::OpenTarget(i) | At::DedupeRange(i) | At::ReadTarget(i) | At::CloneRange(
                i,
            ) => self.to_target(i + 1),
            _ => Run { at: At::Done, ..self },
        }
    }

    /// The step that is due.
    pub open spec fn step(self) -> Step {
        match self.at {
            At::OpenSource => Step::OpenSource { file: self.src.file },
            At::ReadSource => Step::ReadSource {
                off: (self.src.chunk * self.blksz) as u64,
                len: self.len,
            },
            At::OpenTarget(i) => Step::OpenTarget {
                file: self.targets[i as int].file,
                off: (self.targets[i as int].chunk * self.blksz) as u64,
                write: !self.opts.dry_run,
            },
            At::DedupeRange(i) => Step::DedupeRange {
                src_off: (self.src.chunk * self.blksz) as u64,
                dst_off: (self.targets[i as int].chunk * self.blksz) as u64,
                len: self.len,
            },
            At::ReadTarget(i) => Step::ReadTarget {
                off: (self.targets[i as int].chunk * self.blksz) as u64,
                len: self.len,
            },
            At::CloneRange(i) => Step::CloneRange {
                src_off: (self.src.chunk * self.blksz) as u64,
                dst_off: (self.targets[i as int].chunk * self.blksz) as u64,
                len: self.len,
            },
            At::Done => Step::Done,
        }
    }

    /// Whether `e` can become of the step that is due.
    pub open spec fn accepts(self, e: Event) -> bool {
        match self.at {
            At::OpenSource | At::OpenTarget(_) => e is Opened || e is Gone || e is Failed,
            At::ReadSource | At::ReadTarget(_) => e is Read || e is Gone || e is Failed,
            At::DedupeRange(_) => e is Deduped || e is Gone || e is Failed,
            At::CloneRange(_) => e is Cloned || e is Gone || e is Failed,
            At::Done => false,
        }
    }

    /// The work after `e` became of the step that was due.
    pub open spec fn after(self, e: Event) -> Run {
        match (self.at, e) {
            (_, Event::Gone) => self.give_up(),
            (_, Event::Failed) => self.count_error().give_up(),
            (At::OpenSource, Event::Opened) => if self.opts.compares() {
                Run { at: At::ReadSource, ..self }
            } else {
                self.to_target(0)
            },
            (At::ReadSource, Event::Read(data)) => Run { data, ..self }.to_target(0),
            (At::OpenTarget(i), Event::Opened) => if self.opts.compares() {
                Run { at: At::ReadTarget(i), ..self }
            } else {
                Run { at: At::DedupeRange(i), ..self }
            },
            (At::DedupeRange(i), Event::Deduped(d)) => match d {
                Dedupe::Same(bytes) => self.count_verified(bytes).to_target(i + 1),
                Dedupe::Differs => self.count_mismatch().to_target(i + 1),
                Dedupe::Unsupported => self.count_error().to_target(i + 1),
            },
            (At::ReadTarget(i), Event::Read(data)) => if data != self.data {
                self.count_mismatch().to_target(i + 1)
            } else if self.opts.dry_run {
                self.count_verified(self.len).to_target(i + 1)
            } else {
                Run { at: At::CloneRange(i), ..self }
            },
            (At::CloneRange(i), Event::Cloned) => self.count_verified(self.len).to_target(i + 1),
            _ => self,
        }
    }

    /// Targets that were taken up.
    pub open spec fn taken(self) -> int {
        match self.at {
            At::OpenSource | At::ReadSource => 0,
            At::OpenTarget(i) | At::DedupeRange(i) | At::ReadTarget(i) | At::CloneRange(i) => i + 1,
            At::Done => self.stats.candidates as int,
        }
    }

    /// Targets that are finished.
    pub open spec fn finished(self) -> int {
        match self.at {
            At::OpenSource | At::ReadSource => 0,
            At::OpenTarget(i) | At::DedupeRange(i) | At::ReadTarget(i) | At::CloneRange(i) => i as int,
            At::Done => self.stats.candidates as int,
        }
    }

    /// Whether the work ended with an error at the source.
    pub open spec fn source_failed(self) -> bool {
        &&& self.at is Done
        &&& self.stats == Stats { errors: 1, ..no_stats() }
    }

    /// Whether the work ended at the source, with no target taken up.
    pub open spec fn source_lost(self) -> bool {
        &&& self.at is Done
        &&& self.stats == no_stats() || self.source_failed()
    }

    /// What holds at every step: only what the options allow is under way, and
    /// every target taken up is counted once.
    pub open spec fn wf(self) -> bool {
        &&& match self.at {
            At::OpenTarget(i) => i < self.targets.len(),
            At::DedupeRange(i) => i < self.targets.len() && !self.opts.compares(),
            At::ReadTarget(i) => i < self.targets.len() && self.opts.compares(),
            At::CloneRange(i) => i < self.targets.len() && self.opts.compares()
                && !self.opts.dry_run,
            At::ReadSource => self.opts.compares(),
            _ => true,
        }
        &&& self.stats.candidates == self.taken() <= self.targets.len()
        &&& self.stats.cloned == if self.opts.dry_run {
            0
        } else {
            self.stats.verified
        }
        &&& self.stats.verified + self.stats.mismatches + self.stats.errors <= self.finished()
            || self.source_failed()
        &&& self.targets.len() < usize::MAX
        &&& self.opts.compares() ==> self.stats.bytes == self.stats.verified * self.len
        &&& self.stats.verified == 0 ==> self.stats.bytes == 0
        &&& self.at is Done ==> self.stats.candidates == self.targets.len() || self.source_lost()
    }

    /// The bytes that `e` adds to the count.
    pub open spec fn gain(self, e: Event) -> nat {
        match (self.at, e) {
            (At::DedupeRange(_), Event::Deduped(Dedupe::Same(bytes))) => bytes as nat,
            (At::ReadTarget(_), Event::Read(data)) if data == self.data && self.opts.dry_run => self.len as nat,
            (At::CloneRange(_), Event::Cloned) => self.len as nat,
            _ => 0,
        }
    }

    /// How much is left to do.
    pub open spec fn left(self) -> int {
        match self.at {
            At::OpenSource => 3 * self.targets.len() as int + 2,
            At::ReadSource => 3 * self.targets.len() as int + 1,
            At::OpenTarget(i) => 3 * (self.targets.len() - i),
            At::DedupeRange(i) | At::ReadTarget(i) => 3 * (self.targets.len() - i) - 1,
            At::CloneRange(i) => 3 * (self.targets.len() - i) - 2,
            At::Done => 0,
        }
    }
}

/// What holds at every step holds after each, as long as the bytes can be counted.
pub proof fn after_keeps_wf(run: Run, e: Event)
    requires
        run.wf(),
        run.accepts(e),
        run.stats.bytes + run.gain(e) <= u64::MAX,
    ensures
        run.after(e).wf(),
{
    assert((run.stats.verified + 1) * run.len == run.stats.verified * run.len + run.len)
        by (nonlinear_arith);
}

/// Each reply brings the work nearer to its end.
pub proof fn after_makes_progress(run: Run, e: Event)
    requires
        run.wf(),
        run.accepts(e),
    ensures
        0 <= run.after(e).left() < run.left(),
{
}

/// Every target is taken up: work that gets past its source ends with each of
/// them counted as a candidate, and work that loses its source with none.
pub proof fn every_target_is_taken_up(run: Run, e: Event)
    requires
        run.wf(),
        run.accepts(e),
        run.after(e).at is Done,
    ensures
        run.after(e).stats.candidates == if (run.at is OpenSource || run.at is ReadSource) && (e is Gone
            || e is Failed) {
            0
        } else {
            run.targets.len()
        },
{
}

/// A dry run changes nothing: no step opens a file for writing or clones.
pub proof fn dry_run_changes_nothing(run: Run)
    requires
        run.wf(),
        run.opts.dry_run,
    ensures
        run.step() !is DedupeRange,
        run.step() !is CloneRange,
        run.step() matches Step::OpenTarget { write, .. } ==> !write,
{
}

/// A range is cloned outside the kernel's own check only right after its bytes
/// were read and found equal to those of the source.
pub proof fn clones_follow_equal_reads(run: Run, e: Event)
    requires
        run.wf(),
        run.accepts(e),
        run.after(e).step() is CloneRange,
    ensures
        e == Event::Read(run.data),
        run.step() is ReadTarget,
        run.after(e).at == At::CloneRange(run.at->ReadTarget_0),
{
}

/// What targets are compared with is what was read of the source, throughout.
pub proof fn targets_are_compared_with_the_source(run: Run, e: Event)
    requires
        run.wf(),
        run.accepts(e),
    ensures
        run.after(e).data == match e {
            Event::Read(data) if run.step() is ReadSource => data,
            _ => run.data,
        },
        run.after(e).src == run.src,
        run.after(e).targets == run.targets,
        run.after(e).len == run.len,
{
}

/// The kernel's compare-and-clone is asked for only where it is there.
pub proof fn dedupe_needs_kernel_support(run: Run)
    requires
        run.wf(),
        run.step() is DedupeRange,
    ensures
        run.opts.fideduperange,
        !run.opts.dry_run,
{
}

/// The work on one group, step by step. The first chunk is the source; the
/// others are cloned from it.
pub struct GroupRun {
    opts: Opts,
    blksz: u32,
    len: u64,
    src: Loc,
    targets: Vec<Loc>,
    at: At,
    data: Vec<u8>,
    stats: Stats,
}

impl View for GroupRun {
    type V = Run;

    closed spec fn view(&self) -> Run {
        Run {
            opts: self.opts,
            blksz: self.blksz,
            len: self.len,
            src: self.src,
            targets: self.targets@,
            at: self.at,
            data: self.data@,
            stats: self.stats,
        }
    }
}

/// The length of the chunk at `loc`.
pub open spec fn len_at<P>(files: Seq<(P, Hashed)>, loc: Loc, blksz: u32) -> nat {
    bytes_in_chunk(files[loc.file as int].1.stat.size as nat, loc.chunk as nat, blksz as nat)
}

/// Those of `locs` whose chunk has `len` bytes, in order.
pub open spec fn of_length<P>(
    files: Seq<(P, Hashed)>,
    locs: Seq<Loc>,
    blksz: u32,
    len: nat,
) -> Seq<Loc>
    decreases locs.len(),
{
    if locs.len() == 0 {
        Seq::empty()
    } else {
        let rest = of_length(files, locs.drop_last(), blksz, len);
        if len_at(files, locs.last(), blksz) == len {
            rest.push(locs.last())
        } else {
            rest
        }
    }
}

/// Every target of a group lies in its file and has the length of the source,
/// and a range is shorter than a block only where its file ends.
pub proof fn ranges_lie_in_files<P>(
    files: Seq<(P, Hashed)>,
    locs: Seq<Loc>,
    blksz: u32,
    len: nat,
    i: int,
)
    requires
        len > 0,
        0 <= i < of_length(files, locs, blksz, len).len(),
    ensures
        ({
            let t = of_length(files, locs, blksz, len)[i];
            let size = files[t.file as int].1.stat.size;
            &&& locs.contains(t)
            &&& len_at(files, t, blksz) == len
            &&& t.chunk * blksz + len <= size
            &&& len == blksz || (len < blksz && t.chunk * blksz + len == size)
        }),
    decreases locs.len(),
{
    let less = locs.drop_last();
    let rest = of_length(files, less, blksz, len);
    if i < rest.len() {
        ranges_lie_in_files(files, less, blksz, len, i);
        let j = choose|j: int| 0 <= j < less.len() && less[j] == rest[i];
        assert(locs[j] == rest[i]);
    } else {
        assert(locs[locs.len() - 1] == locs.last());
    }
}

impl GroupRun {
    /// The work on the group `locs` of chunks of `files`. A chunk whose length
    /// is not that of the source, such as the short tail of a file, is no
    /// target; and where the source is past the end of its file, which then
    /// changed since it was scanned, there is nothing to do.
    pub fn new<P>(files: &[(P, Hashed)], blksz: u32, locs: &[Loc], opts: Opts) -> (r: GroupRun)
        requires
            locs@.len() > 0,
            forall|i: int| 0 <= i < locs@.len() ==> (#[trigger] locs@[i]).file < files@.len(),
        ensures
            r@.wf(),
            r@.opts == opts,
            r@.blksz == blksz,
            r@.src == locs@[0],
            r@.len == len_at(files@, locs@[0], blksz),
            r@.len == bytes_in_chunk(
                files@[locs@[0].file as int].1.stat.size as nat,
                locs@[0].chunk as nat,
                blksz as nat,
            ),
            r@.targets == of_length(files@, locs@.skip(1), blksz, r@.len as nat),
            r@.at == if r@.len == 0 {
                At::Done
            } else {
                At::OpenSource
            },
            r@.data == Seq::<u8>::empty(),
            r@.stats == no_stats(),
    {
        let src = locs[0];
        let len: u64 = chunk_len(&files[src.file as usize].1, src.chunk, blksz);
        let mut targets: Vec<Loc> = Vec::new();
        let mut i: usize = 1;
        assert(locs@.subrange(1, 1) =~= Seq::<Loc>::empty());
        while i < locs.len()
            invariant
                1 <= i <= locs@.len(),
                forall|j: int| 0 <= j < locs@.len() ==> (#[trigger] locs@[j]).file < files@.len(),
                targets@ == of_length(files@, locs@.subrange(1, i as int), blksz, len as nat),
                targets@.len() < i,
            decreases locs@.len() - i,
        {
            let dst = locs[i];
            assert(locs@.subrange(1, i + 1).drop_last() =~= locs@.subrange(1, i as int));
            assert(locs@.subrange(1, i + 1).last() == dst);
            if chunk_len(&files[dst.file as usize].1, dst.chunk, blksz) == len {
                targets.push(dst);
            }
            i = i + 1;
        }
        assert(locs@.subrange(1, locs@.len() as int) =~= locs@.skip(1));
        assert(locs@.len() == locs.len());
        GroupRun {
            opts,
            blksz,
            len,
            src,
            targets,
            at: if len == 0 {
                At::Done
            } else {
                At::OpenSource
            },
            data: Vec::new(),
            stats: Stats::default(),
        }
    }

    /// The step that is due.
    pub fn step(&self) -> (r: Step)
        requires
            self@.wf(),
        ensures
            r == self@.step(),
    {
        match self.at {
            At::OpenSource => Step::OpenSource { file: self.src.file },
            At::ReadSource => Step::ReadSource { off: self.src.off(self.blksz), len: self.len },
            At::OpenTarget(i) => Step::OpenTarget {
                file: self.targets[i].file,
                off: self.targets[i].off(self.blksz),
                write: !self.opts.dry_run,
            },
            At::DedupeRange(i) => Step::DedupeRange {
                src_off: self.src.off(self.blksz),
                dst_off: self.targets[i].off(self.blksz),
                len: self.len,
            },
            At::ReadTarget(i) => Step::ReadTarget {
                off: self.targets[i].off(self.blksz),
                len: self.len,
            },
            At::CloneRange(i) => Step::CloneRange {
                src_off: self.src.off(self.blksz),
                dst_off: self.targets[i].off(self.blksz),
                len: self.len,
            },
            At::Done => Step::Done,
        }
    }

    /// What the work did so far.
    pub fn stats(&self) -> (r: Stats)
        ensures
            r == self@.stats,
    {
        self.stats
    }

    /// Whether `bytes` more can be counted.
    pub fn can_count(&self, bytes: u64) -> (r: bool)
        ensures
            r == (self@.stats.bytes + bytes <= u64::MAX),
    {
        bytes <= u64::MAX - self.stats.bytes
    }

    fn to_target(&mut self, i: usize)
        requires
            old(self)@.stats.candidates < usize::MAX || i >= old(self)@.targets.len(),
        ensures
            final(self)@ == old(self)@.to_target(i as int),
    {
        if i < self.targets.len() {
            self.at = At::OpenTarget(i);
            self.stats.candidates = self.stats.candidates + 1;
        } else {
            self.at = At::Done;
        }
    }

    fn count_verified(&mut self, bytes: u64)
        requires
            old(self)@.stats.verified < usize::MAX,
            old(self)@.stats.cloned < usize::MAX,
            old(self)@.stats.bytes + bytes <= u64::MAX,
        ensures
            final(self)@ == old(self)@.count_verified(bytes),
    {
        self.stats.verified = self.stats.verified + 1;
        if !self.opts.dry_run {
            self.stats.cloned = self.stats.cloned + 1;
        }
        self.stats.bytes = self.stats.bytes + bytes;
    }

    fn give_up(&mut self)
        requires
            old(self)@.wf(),
        ensures
            final(self)@ == old(self)@.give_up(),
    {
        match self.at {
            At::OpenTarget(i) | At::DedupeRange(i) | At::ReadTarget(i) | At::CloneRange(i) => {
                self.to_target(i + 1);
            },
            _ => {
                self.at = At::Done;
            },
        }
    }

    /// Takes account of what became of the step that was due.
    pub fn reply(&mut self, r: Reply<'_>)
        requires
            old(self)@.wf(),
            old(self)@.accepts(r@),
            old(self)@.stats.bytes + old(self)@.gain(r@) <= u64::MAX,
        ensures
            final(self)@ == old(self)@.after(r@),
            final(self)@.wf(),
    {
        proof {
            after_keeps_wf(self@, r@);
        }
        match r {
            Reply::Gone => self.give_up(),
            Reply::Failed => {
                self.give_up();
                self.stats.errors = self.stats.errors + 1;
            },
            Reply::Opened => match self.at {
                At::OpenSource => if self.opts.dry_run || !self.opts.fideduperange {
                    self.at = At::ReadSource;
                } else {
                    self.to_target(0);
                },
                At::OpenTarget(i) => if self.opts.dry_run || !self.opts.fideduperange {
                    self.at = At::ReadTarget(i);
                } else {
                    self.at = At::DedupeRange(i);
                },
                _ => {},
            },
            Reply::Read(data) => match self.at {
                At::ReadSource => {
                    self.data = vstd::slice::slice_to_vec(data);
                    self.to_target(0);
                },
                At::ReadTarget(i) => if !same_bytes(self.data.as_slice(), data) {
                    self.stats.mismatches = self.stats.mismatches + 1;
                    self.to_target(i + 1);
                } else if self.opts.dry_run {
                    self.count_verified(self.len);
                    self.to_target(i + 1);
                } else {
                    self.at = At::CloneRange(i);
                },
                _ => {},
            },
            Reply::Deduped(d) => match self.at {
                At::DedupeRange(i) => {
                    match d {
                        Dedupe::Same(bytes) => self.count_verified(bytes),
                        Dedupe::Differs => {
                            self.stats.mismatches = self.stats.mismatches + 1;
                        },
                        Dedupe::Unsupported => {
                            self.stats.errors = self.stats.errors + 1;
                        },
                    }
                    self.to_target(i + 1);
                },
                _ => {},
            },
            Reply::Cloned => match self.at {
                At::CloneRange(i) => {
                    self.count_verified(self.len);
                    self.to_target(i + 1);
                },
                _ => {},
            },
        }
    }
}

proof fn lemma_offset_fits(chunk: u32, blksz: u32)
    ensures
        0 <= chunk * blksz <= u64::MAX,
{
    assert(0 <= chunk * blksz <= 0xffff_ffff * 0xffff_ffff) by (nonlinear_arith)
        requires
            chunk <= 0xffff_ffff,
            blksz <= 0xffff_ffff,
    ;
}

/// Every step names the file and the range of the chunk that it is about: chunk
/// `n` of a file starts at `n` blocks, and all chunks of a group have one length.
pub proof fn steps_name_their_ranges(run: Run)
    requires
        run.wf(),
    ensures
        match run.step() {
            Step::OpenSource { file } => run.at == At::OpenSource && file == run.src.file,
            Step::ReadSource { off, len } => run.at == At::ReadSource && off == run.src.chunk
                * run.blksz && len == run.len,
            Step::OpenTarget { file, off, write } => exists|i: int|
                0 <= i < run.targets.len() && run.at == At::OpenTarget(i as usize) && file == (
                #[trigger] run.targets[i]).file && off == run.targets[i].chunk * run.blksz && write
                    == !run.opts.dry_run,
            Step::ReadTarget { off, len } => exists|i: int|
                0 <= i < run.targets.len() && run.at == At::ReadTarget(i as usize) && off == (
                #[trigger] run.targets[i]).chunk * run.blksz && len == run.len,
            Step::DedupeRange { src_off, dst_off, len } => exists|i: int|
                0 <= i < run.targets.len() && run.at == At::DedupeRange(i as usize) && src_off
                    == run.src.chunk * run.blksz && dst_off == (#[trigger] run.targets[i]).chunk
                    * run.blksz && len == run.len,
            Step::CloneRange { src_off, dst_off, len } => exists|i: int|
                0 <= i < run.targets.len() && run.at == At::CloneRange(i as usize) && src_off
                    == run.src.chunk * run.blksz && dst_off == (#[trigger] run.targets[i]).chunk
                    * run.blksz && len == run.len,
            Step::Done => run.at == At::Done,
        },
{
    lemma_offset_fits(run.src.chunk, run.blksz);
    match run.at {
        At::OpenTarget(i) | At::ReadTarget(i) | At::DedupeRange(i) | At::CloneRange(i) => {
            assert(i < run.targets.len());
            let t = run.targets[i as int];
            lemma_offset_fits(t.chunk, run.blksz);
        },
        _ => {},
    }
}

/// What is cloned over is what was read and found equal: the range of a clone is
/// that of the read right before it, in the target that was opened for it, and it
/// is cloned from the range that was read of the source.
pub proof fn clones_hit_what_was_read(run: Run, e: Event, src_off: u64, dst_off: u64, len: u64)
    requires
        run.wf(),
        run.accepts(e),
        run.after(e).step() == (Step::CloneRange { src_off, dst_off, len }),
    ensures
        run.step() == (Step::ReadTarget { off: dst_off, len }),
        e == Event::Read(run.data),
        run.src.chunk * run.blksz == src_off,
        ({
            let reading = Run { at: At::ReadSource, ..run };
            reading.step() == (Step::ReadSource { off: src_off, len })
        }),
        match run.at {
            At::ReadTarget(i) => ({
                let opening = Run { at: At::OpenTarget(i), ..run };
                let file = run.targets[i as int].file;
                opening.step() == (Step::OpenTarget { file, off: dst_off, write: true })
            }),
            _ => false,
        },
{
    lemma_offset_fits(run.src.chunk, run.blksz);
}

/// The kernel compares and clones, into the target that was opened for it, the
/// range for which it was opened.
pub proof fn dedupes_hit_what_was_opened(run: Run, e: Event, src_off: u64, dst_off: u64, len: u64)
    requires
        run.wf(),
        run.accepts(e),
        run.after(e).step() == (Step::DedupeRange { src_off, dst_off, len }),
    ensures
        e == Event::Opened,
        run.step() matches Step::OpenTarget { off, write, .. } && off == dst_off && write,
        src_off == run.src.chunk * run.blksz,
        len == run.len,
{
    lemma_offset_fits(run.src.chunk, run.blksz);
}

/// What becomes of a step is counted as what it is. A target is verified when
/// its bytes are known to equal the source's and, but in a dry run, it is cloned;
/// it is a mismatch when they differ; every failure is an error, and what is gone
/// is nothing.
pub proof fn replies_are_counted(run: Run, e: Event)
    requires
        run.wf(),
        run.accepts(e),
        run.stats.bytes + run.gain(e) <= u64::MAX,
    ensures
        ({
            let next = run.after(e).stats;
            let was = run.stats;
            let same_here = run.at is ReadTarget && e == Event::Read(run.data);
            let same_there = run.at is DedupeRange && e is Deduped && e->Deduped_0 is Same;
            let cloned = run.at is CloneRange && e == Event::Cloned;
            let verified = same_there || cloned || (same_here && run.opts.dry_run);
            let differs = (run.at is ReadTarget && e is Read && e != Event::Read(run.data)) || (
            run.at is DedupeRange && e == Event::Deduped(Dedupe::Differs));
            let failed = e == Event::Failed || (run.at is DedupeRange && e == Event::Deduped(
                Dedupe::Unsupported,
            ));
            &&& next.verified == was.verified + if verified {
                1int
            } else {
                0
            }
            &&& next.cloned == was.cloned + if verified && !run.opts.dry_run {
                1int
            } else {
                0
            }
            &&& next.bytes == was.bytes + if same_there {
                e->Deduped_0->Same_0 as int
            } else if verified {
                run.len as int
            } else {
                0
            }
            &&& next.mismatches == was.mismatches + if differs {
                1int
            } else {
                0
            }
            &&& next.errors == was.errors + if failed {
                1int
            } else {
                0
            }
            &&& next.candidates == was.candidates + if run.after(e).at is OpenTarget {
                1int
            } else {
                0
            }
        }),
{
}

/// The source is opened once, and read where the bytes are compared here; then
/// the targets are taken one after the other, none left out, whatever becomes of
/// the one before.
pub proof fn targets_come_in_order(run: Run, e: Event)
    requires
        run.wf(),
        run.accepts(e),
    ensures
        ({
            let n = run.targets.len();
            let next = run.after(e).at;
            let lost = e == Event::Gone || e == Event::Failed;
            let here = run.opts.dry_run || !run.opts.fideduperange;
            let first = if n > 0 {
                At::OpenTarget(0)
            } else {
                At::Done
            };
            match run.at {
                At::OpenSource => next == if lost {
                    At::Done
                } else if here {
                    At::ReadSource
                } else {
                    first
                },
                At::ReadSource => next == if lost {
                    At::Done
                } else {
                    first
                },
                At::OpenTarget(i) if !lost => next == if here {
                    At::ReadTarget(i)
                } else {
                    At::DedupeRange(i)
                },
                At::ReadTarget(i) if e == Event::Read(run.data) && !run.opts.dry_run => next
                    == At::CloneRange(i),
                At::OpenTarget(i) | At::ReadTarget(i) | At::DedupeRange(i) | At::CloneRange(i) => next
                    == if i + 1 < n {
                    At::OpenTarget((i + 1) as usize)
                } else {
                    At::Done
                },
                At::Done => false,
            }
        }),
        run.after(e).opts == run.opts,
        run.after(e).blksz == run.blksz,
{
}

/// Which replies a step can have: opening succeeds or not, reading gives bytes or
/// not, the kernel gives a verdict or not, cloning succeeds or not.
pub proof fn every_outcome_is_accepted(run: Run, e: Event)
    ensures
        run.accepts(e) <==> run.at != At::Done && (e == Event::Gone || e == Event::Failed || match run.at {
            At::OpenSource | At::OpenTarget(_) => e == Event::Opened,
            At::ReadSource | At::ReadTarget(_) => e is Read,
            At::DedupeRange(_) => e is Deduped,
            At::CloneRange(_) => e == Event::Cloned,
            At::Done => false,
        }),
{
}

/// What the work on a group is told where nothing fails: `world` gives the bytes
/// of each chunk.
pub open spec fn told(run: Run, world: spec_fn(Loc) -> Seq<u8>) -> Event {
    match run.at {
        At::OpenSource | At::OpenTarget(_) => Event::Opened,
        At::ReadSource => Event::Read(world(run.src)),
        At::ReadTarget(i) => Event::Read(world(run.targets[i as int])),
        At::DedupeRange(i) => Event::Deduped(
            if world(run.targets[i as int]) == world(run.src) {
                Dedupe::Same(run.len)
            } else {
                Dedupe::Differs
            },
        ),
        At::CloneRange(_) => Event::Cloned,
        At::Done => Event::Gone,
    }
}

/// The work after `n` replies.
pub open spec fn after_replies(run: Run, world: spec_fn(Loc) -> Seq<u8>, n: nat) -> Run
    decreases n,
{
    if n == 0 {
        run
    } else {
        after_replies(run.after(told(run, world)), world, (n - 1) as nat)
    }
}

proof fn lemma_target_done(run: Run, world: spec_fn(Loc) -> Seq<u8>, i: usize) -> (n: nat)
    requires
        run.wf(),
        run.at == At::OpenTarget(i),
        run.opts.compares() ==> run.data == world(run.src),
        run.stats.bytes == run.stats.verified * run.len,
        run.targets.len() * run.len <= u64::MAX,
    ensures
        ({
            let end = after_replies(run, world, n);
            let same = world(run.targets[i as int]) == world(run.src);
            &&& end.wf()
            &&& end.at == if i + 1 < run.targets.len() {
                At::OpenTarget((i + 1) as usize)
            } else {
                At::Done
            }
            &&& end.src == run.src && end.targets == run.targets && end.len == run.len && end.opts
                == run.opts && end.data == run.data
            &&& end.stats.verified == run.stats.verified + if same {
                1int
            } else {
                0
            }
            &&& end.stats.mismatches == run.stats.mismatches + if same {
                0int
            } else {
                1
            }
            &&& end.stats.errors == run.stats.errors
            &&& end.stats.bytes == end.stats.verified * run.len
        }),
{
    reveal_with_fuel(after_replies, 4);
    let v = run.stats.verified as int;
    let len = run.len as int;
    assert((v + 1) * len <= run.targets.len() * len) by (nonlinear_arith)
        requires
            v + 1 <= run.targets.len(),
            len >= 0,
    ;
    assert((v + 1) * len == v * len + len) by (nonlinear_arith);
    let e0 = told(run, world);
    after_keeps_wf(run, e0);
    let r1 = run.after(e0);
    let e1 = told(r1, world);
    after_keeps_wf(r1, e1);
    let r2 = r1.after(e1);
    if r2.at is CloneRange {
        let e2 = told(r2, world);
        after_keeps_wf(r2, e2);
        assert(after_replies(run, world, 3) == r2.after(e2));
        3
    } else {
        assert(after_replies(run, world, 2) == r2);
        2
    }
}

proof fn lemma_replies_add(run: Run, world: spec_fn(Loc) -> Seq<u8>, m: nat, n: nat)
    ensures
        after_replies(run, world, m + n) == after_replies(after_replies(run, world, m), world, n),
    decreases m,
{
    if m > 0 {
        lemma_replies_add(run.after(told(run, world)), world, (m - 1) as nat, n);
    }
}

proof fn lemma_targets_done(run: Run, world: spec_fn(Loc) -> Seq<u8>, i: usize) -> (n: nat)
    requires
        run.wf(),
        run.at == At::OpenTarget(i),
        run.opts.compares() ==> run.data == world(run.src),
        run.stats.bytes == run.stats.verified * run.len,
        run.targets.len() * run.len <= u64::MAX,
    ensures
        ({
            let end = after_replies(run, world, n);
            let left = run.targets.skip(i as int);
            let same = left.filter(|t: Loc| world(t) == world(run.src));
            &&& end.wf()
            &&& end.at == At::Done
            &&& end.targets == run.targets && end.opts == run.opts
            &&& end.stats.candidates == run.targets.len()
            &&& end.stats.verified == run.stats.verified + same.len()
            &&& end.stats.mismatches == run.stats.mismatches + left.len() - same.len()
            &&& end.stats.errors == run.stats.errors
            &&& end.stats.bytes == end.stats.verified * run.len
        }),
    decreases run.targets.len() - i,
{
    let pred = |t: Loc| world(t) == world(run.src);
    let left = run.targets.skip(i as int);
    let rest = run.targets.skip(i + 1);
    let first = seq![run.targets[i as int]];
    assert(left =~= first + rest);
    Seq::filter_distributes_over_add(first, rest, pred);
    assert(first.filter(pred) =~= if pred(run.targets[i as int]) {
        first
    } else {
        Seq::empty()
    }) by {
        reveal_with_fuel(Seq::filter, 2);
        assert(first.drop_last() =~= Seq::empty());
        assert(Seq::<Loc>::empty().push(run.targets[i as int]) =~= first);
    }
    let m = lemma_target_done(run, world, i);
    let next = after_replies(run, world, m);
    if i + 1 < run.targets.len() {
        let n = lemma_targets_done(next, world, (i + 1) as usize);
        lemma_replies_add(run, world, m, n);
        m + n
    } else {
        reveal(Seq::filter);
        assert(rest =~= Seq::empty());
        m
    }
}

/// Where nothing fails, the work on a group ends with every target taken up;
/// those whose bytes equal the source's, and no others, are verified, the others
/// are mismatches, and as many bytes are saved as the verified ones have.
pub proof fn equal_blocks_are_shared(run: Run, world: spec_fn(Loc) -> Seq<u8>) -> (n: nat)
    requires
        run.wf(),
        run.at == At::OpenSource,
        run.stats == no_stats(),
        run.targets.len() * run.len <= u64::MAX,
    ensures
        ({
            let end = after_replies(run, world, n);
            let same = run.targets.filter(|t: Loc| world(t) == world(run.src)).len();
            &&& end.at == At::Done
            &&& end.stats.candidates == run.targets.len()
            &&& end.stats.verified == same
            &&& end.stats.cloned == if run.opts.dry_run {
                0
            } else {
                same
            }
            &&& end.stats.bytes == same * run.len
            &&& end.stats.mismatches == run.targets.len() - same
            &&& end.stats.errors == 0
        }),
{
    reveal_with_fuel(after_replies, 3);
    let e0 = told(run, world);
    after_keeps_wf(run, e0);
    let r1 = run.after(e0);
    let (start, m): (Run, nat) = if r1.at is ReadSource {
        let e1 = told(r1, world);
        after_keeps_wf(r1, e1);
        (r1.after(e1), 2)
    } else {
        (r1, 1)
    };
    assert(after_replies(run, world, m) == start);
    assert(run.targets.skip(0) =~= run.targets);
    if run.targets.len() > 0 {
        let n = lemma_targets_done(start, world, 0);
        lemma_replies_add(run, world, m, n);
        m + n
    } else {
        reveal(Seq::filter);
        m
    }
}

/// The bytes in a chunk are those of the file between its start and the next
/// chunk's.
pub proof fn chunks_end_with_the_file(size: nat, chunk: nat, blksz: nat)
    ensures
        ({
            let from = chunk * blksz;
            let to = from + blksz;
            let n = bytes_in_chunk(size, chunk, blksz);
            &&& size <= from ==> n == 0
            &&& from < size <= to ==> n == size - from
            &&& to <= size ==> n == blksz
        }),
{
}

/// The chunks of a file, and nothing else, make up its bytes.
pub proof fn chunks_cover_the_file(size: nat, chunk: nat, blksz: nat, p: nat)
    requires
        chunk * blksz <= p < (chunk + 1) * blksz,
    ensures
        p < size <==> p < chunk * blksz + bytes_in_chunk(size, chunk, blksz),
{
    assert((chunk + 1) * blksz == chunk * blksz + blksz) by (nonlinear_arith);
}

/// The targets of a group are all of its chunks that are as long as the source,
/// in order.
pub proof fn targets_are_all_of_the_length<P>(
    files: Seq<(P, Hashed)>,
    locs: Seq<Loc>,
    blksz: u32,
    len: nat,
)
    ensures
        of_length(files, locs, blksz, len) == locs.filter(
            |l: Loc|
                bytes_in_chunk(
                    files[l.file as int].1.stat.size as nat,
                    l.chunk as nat,
                    blksz as nat,
                ) == len,
        ),
    decreases locs.len(),
{
    reveal(Seq::filter);
    if locs.len() > 0 {
        targets_are_all_of_the_length(files, locs.drop_last(), blksz, len);
    }
}

/// A file vanished or shrank if one of the causes says so, wherever it stands.
pub proof fn gone_means_any_cause(causes: Seq<Cause>)
    ensures
        says_gone(causes) <==> causes.contains(Cause::NotFound) || causes.contains(
            Cause::UnexpectedEof,
        ),
{
    if causes.contains(Cause::NotFound) {
        let i = choose|i: int| 0 <= i < causes.len() && causes[i] == Cause::NotFound;
        assert(causes[i] == Cause::NotFound);
    }
    if causes.contains(Cause::UnexpectedEof) {
        let i = choose|i: int| 0 <= i < causes.len() && causes[i] == Cause::UnexpectedEof;
        assert(causes[i] == Cause::UnexpectedEof);
    }
}

/// Counts can be added as long as no sum overflows.
pub proof fn sums_fit_when_each_does(a: Stats, b: Stats)
    ensures
        a.sum_fits(b) <==> a.candidates + b.candidates <= usize::MAX && a.verified + b.verified
            <= usize::MAX && a.cloned + b.cloned <= usize::MAX && a.bytes + b.bytes <= u64::MAX
            && a.mismatches + b.mismatches <= usize::MAX && a.errors + b.errors <= usize::MAX,
{
}

/// A reply means what it says: the bytes that were read, the verdict of the
/// kernel, and what is gone is no failure.
pub proof fn replies_mean_what_they_say(r: Reply<'_>)
    ensures
        match r {
            Reply::Opened => r@ == Event::Opened,
            Reply::Read(data) => r@ == Event::Read(data@),
            Reply::Deduped(d) => r@ == Event::Deduped(d),
            Reply::Cloned => r@ == Event::Cloned,
            Reply::Gone => r@ == Event::Gone,
            Reply::Failed => r@ == Event::Failed,
        },
{
}

} // verus!
