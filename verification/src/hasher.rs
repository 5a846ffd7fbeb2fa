//! Chunk hashes of files, and when those of the cache can stand in for them.

use crate::cache;
use crate::cache::{ChunkHash, EntryRef, FileEntry, HASH_LEN};
use crate::codec;
use vstd::prelude::*;

verus! {

/// Stands for the hash of an all-zero chunk. The index leaves such chunks out:
/// ZFS already collapses zero runs, and sparse files would put millions of
/// locations in one group.
pub const ZERO_HASH: ChunkHash = [0, 0, 0, 0, 0, 0, 0, 0, 0, 0, 0, 0, 0, 0, 0, 0];

/// Whether every byte is zero.
pub open spec fn all_zero(data: Seq<u8>) -> bool {
    forall|i: int| 0 <= i < data.len() ==> data[i] == 0
}

/// What `xxhash_rust::xxh3::xxh3_128` returns for `data`.
pub uninterp spec fn xxh3_128(data: Seq<u8>) -> u128;

/// Calls `xxhash_rust::xxh3::xxh3_128`, whose result depends on the bytes of
/// `buf` alone; what it is on given bytes is left unsaid.
#[verifier::external_body]
fn xxh3(buf: &[u8]) -> (r: u128)
    ensures
        r == xxh3_128(buf@),
{
    xxhash_rust::xxh3::xxh3_128(buf)
}

/// The bytes of a 128-bit digest, least significant first.
pub fn digest_bytes(digest: u128) -> (r: ChunkHash)
    ensures
        r@ == codec::le_bytes(digest as nat, 16),
{
    let mut r: ChunkHash = [0u8; HASH_LEN];
    codec::write_le(&mut r, 0, HASH_LEN, digest);
    proof {
        codec::lemma_le_bytes_len(digest as nat, 16);
    }
    assert(r@ =~= codec::le_bytes(digest as nat, 16));
    r
}

/// The XXH3-128 hash of a chunk.
pub fn hash_chunk(buf: &[u8]) -> (r: ChunkHash)
    ensures
        r@ == codec::le_bytes(xxh3_128(buf@) as nat, 16),
{
    digest_bytes(xxh3(buf))
}

/// Bytes that `is_zero` folds together before it looks at the outcome.
const ZERO_BLOCK: usize = 4096;

/// Whether every byte of `buf` is zero.
pub fn is_zero(buf: &[u8]) -> (r: bool)
    ensures
        r == all_zero(buf@),
        r == forall|i: int| 0 <= i < buf@.len() ==> buf@[i] == 0,
{
    let len: usize = buf.len();
    let mut from: usize = 0;
    while from < len
        invariant
            from <= len,
            len == buf@.len(),
            forall|i: int| 0 <= i < from ==> buf@[i] == 0,
        decreases len - from,
    {
        let to: usize = if len - from > ZERO_BLOCK {
            from + ZERO_BLOCK
        } else {
            len
        };
        let mut folded: u8 = 0;
        let mut i: usize = from;
        while i < to
            invariant
                from <= i <= to <= len,
                len == buf@.len(),
                folded == 0 <==> forall|j: int| from <= j < i ==> buf@[j] == 0,
            decreases to - i,
        {
            let b: u8 = buf[i];
            assert(folded | b == 0 <==> folded == 0 && b == 0) by (bit_vector);
            folded = folded | b;
            i = i + 1;
        }
        if folded != 0 {
            return false;
        }
        from = to;
    }
    true
}

/// The bytes of the hash of a chunk: the sentinel for an all-zero one.
pub open spec fn chunk_hash(data: Seq<u8>) -> Seq<u8> {
    if all_zero(data) {
        ZERO_HASH@
    } else {
        codec::le_bytes(xxh3_128(data) as nat, 16)
    }
}

/// Chunk `i` of `data`, in chunks of `blksz` bytes; the last may be short.
pub open spec fn chunk(data: Seq<u8>, blksz: nat, i: int) -> Seq<u8> {
    data.subrange(
        i * blksz,
        if (i + 1) * blksz <= data.len() {
            (i + 1) * blksz
        } else {
            data.len() as int
        },
    )
}

/// The number of chunks of `len` bytes in chunks of `blksz`.
pub open spec fn n_chunks(len: nat, blksz: nat) -> nat {
    (len / blksz + if len % blksz == 0 {
        0nat
    } else {
        1nat
    }) as nat
}

/// Whether `hashes` are those of the chunks of `data`, in offset order.
pub open spec fn are_hashes_of(hashes: Seq<ChunkHash>, data: Seq<u8>, blksz: nat) -> bool {
    &&& hashes.len() == n_chunks(data.len(), blksz)
    &&& forall|i: int|
        0 <= i < hashes.len() ==> (#[trigger] hashes[i])@ == chunk_hash(chunk(data, blksz, i))
}

/// Why a file cannot be hashed.
#[derive(Debug, Clone, Copy, PartialEq, Eq)]
pub enum HashError {
    /// The chunk size is zero.
    ZeroBlksz,
}

/// Hashes a file chunk by chunk as it is read. The reader fills a buffer of
/// one chunk, in as many reads as that takes, and reports each of them.
pub struct FileHasher {
    blksz: usize,
    off: usize,
    done: bool,
    hashes: Vec<ChunkHash>,
    hashed: Ghost<Seq<u8>>,
}

proof fn lemma_push_chunk(
    hashes: Seq<ChunkHash>,
    h: ChunkHash,
    data: Seq<u8>,
    tail: Seq<u8>,
    blksz: nat,
)
    requires
        blksz > 0,
        data.len() % blksz == 0,
        0 < tail.len() <= blksz,
        are_hashes_of(hashes, data, blksz),
        h@ == chunk_hash(tail),
    ensures
        are_hashes_of(hashes.push(h), data + tail, blksz),
        tail.len() == blksz ==> (data + tail).len() % blksz == 0,
{
    let n = data.len() / blksz;
    vstd::arithmetic::div_mod::lemma_fundamental_div_mod(data.len() as int, blksz as int);
    assert(data.len() == blksz * n);
    let all = data + tail;
    if tail.len() == blksz {
        vstd::arithmetic::mul::lemma_mul_is_distributive_add(blksz as int, n as int, 1);
        assert(all.len() == blksz * (n + 1));
        vstd::arithmetic::div_mod::lemma_div_multiples_vanish((n + 1) as int, blksz as int);
        vstd::arithmetic::div_mod::lemma_mod_multiples_basic((n + 1) as int, blksz as int);
        vstd::arithmetic::mul::lemma_mul_is_commutative(blksz as int, (n + 1) as int);
    } else {
        vstd::arithmetic::div_mod::lemma_fundamental_div_mod_converse(
            all.len() as int,
            blksz as int,
            n as int,
            tail.len() as int,
        );
    }
    assert(n_chunks(all.len(), blksz) == n + 1);
    assert forall|i: int| 0 <= i < n + 1 implies (#[trigger] hashes.push(h)[i])@ == chunk_hash(
        chunk(all, blksz, i),
    ) by {
        if i < n {
            assert((i + 1) * blksz <= n * blksz) by (nonlinear_arith)
                requires
                    i + 1 <= n,
            ;
            assert(i * blksz <= (i + 1) * blksz && 0 <= i * blksz) by (nonlinear_arith)
                requires
                    0 <= i,
            ;
            vstd::arithmetic::mul::lemma_mul_is_commutative(blksz as int, n as int);
            assert(chunk(all, blksz, i) =~= chunk(data, blksz, i));
            assert(hashes[i]@ == chunk_hash(chunk(data, blksz, i)));
        } else {
            vstd::arithmetic::mul::lemma_mul_is_commutative(blksz as int, n as int);
            assert((n + 1) * blksz == n * blksz + blksz) by (nonlinear_arith);
            assert(chunk(all, blksz, i) =~= tail);
        }
    }
}

impl FileHasher {
    #[verifier::type_invariant]
    spec fn wf(self) -> bool {
        &&& self.off < self.blksz
        &&& !self.done ==> self.hashed@.len() % self.blksz as nat == 0
        &&& are_hashes_of(self.hashes@, self.hashed@, self.blksz as nat)
    }

    /// The chunk size.
    pub closed spec fn blksz(self) -> nat {
        self.blksz as nat
    }

    /// How much of the current chunk has been read.
    pub closed spec fn filled(self) -> nat {
        self.off as nat
    }

    /// Whether the end of the file was seen.
    pub closed spec fn at_end(self) -> bool {
        self.done
    }

    /// The bytes that have been hashed.
    pub closed spec fn hashed(self) -> Seq<u8> {
        self.hashed@
    }

    /// A hasher for a file in chunks of `blksz` bytes.
    pub fn new(blksz: u32) -> (r: Result<FileHasher, HashError>)
        ensures
            match r {
                Ok(h) => {
                    &&& blksz > 0
                    &&& h.blksz() == blksz
                    &&& h.filled() == 0
                    &&& !h.at_end()
                    &&& h.hashed() == Seq::<u8>::empty()
                },
                Err(e) => blksz == 0 && e == HashError::ZeroBlksz,
            },
    {
        if blksz == 0 {
            return Err(HashError::ZeroBlksz);
        }
        assert(0nat / blksz as nat == 0 && 0nat % blksz as nat == 0) by (nonlinear_arith)
            requires
                blksz > 0,
        ;
        Ok(
            FileHasher {
                blksz: blksz as usize,
                off: 0,
                done: false,
                hashes: Vec::new(),
                hashed: Ghost(Seq::empty()),
            },
        )
    }

    /// Where in the chunk buffer the next read goes; none once the end was seen.
    pub fn next_read(&self) -> (r: Option<usize>)
        ensures
            match r {
                Some(off) => !self.at_end() && off == self.filled() && off < self.blksz(),
                None => self.at_end(),
            },
    {
        proof {
            use_type_invariant(self);
        }
        if self.done {
            None
        } else {
            Some(self.off)
        }
    }

    /// Takes account of a read of `n` bytes into `buf` at `filled()`; none were
    /// left if `n` is zero. A chunk is hashed once it is full or cut short by
    /// the end of the file.
    pub fn took(&mut self, buf: &[u8], n: usize)
        requires
            !old(self).at_end(),
            buf@.len() == old(self).blksz(),
            old(self).filled() + n <= old(self).blksz(),
        ensures
            final(self).blksz() == old(self).blksz(),
            final(self).at_end() == (n == 0),
            n == 0 ==> final(self).hashed() == old(self).hashed() + buf@.subrange(
                0,
                old(self).filled() as int,
            ),
            n > 0 && old(self).filled() + n == old(self).blksz() ==> {
                &&& final(self).filled() == 0
                &&& final(self).hashed() == old(self).hashed() + buf@
            },
            n > 0 && old(self).filled() + n < old(self).blksz() ==> {
                &&& final(self).filled() == old(self).filled() + n
                &&& final(self).hashed() == old(self).hashed()
            },
    {
        proof {
            use_type_invariant(&*self);
        }
        let end: usize = self.off + n;
        if n > 0 && end < self.blksz {
            self.off = end;
            return;
        }
        let blksz: usize = self.blksz;
        assert(0nat / blksz as nat == 0 && 0nat % blksz as nat == 0) by (nonlinear_arith)
            requires
                blksz > 0,
        ;
        let mut cur = FileHasher {
            blksz,
            off: 0,
            done: false,
            hashes: Vec::new(),
            hashed: Ghost(Seq::empty()),
        };
        std::mem::swap(self, &mut cur);
        let ghost before = cur.hashed@;
        let mut hashes: Vec<ChunkHash> = cur.hashes;
        let ghost old_hashes = hashes@;
        let ghost tail = buf@.subrange(0, end as int);
        if end > 0 {
            let part = &buf[0..end];
            let h = if is_zero(part) {
                ZERO_HASH
            } else {
                hash_chunk(part)
            };
            hashes.push(h);
            proof {
                lemma_push_chunk(old_hashes, h, before, tail, blksz as nat);
            }
        } else {
            assert(before + tail =~= before);
        }
        proof {
            if end == blksz {
                assert(tail =~= buf@);
            }
        }
        *self =
        FileHasher { blksz, off: 0, done: n == 0, hashes, hashed: Ghost(before + tail) };
    }

    /// The hashes of the chunks so far.
    pub fn into_hashes(self) -> (r: Vec<ChunkHash>)
        ensures
            are_hashes_of(r@, self.hashed(), self.blksz()),
            forall|i: int|
                0 <= i < r@.len() ==> {
                    let data = self.hashed();
                    let from = i * self.blksz();
                    let to = vstd::math::min(from + self.blksz(), data.len() as int);
                    (exists|j: int| from <= j < to && #[trigger] data[j] != 0) ==> (
                    #[trigger] r@[i])@ == codec::le_bytes(
                        xxh3_128(data.subrange(from, to)) as nat,
                        16,
                    )
                },
    {
        proof {
            use_type_invariant(&self);
            assert forall|i: int| 0 <= i < self.hashes@.len() implies {
                let data = self.hashed();
                let from = i * self.blksz();
                let to = vstd::math::min(from + self.blksz(), data.len() as int);
                (exists|j: int| from <= j < to && #[trigger] data[j] != 0) ==> (
                #[trigger] self.hashes@[i])@ == codec::le_bytes(
                    xxh3_128(data.subrange(from, to)) as nat,
                    16,
                )
            } by {
                whole_chunks_are_hashed(self.hashes@, self.hashed(), self.blksz(), i);
            }
        }
        self.hashes
    }
}

/// Whether reads of a file can bypass the file system's cache: they must be
/// multiples of a page.
pub fn direct_reads(blksz: u32) -> (r: bool)
    ensures
        r == (blksz % 4096 == 0),
{
    blksz % 4096 == 0
}

/// What the file system reports of a file.
#[derive(Debug, Clone, Copy)]
pub struct Metadata {
    pub ino: u64,
    pub size: u64,
    pub mtime: i64,
    pub mtime_nsec: i64,
    pub ctime: i64,
    pub ctime_nsec: i64,
    pub blksize: u64,
}

/// What identifies a file and its contents. `fsid` is the id of its dataset.
#[derive(Debug, Clone, Copy)]
pub struct Stat {
    pub fsid: u64,
    pub ino: u64,
    pub size: u64,
    pub mtime_ns: i128,
    pub ctime_ns: i128,
    pub blksz: u32,
}

impl Stat {
    /// The attributes `m` of a file of dataset `fsid`. A block size that does
    /// not fit is cut to the largest that does.
    pub fn from_metadata(m: &Metadata, fsid: u64) -> (r: Stat)
        ensures
            r.fsid == fsid,
            r.ino == m.ino,
            r.size == m.size,
            r.mtime_ns == m.mtime * 1_000_000_000 + m.mtime_nsec,
            r.ctime_ns == m.ctime * 1_000_000_000 + m.ctime_nsec,
            r.blksz == if m.blksize <= u32::MAX {
                m.blksize as int
            } else {
                u32::MAX as int
            },
    {
        Stat {
            fsid,
            ino: m.ino,
            size: m.size,
            mtime_ns: m.mtime as i128 * 1_000_000_000 + m.mtime_nsec as i128,
            ctime_ns: m.ctime as i128 * 1_000_000_000 + m.ctime_nsec as i128,
            blksz: if m.blksize <= u32::MAX as u64 {
                m.blksize as u32
            } else {
                u32::MAX
            },
        }
    }

    /// The cache entry of the file, with these hashes.
    pub fn entry<'a>(&self, hashes: &'a [ChunkHash]) -> (r: EntryRef<'a>)
        ensures
            r@ == self.with_hashes(hashes@),
    {
        EntryRef {
            size: self.size,
            mtime_ns: self.mtime_ns,
            ctime_ns: self.ctime_ns,
            blksz: self.blksz,
            hashes,
        }
    }

    /// The model of the file's cache entry, with these hashes.
    pub open spec fn with_hashes(self, hashes: Seq<ChunkHash>) -> cache::Entry {
        cache::Entry {
            size: self.size,
            mtime_ns: self.mtime_ns,
            ctime_ns: self.ctime_ns,
            blksz: self.blksz,
            hashes,
        }
    }
}

/// A file whose hashes are in the cache. It carries none itself: the index is
/// their only reader, and holding them per file would dominate memory.
#[derive(Debug, Clone, Copy)]
pub struct Hashed {
    pub stat: Stat,
    pub from_cache: bool,
}

impl Hashed {
    /// A file with these attributes.
    pub fn new(stat: &Stat, from_cache: bool) -> (r: Hashed)
        ensures
            r.stat == stat,
            r.from_cache == from_cache,
    {
        Hashed { stat: *stat, from_cache }
    }
}

/// Where the hashes of a file come from.
#[derive(Debug)]
pub enum Plan {
    /// It is no regular file and has none.
    NotRegular,
    /// The cache has them.
    Cached(Vec<ChunkHash>),
    /// The file must be read.
    Read,
}

/// The model of a plan.
pub enum PlanModel {
    NotRegular,
    Cached(Seq<ChunkHash>),
    Read,
}

impl View for Plan {
    type V = PlanModel;

    open spec fn view(&self) -> PlanModel {
        match self {
            Plan::NotRegular => PlanModel::NotRegular,
            Plan::Cached(hashes) => PlanModel::Cached(hashes@),
            Plan::Read => PlanModel::Read,
        }
    }
}

/// Where the hashes of a file come from: the cached ones serve as long as the
/// file's size, times and block size are those they were taken at.
pub open spec fn source_of(is_file: bool, stat: Stat, cached: Option<cache::Entry>) -> PlanModel {
    match cached {
        _ if !is_file => PlanModel::NotRegular,
        Some(e) if e == stat.with_hashes(e.hashes) => PlanModel::Cached(e.hashes),
        _ => PlanModel::Read,
    }
}

/// A file that did not change since its hashes were stored is not read again,
/// and one that changed is.
pub proof fn only_changed_files_are_read(then: Stat, now: Stat, hashes: Seq<ChunkHash>)
    ensures
        ({
            let source = source_of(true, now, Some(then.with_hashes(hashes)));
            if now.size == then.size && now.mtime_ns == then.mtime_ns && now.ctime_ns
                == then.ctime_ns && now.blksz == then.blksz {
                source == PlanModel::Cached(hashes)
            } else {
                source == PlanModel::Read
            }
        }),
{
}

/// Where the hashes of a file come from.
pub fn plan(is_file: bool, stat: &Stat, cached: Option<FileEntry>) -> (r: Plan)
    ensures
        r@ == source_of(
            is_file,
            *stat,
            match cached {
                Some(e) => Some(e@),
                None => None,
            },
        ),
{
    if !is_file {
        return Plan::NotRegular;
    }
    match cached {
        Some(e) => {
            if e.matches(stat.size, stat.mtime_ns, stat.ctime_ns, stat.blksz) {
                Plan::Cached(e.hashes)
            } else {
                Plan::Read
            }
        },
        None => Plan::Read,
    }
}

/// Why a file has no hashes.
#[derive(Debug)]
pub enum FileError<E> {
    /// It is no regular file.
    NotRegular,
    /// It could not be read.
    Read(E),
}

/// The hashes of a file: the cached ones where they serve, else what `read`
/// gives for the file's block size.
pub fn hash_one<E, F: FnOnce(u32) -> Result<Vec<ChunkHash>, E>>(
    is_file: bool,
    stat: &Stat,
    cached: Option<FileEntry>,
    read: F,
) -> (r: Result<(Hashed, Vec<ChunkHash>), FileError<E>>)
    requires
        read.requires((stat.blksz,)),
    ensures
        ({
            let entry = match cached {
                Some(e) => Some(e@),
                None => None,
            };
            match source_of(is_file, *stat, entry) {
                PlanModel::NotRegular => r matches Err(FileError::NotRegular),
                PlanModel::Cached(want) => r matches Ok((h, hashes)) && h.stat == *stat
                    && h.from_cache && hashes@ == want,
                PlanModel::Read => match r {
                    Ok((h, hashes)) => h.stat == *stat && !h.from_cache && read.ensures(
                        (stat.blksz,),
                        Ok(hashes),
                    ),
                    Err(FileError::Read(e)) => read.ensures((stat.blksz,), Err(e)),
                    Err(FileError::NotRegular) => false,
                },
            }
        }),
{
    match plan(is_file, stat, cached) {
        Plan::NotRegular => Err(FileError::NotRegular),
        Plan::Cached(hashes) => Ok((Hashed::new(stat, true), hashes)),
        Plan::Read => match read(stat.blksz) {
            Ok(hashes) => Ok((Hashed::new(stat, false), hashes)),
            Err(e) => Err(FileError::Read(e)),
        },
    }
}

/// Files that are hashed before their hashes are stored and dropped.
pub const HASH_BATCH: usize = 100_000;

/// The cache entries to store after a batch of files was hashed: those of the
/// files that were read, in order.
pub open spec fn fresh<P, E>(
    results: Seq<(P, Result<(Hashed, Vec<ChunkHash>), E>)>,
) -> Seq<(u64, u64, cache::Entry)>
    decreases results.len(),
{
    if results.len() == 0 {
        Seq::empty()
    } else {
        let rest = fresh(results.drop_last());
        match results.last().1 {
            Ok((h, hashes)) if !h.from_cache => rest.push(
                (h.stat.fsid, h.stat.ino, h.stat.with_hashes(hashes@)),
            ),
            _ => rest,
        }
    }
}

/// The cache entries to store after a batch of files was hashed.
pub fn to_store<'a, P, E>(results: &'a [(P, Result<(Hashed, Vec<ChunkHash>), E>)]) -> (r: Vec<
    (u64, u64, EntryRef<'a>),
>)
    ensures
        r@.len() == fresh(results@).len(),
        forall|i: int|
            0 <= i < r@.len() ==> ((#[trigger] r@[i]).0, r@[i].1, r@[i].2@) == fresh(results@)[i],
{
    let mut out: Vec<(u64, u64, EntryRef<'a>)> = Vec::new();
    let mut i: usize = 0;
    while i < results.len()
        invariant
            i <= results@.len(),
            out@.len() == fresh(results@.subrange(0, i as int)).len(),
            forall|j: int|
                0 <= j < out@.len() ==> ((#[trigger] out@[j]).0, out@[j].1, out@[j].2@) == fresh(
                    results@.subrange(0, i as int),
                )[j],
        decreases results@.len() - i,
    {
        assert(results@.subrange(0, i + 1).drop_last() =~= results@.subrange(0, i as int));
        match &results[i].1 {
            Ok((h, hashes)) => {
                if !h.from_cache {
                    out.push((h.stat.fsid, h.stat.ino, h.stat.entry(hashes.as_slice())));
                }
            },
            Err(_) => {},
        }
        i = i + 1;
    }
    assert(results@.subrange(0, results@.len() as int) =~= results@);
    out
}

/// The results of a batch without the hashes, which are stored by then.
pub fn without_hashes<P, E>(results: Vec<(P, Result<(Hashed, Vec<ChunkHash>), E>)>) -> (r: Vec<
    (P, Result<Hashed, E>),
>)
    ensures
        r@.len() == results@.len(),
        forall|i: int|
            0 <= i < r@.len() ==> {
                &&& (#[trigger] r@[i]).0 == results@[i].0
                &&& r@[i].1 == match results@[i].1 {
                    Ok((h, _)) => Ok::<Hashed, E>(h),
                    Err(e) => Err::<Hashed, E>(e),
                }
            },
{
    let ghost all = results@;
    let mut out: Vec<(P, Result<Hashed, E>)> = Vec::new();
    for item in it: results
        invariant
            it.seq() == all,
            out@.len() == it.index(),
            forall|i: int|
                0 <= i < out@.len() ==> {
                    &&& (#[trigger] out@[i]).0 == all[i].0
                    &&& out@[i].1 == match all[i].1 {
                        Ok((h, _)) => Ok::<Hashed, E>(h),
                        Err(e) => Err::<Hashed, E>(e),
                    }
                },
    {
        assert(all[it.index() as int] == item);
        let (p, r) = item;
        match r {
            Ok((h, _)) => out.push((p, Ok(h))),
            Err(e) => out.push((p, Err(e))),
        }
    }
    out
}

/// A cache by dataset and number, after `entries` were stored in order.
pub open spec fn stored(
    cache: Map<(u64, u64), cache::Entry>,
    entries: Seq<(u64, u64, cache::Entry)>,
) -> Map<(u64, u64), cache::Entry>
    decreases entries.len(),
{
    if entries.len() == 0 {
        cache
    } else {
        let (fsid, ino, e) = entries.last();
        stored(cache, entries.drop_last()).insert((fsid, ino), e)
    }
}

/// The cache key of the file of a result, if it was hashed.
pub open spec fn file_of<P, E>(result: (P, Result<(Hashed, Vec<ChunkHash>), E>)) -> Option<
    (u64, u64),
> {
    match result.1 {
        Ok((h, _)) => Some((h.stat.fsid, h.stat.ino)),
        Err(_) => None,
    }
}

/// Whether no file was hashed twice.
pub open spec fn of_distinct_files<P, E>(
    results: Seq<(P, Result<(Hashed, Vec<ChunkHash>), E>)>,
) -> bool {
    forall|i: int, j: int|
        0 <= i < j < results.len() && file_of(#[trigger] results[i]) is Some ==> file_of(results[i])
            != file_of(#[trigger] results[j])
}

/// Whether the hashes that are said to come from the cache are in it.
pub open spec fn hits_are_in<P, E>(
    results: Seq<(P, Result<(Hashed, Vec<ChunkHash>), E>)>,
    cache: Map<(u64, u64), cache::Entry>,
) -> bool {
    forall|i: int|
        0 <= i < results.len() ==> match (#[trigger] results[i]).1 {
            Ok((h, hashes)) => h.from_cache ==> cache.contains_key((h.stat.fsid, h.stat.ino))
                && cache[(h.stat.fsid, h.stat.ino)] == h.stat.with_hashes(hashes@),
            Err(_) => true,
        }
}

/// What is stored for other files does not touch an entry.
proof fn lemma_others_stay<P, E>(
    results: Seq<(P, Result<(Hashed, Vec<ChunkHash>), E>)>,
    cache: Map<(u64, u64), cache::Entry>,
    file: (u64, u64),
)
    requires
        forall|i: int| 0 <= i < results.len() ==> file_of(#[trigger] results[i]) != Some(file),
    ensures
        stored(cache, fresh(results)).contains_key(file) == cache.contains_key(file),
        stored(cache, fresh(results))[file] == cache[file],
    decreases results.len(),
{
    if results.len() > 0 {
        let less = results.drop_last();
        assert forall|i: int| 0 <= i < less.len() implies file_of(#[trigger] less[i]) != Some(file) by {
            assert(less[i] == results[i]);
        }
        lemma_others_stay(less, cache, file);
        assert(file_of(results[results.len() - 1]) != Some(file));
        match results.last().1 {
            Ok((h, _)) if !h.from_cache => {
                assert(fresh(results).drop_last() =~= fresh(less));
            },
            _ => {},
        }
    }
}

/// What was read is stored: the hashes of every file of a batch that was read
/// are among the entries to store, and they serve until the file changes.
pub proof fn read_files_are_stored<P, E>(
    results: Seq<(P, Result<(Hashed, Vec<ChunkHash>), E>)>,
    i: int,
    h: Hashed,
    hashes: Vec<ChunkHash>,
)
    requires
        0 <= i < results.len(),
        results[i].1 == Ok::<(Hashed, Vec<ChunkHash>), E>((h, hashes)),
        !h.from_cache,
    ensures
        fresh(results).contains((h.stat.fsid, h.stat.ino, h.stat.with_hashes(hashes@))),
        source_of(true, h.stat, Some(h.stat.with_hashes(hashes@))) == PlanModel::Cached(hashes@),
    decreases results.len(),
{
    let less = results.drop_last();
    let all = fresh(results);
    let want = (h.stat.fsid, h.stat.ino, h.stat.with_hashes(hashes@));
    if i < less.len() {
        assert(less[i] == results[i]);
        read_files_are_stored(less, i, h, hashes);
        let j = choose|j: int| 0 <= j < fresh(less).len() && fresh(less)[j] == want;
        assert(all[j] == want);
    } else {
        assert(all[all.len() - 1] == want);
    }
}

/// What was hashed is found again: once the entries of a batch are stored, the
/// cache holds the hashes of each of its files, and they serve as long as the
/// file does not change.
pub proof fn hashed_files_are_found_again<P, E>(
    results: Seq<(P, Result<(Hashed, Vec<ChunkHash>), E>)>,
    cache: Map<(u64, u64), cache::Entry>,
    i: int,
    h: Hashed,
    hashes: Vec<ChunkHash>,
)
    requires
        of_distinct_files(results),
        hits_are_in(results, cache),
        0 <= i < results.len(),
        results[i].1 == Ok::<(Hashed, Vec<ChunkHash>), E>((h, hashes)),
    ensures
        ({
            let after = stored(cache, fresh(results));
            let file = (h.stat.fsid, h.stat.ino);
            &&& after.contains_key(file)
            &&& after[file] == h.stat.with_hashes(hashes@)
            &&& source_of(true, h.stat, Some(after[file])) == PlanModel::Cached(hashes@)
        }),
    decreases results.len(),
{
    let file = (h.stat.fsid, h.stat.ino);
    let less = results.drop_last();
    let last = results[results.len() - 1];
    assert(file_of(results[i]) == Some(file));
    if i < less.len() {
        assert forall|a: int, b: int|
            0 <= a < b < less.len() && file_of(#[trigger] less[a]) is Some implies file_of(less[a])
            != file_of(#[trigger] less[b]) by {
            assert(less[a] == results[a] && less[b] == results[b]);
        }
        assert(hits_are_in(less, cache)) by {
            assert forall|a: int| 0 <= a < less.len() implies match (#[trigger] less[a]).1 {
                Ok((h, hashes)) => h.from_cache ==> cache.contains_key((h.stat.fsid, h.stat.ino))
                    && cache[(h.stat.fsid, h.stat.ino)] == h.stat.with_hashes(hashes@),
                Err(_) => true,
            } by {
                assert(less[a] == results[a]);
            }
        }
        assert(less[i] == results[i]);
        hashed_files_are_found_again(less, cache, i, h, hashes);
        assert(file_of(last) != Some(file));
    } else {
        assert forall|a: int| 0 <= a < less.len() implies file_of(#[trigger] less[a]) != Some(file) by {
            assert(less[a] == results[a]);
            if file_of(results[a]) is Some {
                assert(file_of(results[a]) != file_of(results[i]));
            }
        }
        lemma_others_stay(less, cache, file);
    }
    match last.1 {
        Ok((h, _)) if !h.from_cache => {
            assert(fresh(results).drop_last() =~= fresh(less));
        },
        _ => {},
    }
}

/// Storing batch by batch leaves the cache that storing all at once would.
pub proof fn batches_store_alike<P, E>(
    a: Seq<(P, Result<(Hashed, Vec<ChunkHash>), E>)>,
    b: Seq<(P, Result<(Hashed, Vec<ChunkHash>), E>)>,
    cache: Map<(u64, u64), cache::Entry>,
)
    ensures
        stored(stored(cache, fresh(a)), fresh(b)) == stored(cache, fresh(a + b)),
    decreases b.len(),
{
    if b.len() == 0 {
        assert(a + b =~= a);
    } else {
        let less = b.drop_last();
        batches_store_alike(a, less, cache);
        assert((a + b).drop_last() =~= a + less);
        assert((a + b).last() == b.last());
        match b.last().1 {
            Ok((h, _)) if !h.from_cache => {
                assert(fresh(b).drop_last() =~= fresh(less));
                assert(fresh(a + b).drop_last() =~= fresh(a + less));
            },
            _ => {},
        }
    }
}

/// A run in which every file had its hashes in the cache stores nothing.
pub proof fn hits_store_nothing<P, E>(results: Seq<(P, Result<(Hashed, Vec<ChunkHash>), E>)>)
    requires
        forall|i: int|
            0 <= i < results.len() ==> ((#[trigger] results[i]).1 matches Ok((h, _)) ==> h.from_cache),
    ensures
        fresh(results) == Seq::<(u64, u64, cache::Entry)>::empty(),
    decreases results.len(),
{
    if results.len() > 0 {
        let less = results.drop_last();
        assert forall|i: int| 0 <= i < less.len() implies ((#[trigger] less[i]).1 matches Ok((h, _))
            ==> h.from_cache) by {
            assert(less[i] == results[i]);
        }
        hits_store_nothing(less);
        assert(results[results.len() - 1] == results.last());
    }
}

/// Bytes are all zero exactly if they are as many zeros.
pub proof fn zeros_are_all_zero(data: Seq<u8>)
    ensures
        all_zero(data) <==> data == Seq::new(data.len(), |i: int| 0u8),
        all_zero(data) <==> !exists|i: int| 0 <= i < data.len() && #[trigger] data[i] > 0,
{
    if all_zero(data) {
        assert(data =~= Seq::new(data.len(), |i: int| 0u8));
    }
    if data == Seq::new(data.len(), |i: int| 0u8) {
        assert forall|i: int| 0 <= i < data.len() implies data[i] == 0 by {
            assert(data[i] == Seq::new(data.len(), |i: int| 0u8)[i]);
        }
    }
}

/// Every chunk is hashed whole: there are as many hashes as blocks that the data
/// begins, and each is the digest of all bytes from the start of its block to
/// the start of the next or to the end of the data, or sixteen zeros where all
/// of them are zero.
pub proof fn whole_chunks_are_hashed(hashes: Seq<ChunkHash>, data: Seq<u8>, blksz: nat, i: int)
    requires
        blksz > 0,
        are_hashes_of(hashes, data, blksz),
    ensures
        data.len() <= hashes.len() * blksz < data.len() + blksz,
        0 <= i < hashes.len() ==> ({
            let from = i * blksz;
            let to = vstd::math::min(from + blksz, data.len() as int);
            let part = data.subrange(from, to);
            &&& 0 <= from < to <= data.len()
            &&& (exists|j: int| from <= j < to && #[trigger] data[j] != 0) ==> hashes[i]@
                == codec::le_bytes(xxh3_128(part) as nat, 16)
            &&& (forall|j: int| from <= j < to ==> #[trigger] data[j] == 0) ==> hashes[i]@
                == Seq::new(16, |k: int| 0u8)
        }),
{
    let n = data.len() / blksz;
    vstd::arithmetic::div_mod::lemma_fundamental_div_mod(data.len() as int, blksz as int);
    vstd::arithmetic::div_mod::lemma_mod_bound(data.len() as int, blksz as int);
    assert(blksz * n == n * blksz) by (nonlinear_arith);
    assert((n + 1) * blksz == n * blksz + blksz) by (nonlinear_arith);
    if 0 <= i < hashes.len() {
        let from = i * blksz;
        let to = vstd::math::min(from + blksz, data.len() as int);
        let part = data.subrange(from, to);
        assert((i + 1) * blksz == i * blksz + blksz) by (nonlinear_arith);
        assert(0 <= i * blksz) by (nonlinear_arith)
            requires
                0 <= i,
        ;
        if data.len() % blksz == 0 {
            assert((i + 1) * blksz <= n * blksz) by (nonlinear_arith)
                requires
                    i + 1 <= n,
            ;
        } else {
            assert(i * blksz <= n * blksz) by (nonlinear_arith)
                requires
                    i <= n,
            ;
        }
        assert(chunk(data, blksz, i) =~= part);
        assert(hashes[i]@ == chunk_hash(part));
        if exists|j: int| from <= j < to && #[trigger] data[j] != 0 {
            let j = choose|j: int| from <= j < to && #[trigger] data[j] != 0;
            assert(part[j - from] != 0);
        }
        if forall|j: int| from <= j < to ==> #[trigger] data[j] == 0 {
            assert forall|j: int| 0 <= j < part.len() implies part[j] == 0 by {
                assert(data[from + j] == 0);
            }
            assert(ZERO_HASH@ =~= Seq::new(16, |k: int| 0u8));
        }
    }
}

/// The bytes of a file decide its hashes: two lists of hashes of the same bytes,
/// in chunks of the same size, are equal.
pub proof fn hashes_follow_from_the_bytes(
    a: Seq<ChunkHash>,
    b: Seq<ChunkHash>,
    data: Seq<u8>,
    blksz: nat,
)
    requires
        are_hashes_of(a, data, blksz),
        are_hashes_of(b, data, blksz),
    ensures
        a.len() == b.len(),
        forall|i: int| 0 <= i < a.len() ==> (#[trigger] a[i])@ == b[i]@,
{
    assert forall|i: int| 0 <= i < a.len() implies (#[trigger] a[i])@ == b[i]@ by {
        assert(b[i]@ == chunk_hash(chunk(data, blksz, i)));
    }
}

/// Appending bytes leaves the hashes of the blocks that were full.
pub proof fn full_chunks_keep_their_hashes(
    a: Seq<ChunkHash>,
    b: Seq<ChunkHash>,
    data: Seq<u8>,
    more: Seq<u8>,
    blksz: nat,
    i: int,
)
    requires
        blksz > 0,
        are_hashes_of(a, data, blksz),
        are_hashes_of(b, data + more, blksz),
        0 <= i,
        (i + 1) * blksz <= data.len(),
    ensures
        i < a.len(),
        i < b.len(),
        a[i]@ == b[i]@,
{
    whole_chunks_are_hashed(a, data, blksz, i);
    whole_chunks_are_hashed(b, data + more, blksz, i);
    assert((i + 1) * blksz == i * blksz + blksz) by (nonlinear_arith);
    assert(0 <= i * blksz) by (nonlinear_arith)
        requires
            0 <= i,
    ;
    assert(i < a.len()) by (nonlinear_arith)
        requires
            (i + 1) * blksz <= a.len() * blksz,
            blksz > 0,
    ;
    assert(i < b.len()) by (nonlinear_arith)
        requires
            (i + 1) * blksz <= b.len() * blksz,
            blksz > 0,
    ;
    assert(chunk(data, blksz, i) =~= chunk(data + more, blksz, i));
    assert(a[i]@ == chunk_hash(chunk(data, blksz, i)));
    assert(b[i]@ == chunk_hash(chunk(data + more, blksz, i)));
}

/// Cached hashes serve a regular file whose size, times and block size are those
/// of the entry, whole and unchanged; any other regular file is read, and what is
/// no regular file has none.
pub proof fn entries_serve_unchanged_files(is_file: bool, stat: Stat, cached: Option<cache::Entry>)
    ensures
        !is_file ==> source_of(is_file, stat, cached) == PlanModel::NotRegular,
        is_file && cached is None ==> source_of(is_file, stat, cached) == PlanModel::Read,
        is_file && cached is Some ==> ({
            let e = cached->Some_0;
            let source = source_of(is_file, stat, cached);
            if e.size == stat.size && e.mtime_ns == stat.mtime_ns && e.ctime_ns == stat.ctime_ns
                && e.blksz == stat.blksz {
                source == PlanModel::Cached(e.hashes)
            } else {
                source == PlanModel::Read
            }
        }),
{
}

/// An entry keeps what tells whether the file changed, and the hashes.
pub proof fn entries_keep_attributes(stat: Stat, hashes: Seq<ChunkHash>)
    ensures
        ({
            let e = stat.with_hashes(hashes);
            &&& e.size == stat.size
            &&& e.mtime_ns == stat.mtime_ns
            &&& e.ctime_ns == stat.ctime_ns
            &&& e.blksz == stat.blksz
            &&& e.hashes == hashes
        }),
{
}

/// Stored are the entries of all files that were hashed and not found in the
/// cache, and of no others, in order.
pub proof fn all_fresh_files_are_stored<P, E>(
    results: Seq<(P, Result<(Hashed, Vec<ChunkHash>), E>)>,
)
    ensures
        fresh(results) == results.filter_map(
            |r: (P, Result<(Hashed, Vec<ChunkHash>), E>)|
                match r.1 {
                    Ok((h, hashes)) if !h.from_cache => Some(
                        (
                            h.stat.fsid,
                            h.stat.ino,
                            (cache::Entry {
                                size: h.stat.size,
                                mtime_ns: h.stat.mtime_ns,
                                ctime_ns: h.stat.ctime_ns,
                                blksz: h.stat.blksz,
                                hashes: hashes@,
                            }),
                        ),
                    ),
                    _ => None,
                },
        ),
    decreases results.len(),
{
    let keep = |r: (P, Result<(Hashed, Vec<ChunkHash>), E>)|
        match r.1 {
            Ok((h, hashes)) if !h.from_cache => Some(
                (
                    h.stat.fsid,
                    h.stat.ino,
                    (cache::Entry {
                        size: h.stat.size,
                        mtime_ns: h.stat.mtime_ns,
                        ctime_ns: h.stat.ctime_ns,
                        blksz: h.stat.blksz,
                        hashes: hashes@,
                    }),
                ),
            ),
            _ => None,
        };
    if results.len() > 0 {
        all_fresh_files_are_stored(results.drop_last());
        let rest = results.drop_last().filter_map(keep);
        match keep(results.last()) {
            Some(e) => {
                assert(rest.push(e) =~= rest + seq![e]);
            },
            None => {},
        }
    }
    assert(fresh(results) =~= results.filter_map(keep));
}

/// What is stored last for a file is what the cache holds for it, and storing
/// it leaves the other files alone.
pub proof fn the_last_entry_counts(
    cache: Map<(u64, u64), cache::Entry>,
    entries: Seq<(u64, u64, cache::Entry)>,
    file: (u64, u64),
    e: cache::Entry,
)
    ensures
        stored(cache, Seq::empty()) == cache,
        stored(cache, entries.push((file.0, file.1, e))) == stored(cache, entries).insert(file, e),
{
    let all = entries.push((file.0, file.1, e));
    assert(all.drop_last() =~= entries);
}

/// A plan means what it says, and the cached hashes are all of it.
pub proof fn plans_mean_what_they_say(p: Plan)
    ensures
        match p {
            Plan::NotRegular => p@ == PlanModel::NotRegular,
            Plan::Cached(hashes) => p@ == PlanModel::Cached(hashes@),
            Plan::Read => p@ == PlanModel::Read,
        },
{
}

} // verus!
