//! The index of duplicate chunks: which chunks of which files share a hash.

use crate::bloom;
use crate::bloom::Bloom;
use crate::cache::{ChunkHash, HASH_LEN};
use crate::codec;
use crate::hasher::{Hashed, ZERO_HASH};
use std::collections::{HashMap, HashSet};
use vstd::prelude::*;

verus! {

/// One chunk in one file: the file's place in the file list and the chunk's
/// number. The index holds millions of these, so both are 32 bits, which caps
/// a file at 4G chunks.
#[derive(Debug, Clone, Copy, PartialEq, Eq)]
pub struct Loc {
    pub file: u32,
    pub chunk: u32,
}

impl Loc {
    /// The offset of the chunk in its file.
    pub fn off(self, blksz: u32) -> (r: u64)
        ensures
            r == self.chunk * blksz,
    {
        assert(self.chunk * blksz <= 0xffff_ffff * 0xffff_ffff) by (nonlinear_arith)
            requires
                self.chunk <= 0xffff_ffff,
                blksz <= 0xffff_ffff,
        ;
        self.chunk as u64 * blksz as u64
    }
}

/// The multiplier that spreads integers over 64 bits.
pub const SPREAD: u64 = 0x9e37_79b9_7f4a_7c15;

/// The low 64 bits of `n` times `SPREAD`.
pub open spec fn spread(n: u64) -> u64 {
    ((n * SPREAD) % 0x1_0000_0000_0000_0000) as u64
}

/// `x` rotated left by one byte.
pub open spec fn rotate_byte(x: u64) -> u64 {
    ((x % 0x100_0000_0000_0000) * 256 + x / 0x100_0000_0000_0000) as u64
}

/// The state `s` after a few bytes were folded in one at a time.
pub open spec fn fold_bytes(s: u64, bytes: Seq<u8>) -> u64
    decreases bytes.len(),
{
    if bytes.len() == 0 {
        s
    } else {
        rotate_byte(fold_bytes(s, bytes.drop_last())) ^ (bytes.last() as u64)
    }
}

/// The state `s` after `bytes` were written: of eight bytes or more only the
/// last eight count.
pub open spec fn written(s: u64, bytes: Seq<u8>) -> u64 {
    if bytes.len() >= 8 {
        s ^ (codec::le_value(bytes.subrange(bytes.len() - 8, bytes.len() as int)) as u64)
    } else {
        fold_bytes(s, bytes)
    }
}

/// Hashes index keys. They already hold a uniform 128-bit hash, so eight bytes
/// of it and the block size are enough.
pub struct ChunkKeyHasher(u64);

impl ChunkKeyHasher {
    /// The hash of what was written.
    pub closed spec fn state(self) -> u64 {
        self.0
    }

    /// A hasher to which nothing was written.
    pub fn new() -> (r: ChunkKeyHasher)
        ensures
            r.state() == 0,
    {
        ChunkKeyHasher(0)
    }

    /// The hash of what was written.
    pub fn finish(&self) -> (r: u64)
        ensures
            r == self.state(),
    {
        self.0
    }

    /// Writes `bytes`.
    pub fn write(&mut self, bytes: &[u8])
        ensures
            final(self).state() == written(old(self).state(), bytes@),
    {
        let len: usize = bytes.len();
        if len >= 8 {
            let tail: u128 = codec::read_le(bytes, len - 8, 8);
            proof {
                codec::le_bytes_of_le_value(bytes@.subrange(len - 8, len as int));
                codec::lemma_byte_ranges();
            }
            self.0 = self.0 ^ (tail as u64);
        } else {
            let ghost start = self.0;
            let mut i: usize = 0;
            while i < len
                invariant
                    i <= len,
                    len == bytes@.len(),
                    self.0 == fold_bytes(start, bytes@.subrange(0, i as int)),
                decreases len - i,
            {
                let x: u64 = self.0;
                assert((x << 8) | (x >> 56) == (x % 0x100_0000_0000_0000) * 256 + x
                    / 0x100_0000_0000_0000) by (bit_vector);
                assert(bytes@.subrange(0, i + 1).drop_last() =~= bytes@.subrange(0, i as int));
                self.0 = ((x << 8) | (x >> 56)) ^ (bytes[i] as u64);
                i = i + 1;
            }
            assert(bytes@.subrange(0, len as int) =~= bytes@);
        }
    }

    /// Writes an integer of 32 bits.
    pub fn write_u32(&mut self, n: u32)
        ensures
            final(self).state() == old(self).state() ^ spread(n as u64),
    {
        self.write_u64(n as u64);
    }

    /// Writes an integer of 64 bits.
    pub fn write_u64(&mut self, n: u64)
        ensures
            final(self).state() == old(self).state() ^ spread(n),
    {
        self.0 = self.0 ^ n.wrapping_mul(SPREAD);
    }
}

/// What chunks of one group share. The block size is part of it because ZFS
/// rejects clones between files of different block sizes.
pub type Key = (u32, ChunkHash);

/// A short form of an index key.
pub open spec fn short_key(k: Key) -> u64 {
    (codec::le_value(k.1@.subrange(8, 16)) as u64) ^ spread(k.0 as u64)
}

/// The short form of an index key, for the set of suspects. Distinct keys may
/// share it: that only lets a chunk into the index that drops out again.
pub fn dup_key(blksz: u32, h: &ChunkHash) -> (r: u64)
    ensures
        r == short_key((blksz, *h)),
{
    let upper: u128 = codec::read_le(h.as_slice(), 8, 8);
    proof {
        codec::le_bytes_of_le_value(h@.subrange(8, 16));
        codec::lemma_byte_ranges();
    }
    (upper as u64) ^ (blksz as u64).wrapping_mul(SPREAD)
}

/// Whether two hashes are equal.
pub fn same_hash(a: &ChunkHash, b: &ChunkHash) -> (r: bool)
    ensures
        r == (*a == *b),
{
    let mut i: usize = 0;
    while i < HASH_LEN
        invariant
            i <= 16,
            forall|j: int| 0 <= j < i ==> a@[j] == b@[j],
        decreases 16 - i,
    {
        if a[i] != b[i] {
            return false;
        }
        i = i + 1;
    }
    assert(*a =~= *b);
    true
}

/// A chunk with its key.
pub struct Chunk {
    pub key: Key,
    pub loc: Loc,
}

/// The chunks of a file whose hash is not that of zeros, in offset order.
pub open spec fn file_chunks(file: u32, blksz: u32, hashes: Seq<ChunkHash>) -> Seq<Chunk>
    decreases hashes.len(),
{
    if hashes.len() == 0 {
        Seq::empty()
    } else {
        let rest = file_chunks(file, blksz, hashes.drop_last());
        if hashes.last() == ZERO_HASH {
            rest
        } else {
            rest.push(
                Chunk {
                    key: (blksz, hashes.last()),
                    loc: Loc { file, chunk: (hashes.len() - 1) as u32 },
                },
            )
        }
    }
}

/// The keys of chunks.
pub open spec fn keys_of(chunks: Seq<Chunk>) -> Seq<Key> {
    chunks.map_values(|c: Chunk| c.key)
}

/// Where the chunks with key `k` are, in order.
pub open spec fn locs_of(chunks: Seq<Chunk>, k: Key) -> Seq<Loc>
    decreases chunks.len(),
{
    if chunks.len() == 0 {
        Seq::empty()
    } else {
        let rest = locs_of(chunks.drop_last(), k);
        if chunks.last().key == k {
            rest.push(chunks.last().loc)
        } else {
            rest
        }
    }
}

/// The chunks that share a key. They should be byte-identical: each is to be
/// cloned from the first.
#[derive(Debug)]
pub struct Group {
    pub blksz: u32,
    pub hash: ChunkHash,
    pub locs: Vec<Loc>,
}

impl Group {
    /// The key that the chunks share.
    pub open spec fn key(self) -> Key {
        (self.blksz, self.hash)
    }
}

/// The groups of chunks whose hash repeats.
pub type Index = Vec<Group>;

/// Whether no two groups have the same key.
pub open spec fn distinct_keys(groups: Seq<Group>) -> bool {
    forall|i: int, j: int|
        0 <= i < groups.len() && 0 <= j < groups.len() && i != j ==> (#[trigger] groups[i]).key() != (
        #[trigger] groups[j]).key()
}

/// Whether some group has key `k`.
pub open spec fn has_group(groups: Seq<Group>, k: Key) -> bool {
    exists|i: int| 0 <= i < groups.len() && (#[trigger] groups[i]).key() == k
}

/// Whether `groups` are the groups of those repeated chunks whose short key is
/// among `suspects`.
pub open spec fn groups_suspects(
    groups: Seq<Group>,
    chunks: Seq<Chunk>,
    suspects: Set<u64>,
) -> bool {
    &&& distinct_keys(groups)
    &&& forall|i: int|
        0 <= i < groups.len() ==> {
            &&& (#[trigger] groups[i]).locs@ == locs_of(chunks, groups[i].key())
            &&& groups[i].locs@.len() >= 2
            &&& suspects.contains(short_key(groups[i].key()))
        }
    &&& forall|k: Key|
        suspects.contains(#[trigger] short_key(k)) && locs_of(chunks, k).len() >= 2 ==> has_group(
            groups,
            k,
        )
}

/// Whether `groups` is the index of `chunks`: a group for every key that two or
/// more of them share, and no other; in each group all of them, in order.
pub open spec fn is_index_of(groups: Seq<Group>, chunks: Seq<Chunk>) -> bool {
    &&& distinct_keys(groups)
    &&& forall|i: int|
        0 <= i < groups.len() ==> {
            &&& (#[trigger] groups[i]).locs@ == locs_of(chunks, groups[i].key())
            &&& groups[i].locs@.len() >= 2
        }
    &&& forall|k: Key| #[trigger] locs_of(chunks, k).len() >= 2 ==> has_group(groups, k)
}

/// Whether each key that occurs twice has its short form among `suspects`.
pub open spec fn covers_repeats(suspects: Set<u64>, keys: Seq<Key>) -> bool {
    forall|i: int, j: int|
        0 <= i < j < keys.len() && keys[i] == keys[j] ==> suspects.contains(
            short_key(#[trigger] keys[i]),
        ) && suspects.contains(short_key(#[trigger] keys[j]))
}

/// Adding a chunk to a stream adds its place to its own group only.
proof fn lemma_locs_push(chunks: Seq<Chunk>, c: Chunk, k: Key)
    ensures
        locs_of(chunks.push(c), k) == if c.key == k {
            locs_of(chunks, k).push(c.loc)
        } else {
            locs_of(chunks, k)
        },
{
    assert(chunks.push(c).drop_last() =~= chunks);
}

/// A key with at least `n` places occurs at `n` positions or more: here for two.
proof fn lemma_two_positions(chunks: Seq<Chunk>, k: Key) -> (r: (int, int))
    requires
        locs_of(chunks, k).len() >= 2,
    ensures
        0 <= r.0 < r.1 < chunks.len(),
        chunks[r.0].key == k,
        chunks[r.1].key == k,
    decreases chunks.len(),
{
    let rest = chunks.drop_last();
    if chunks.last().key == k {
        let i = lemma_one_position(rest, k);
        (i, chunks.len() - 1)
    } else {
        let r = lemma_two_positions(rest, k);
        assert(rest[r.0] == chunks[r.0] && rest[r.1] == chunks[r.1]);
        r
    }
}

proof fn lemma_one_position(chunks: Seq<Chunk>, k: Key) -> (r: int)
    requires
        locs_of(chunks, k).len() >= 1,
    ensures
        0 <= r < chunks.len(),
        chunks[r].key == k,
    decreases chunks.len(),
{
    if chunks.last().key == k {
        chunks.len() - 1
    } else {
        let r = lemma_one_position(chunks.drop_last(), k);
        assert(chunks.drop_last()[r] == chunks[r]);
        r
    }
}

/// The filter of suspects loses nothing: where it covers the repeats of a
/// stream, the groups of suspects are the whole index.
pub proof fn suspects_suffice(groups: Seq<Group>, chunks: Seq<Chunk>, suspects: Set<u64>)
    requires
        groups_suspects(groups, chunks, suspects),
        covers_repeats(suspects, keys_of(chunks)),
    ensures
        is_index_of(groups, chunks),
{
    assert forall|k: Key| #[trigger] locs_of(chunks, k).len() >= 2 implies has_group(groups, k) by {
        let (i, j) = lemma_two_positions(chunks, k);
        let keys = keys_of(chunks);
        assert(keys[i] == k && keys[j] == k);
        assert(suspects.contains(short_key(k)));
    }
}

/// The keys of the chunks of a file whose hash is not that of zeros.
pub open spec fn file_keys(blksz: u32, hashes: Seq<ChunkHash>) -> Seq<Key>
    decreases hashes.len(),
{
    if hashes.len() == 0 {
        Seq::empty()
    } else if hashes.last() == ZERO_HASH {
        file_keys(blksz, hashes.drop_last())
    } else {
        file_keys(blksz, hashes.drop_last()).push((blksz, hashes.last()))
    }
}

pub(crate) proof fn lemma_file_keys(file: u32, blksz: u32, hashes: Seq<ChunkHash>)
    ensures
        keys_of(file_chunks(file, blksz, hashes)) == file_keys(blksz, hashes),
    decreases hashes.len(),
{
    if hashes.len() > 0 {
        lemma_file_keys(file, blksz, hashes.drop_last());
    }
    assert(keys_of(file_chunks(file, blksz, hashes)) =~= file_keys(blksz, hashes));
}

/// The short forms of `keys`.
pub open spec fn short_keys(keys: Seq<Key>) -> Seq<u64> {
    keys.map_values(|k: Key| short_key(k))
}

/// The short forms of those of `keys` that a filter of `size` bits took for seen
/// when they came.
pub open spec fn suspects_among(keys: Seq<Key>, size: nat) -> Set<u64>
    decreases keys.len(),
{
    if keys.len() == 0 {
        Set::empty()
    } else {
        let before = keys.drop_last();
        let k = short_key(keys.last());
        if bloom::holds(bloom::after_inserts(short_keys(before), size), size, k) {
            suspects_among(before, size).insert(k)
        } else {
            suspects_among(before, size)
        }
    }
}

/// Every key that occurs twice is suspected, whatever the size of the filter.
pub proof fn repeats_are_suspected(keys: Seq<Key>, size: nat)
    ensures
        covers_repeats(suspects_among(keys, size), keys),
    decreases keys.len(),
{
    if keys.len() > 0 {
        let before = keys.drop_last();
        let suspects = suspects_among(keys, size);
        repeats_are_suspected(before, size);
        assert forall|i: int, j: int| 0 <= i < j < keys.len() && keys[i] == keys[j] implies suspects.contains(
            short_key(#[trigger] keys[i]),
        ) && suspects.contains(short_key(#[trigger] keys[j])) by {
            assert(before[i] == keys[i]);
            if j < before.len() {
                assert(before[j] == keys[j]);
            } else {
                assert(short_keys(before)[i] == short_key(keys[i]));
                bloom::no_false_negatives(short_keys(before), size, short_key(keys[i]));
            }
        }
    }
}

/// First pass over the chunks: finds the short keys that occur more than once.
/// It remembers what it has seen in a Bloom filter, so it may suspect a key
/// that occurs once, and misses none that occurs twice.
pub struct DupFinder {
    seen: Bloom,
    dup: HashSet<u64>,
    noted: Ghost<Seq<Key>>,
}

impl DupFinder {
    /// What every operation keeps.
    pub closed spec fn wf(self) -> bool {
        &&& self.seen@ == bloom::after_inserts(short_keys(self.noted@), self.seen.size())
        &&& self.dup@ == suspects_among(self.noted@, self.seen.size())
    }

    /// The size of the filter.
    pub closed spec fn size(self) -> nat {
        self.seen.size()
    }

    /// The keys noted so far, in order.
    pub closed spec fn noted(self) -> Seq<Key> {
        self.noted@
    }

    /// The short keys that may have occurred more than once.
    pub closed spec fn suspects(self) -> Set<u64> {
        self.dup@
    }

    /// A pass over about `n_chunks` chunks.
    pub fn new(n_chunks: u64) -> (r: DupFinder)
        requires
            n_chunks * bloom::BITS_PER_KEY <= 0x8000_0000_0000_0000,
            n_chunks * bloom::BITS_PER_KEY <= 32 * usize::MAX,
        ensures
            r.wf(),
            r.noted() == Seq::<Key>::empty(),
            r.suspects() == Set::<u64>::empty(),
            bloom::is_filter_size(r.size(), n_chunks as nat),
    {
        broadcast use vstd::std_specs::hash::group_hash_axioms;

        DupFinder { seen: Bloom::new(n_chunks), dup: HashSet::new(), noted: Ghost(Seq::empty()) }
    }

    /// Notes one key.
    fn note_key(&mut self, blksz: u32, hash: &ChunkHash)
        requires
            old(self).wf(),
        ensures
            final(self).wf(),
            final(self).noted() == old(self).noted().push((blksz, *hash)),
            final(self).size() == old(self).size(),
    {
        broadcast use vstd::std_specs::hash::group_hash_axioms;

        let ghost before = *self;
        let k: u64 = dup_key(blksz, hash);
        if self.seen.check_insert(k) {
            self.dup.insert(k);
        }
        proof {
            self.noted@ = self.noted@.push((blksz, *hash));
            assert(self.noted@.drop_last() =~= before.noted@);
            assert(short_keys(self.noted@).drop_last() =~= short_keys(before.noted@));
            assert(self.dup@ =~= suspects_among(self.noted@, self.seen.size()));
        }
    }

    /// Notes the chunks of a file, all but the all-zero ones.
    pub fn note(&mut self, h: &Hashed, hashes: &[ChunkHash])
        requires
            old(self).wf(),
        ensures
            final(self).wf(),
            final(self).noted() == old(self).noted() + file_keys(h.stat.blksz, hashes@),
            final(self).size() == old(self).size(),
            final(self).suspects() == suspects_among(final(self).noted(), final(self).size()),
    {
        let ghost start = self.noted();
        let ghost size = self.size();
        let mut i: usize = 0;
        assert(start =~= start + file_keys(h.stat.blksz, hashes@.subrange(0, 0)));
        while i < hashes.len()
            invariant
                i <= hashes@.len(),
                self.wf(),
                self.noted() == start + file_keys(h.stat.blksz, hashes@.subrange(0, i as int)),
                self.size() == size,
            decreases hashes@.len() - i,
        {
            let ghost part = hashes@.subrange(0, i + 1);
            assert(part.drop_last() =~= hashes@.subrange(0, i as int));
            if !same_hash(&hashes[i], &ZERO_HASH) {
                self.note_key(h.stat.blksz, &hashes[i]);
            }
            assert(self.noted() =~= start + file_keys(h.stat.blksz, part));
            i = i + 1;
        }
        assert(hashes@.subrange(0, hashes@.len() as int) =~= hashes@);
    }

    /// Ends the pass; the filter is dropped.
    pub fn into_builder(self) -> (r: IndexBuilder)
        requires
            self.wf(),
        ensures
            r.wf(),
            r.noted() == self.noted(),
            r.suspects() == self.suspects(),
            r.suspects() == suspects_among(self.noted(), self.size()),
            r.recorded() == Seq::<Chunk>::empty(),
    {
        proof {
            repeats_are_suspected(self.noted@, self.seen.size());
        }
        IndexBuilder {
            dup: self.dup,
            groups: Vec::new(),
            slots: HashMap::new(),
            noted: self.noted,
            recorded: Ghost(Seq::empty()),
        }
    }
}

/// The bucket of a key.
pub open spec fn bucket(k: Key) -> u64 {
    written(spread(k.0 as u64), k.1@)
}

/// Second pass over the chunks: records where those with a suspect key are.
/// Recording every chunk and dropping the single ones at the end would take
/// several times the memory of the index where little repeats.
pub struct IndexBuilder {
    dup: HashSet<u64>,
    groups: Vec<Group>,
    slots: HashMap<u64, Vec<usize>>,
    noted: Ghost<Seq<Key>>,
    recorded: Ghost<Seq<Chunk>>,
}

impl IndexBuilder {
    /// What every operation keeps.
    pub closed spec fn wf(self) -> bool {
        &&& covers_repeats(self.dup@, self.noted@)
        &&& self.grouped()
        &&& self.found()
    }

    spec fn grouped(self) -> bool {
        &&& distinct_keys(self.groups@)
        &&& forall|i: int|
            0 <= i < self.groups@.len() ==> (#[trigger] self.groups@[i]).locs@ == locs_of(
                self.recorded@,
                self.groups@[i].key(),
            )
        &&& forall|i: int|
            0 <= i < self.recorded@.len() && self.dup@.contains(
                short_key((#[trigger] self.recorded@[i]).key),
            ) ==> has_group(self.groups@, self.recorded@[i].key)
        &&& forall|i: int|
            0 <= i < self.groups@.len() ==> self.dup@.contains(
                short_key((#[trigger] self.groups@[i]).key()),
            )
    }

    spec fn found(self) -> bool {
        &&& forall|i: int|
            0 <= i < self.groups@.len() ==> {
                let b = bucket((#[trigger] self.groups@[i]).key());
                self.slots@.contains_key(b) && self.slots@[b]@.contains(i as usize)
            }
        &&& forall|b: u64, n: int|
            self.slots@.contains_key(b) && 0 <= n < self.slots@[b]@.len()
                ==> #[trigger] self.slots@[b]@[n] < self.groups@.len()
    }

    /// The keys noted in the first pass, in order.
    pub closed spec fn noted(self) -> Seq<Key> {
        self.noted@
    }

    /// The short keys that the first pass suspected.
    pub closed spec fn suspects(self) -> Set<u64> {
        self.dup@
    }

    /// The chunks of the second pass so far, in order.
    pub closed spec fn recorded(self) -> Seq<Chunk> {
        self.recorded@
    }

    /// The place of the group with a key, if there is one.
    fn find(&self, b: u64, blksz: u32, hash: &ChunkHash) -> (r: Option<usize>)
        requires
            self.found(),
            b == bucket((blksz, *hash)),
        ensures
            match r {
                Some(g) => g < self.groups@.len() && self.groups@[g as int].key() == (blksz, *hash),
                None => !has_group(self.groups@, (blksz, *hash)),
            },
    {
        broadcast use vstd::std_specs::hash::group_hash_axioms;

        match self.slots.get(&b) {
            None => None,
            Some(places) => {
                let mut n: usize = 0;
                while n < places.len()
                    invariant
                        n <= places@.len(),
                        self.found(),
                        self.slots@.contains_key(b),
                        self.slots@[b] == *places,
                        forall|m: int|
                            0 <= m < n ==> self.groups@[(#[trigger] places@[m]) as int].key() != (
                                blksz,
                                *hash,
                            ),
                    decreases places@.len() - n,
                {
                    let g: usize = places[n];
                    assert(self.slots@[b]@[n as int] < self.groups@.len());
                    if self.groups[g].blksz == blksz && same_hash(&self.groups[g].hash, hash) {
                        return Some(g);
                    }
                    n = n + 1;
                }
                proof {
                    if has_group(self.groups@, (blksz, *hash)) {
                        let i = choose|i: int|
                            0 <= i < self.groups@.len() && (#[trigger] self.groups@[i]).key() == (
                                blksz,
                                *hash,
                            );
                        assert(i < self.groups.len());
                        assert(self.slots@[b]@.contains(i as usize));
                        let m = choose|m: int| 0 <= m < places@.len() && places@[m] == i as usize;
                        assert(self.groups@[places@[m] as int].key() != (blksz, *hash));
                    }
                }
                None
            },
        }
    }

    /// Records one chunk.
    fn record_chunk(&mut self, blksz: u32, hash: &ChunkHash, loc: Loc)
        requires
            old(self).wf(),
        ensures
            final(self).wf(),
            final(self).noted() == old(self).noted(),
            final(self).suspects() == old(self).suspects(),
            final(self).recorded() == old(self).recorded().push(
                (Chunk { key: (blksz, *hash), loc }),
            ),
    {
        broadcast use vstd::std_specs::hash::group_hash_axioms;

        let ghost key = (blksz, *hash);
        let ghost c = Chunk { key, loc };
        let ghost before = *self;
        proof {
            assert forall|k: Key| #[trigger] locs_of(before.recorded@.push(c), k) == if key == k {
                locs_of(before.recorded@, k).push(loc)
            } else {
                locs_of(before.recorded@, k)
            } by {
                lemma_locs_push(before.recorded@, c, k);
            }
        }
        let ghost chunks = before.recorded@.push(c);
        if !self.dup.contains(&dup_key(blksz, hash)) {
            proof {
                self.recorded@ = chunks;
                assert forall|i: int| 0 <= i < self.groups@.len() implies (
                #[trigger] self.groups@[i]).locs@ == locs_of(chunks, self.groups@[i].key()) by {
                    assert(self.groups@[i].key() != key);
                }
                assert forall|i: int|
                    0 <= i < chunks.len() && self.dup@.contains(
                        short_key((#[trigger] chunks[i]).key),
                    ) implies has_group(self.groups@, chunks[i].key) by {
                    assert(i < before.recorded@.len());
                    assert(before.recorded@[i] == chunks[i]);
                }
            }
            return;
        }
        let mut hasher = ChunkKeyHasher::new();
        hasher.write_u32(blksz);
        hasher.write(hash.as_slice());
        let b: u64 = hasher.finish();
        assert(0u64 ^ spread(blksz as u64) == spread(blksz as u64)) by {
            let x = spread(blksz as u64);
            assert(0u64 ^ x == x) by (bit_vector);
        }
        match self.find(b, blksz, hash) {
            Some(g) => {
                self.groups[g].locs.push(loc);
                proof {
                    self.recorded@ = chunks;
                    assert forall|i: int| 0 <= i < self.groups@.len() implies (
                    #[trigger] self.groups@[i]).key() == before.groups@[i].key() && self.groups@[i].locs@
                        == locs_of(chunks, self.groups@[i].key()) by {
                        if i != g {
                            assert(before.groups@[i].key() != key);
                        }
                    }
                    assert(self.groups@[g as int].key() == key);
                    lemma_same_groups(before.groups@, self.groups@);
                    assert forall|i: int|
                        0 <= i < chunks.len() && self.dup@.contains(
                            short_key((#[trigger] chunks[i]).key),
                        ) implies has_group(self.groups@, chunks[i].key) by {
                        if i < before.recorded@.len() {
                            assert(before.recorded@[i] == chunks[i]);
                        }
                    }
                    assert(self.grouped());
                    assert(self.found());
                }
            },
            None => {
                let n: usize = self.groups.len();
                let mut locs: Vec<Loc> = Vec::new();
                locs.push(loc);
                let mut places: Vec<usize> = match self.slots.remove(&b) {
                    Some(v) => v,
                    None => Vec::new(),
                };
                let ghost old_places = places@;
                places.push(n);
                self.slots.insert(b, places);
                self.groups.push(Group { blksz, hash: *hash, locs });
                proof {
                    self.recorded@ = chunks;
                    lemma_no_group(before.recorded@, before.groups@, before.dup@, key);
                    assert(locs@ =~= locs_of(chunks, key));
                    assert forall|i: int| 0 <= i < self.groups@.len() implies (
                    #[trigger] self.groups@[i]).locs@ == locs_of(chunks, self.groups@[i].key()) by {
                        if i < n {
                            assert(before.groups@[i].key() != key);
                        }
                    }
                    assert forall|i: int|
                        0 <= i < chunks.len() && self.dup@.contains(
                            short_key((#[trigger] chunks[i]).key),
                        ) implies has_group(self.groups@, chunks[i].key) by {
                        if i < before.recorded@.len() {
                            assert(before.recorded@[i] == chunks[i]);
                            let j = choose|j: int|
                                0 <= j < before.groups@.len() && (#[trigger] before.groups@[j]).key()
                                    == chunks[i].key;
                            assert(self.groups@[j].key() == chunks[i].key);
                        } else {
                            assert(self.groups@[n as int].key() == chunks[i].key);
                        }
                    }
                    assert(self.grouped());
                    assert(self.slots@ == before.slots@.insert(b, places));
                    assert(places@[old_places.len() as int] == n);
                    assert forall|i: int| 0 <= i < self.groups@.len() implies ({
                        let bi = bucket((#[trigger] self.groups@[i]).key());
                        self.slots@.contains_key(bi) && self.slots@[bi]@.contains(i as usize)
                    }) by {
                        let bi = bucket(self.groups@[i].key());
                        if i < n {
                            assert(before.groups@[i] == self.groups@[i]);
                            assert(before.slots@[bi]@.contains(i as usize));
                            if bi == b {
                                let m = choose|m: int|
                                    0 <= m < old_places.len() && old_places[m] == i as usize;
                                assert(places@[m] == i as usize);
                            }
                        } else {
                            assert(places@.contains(n));
                        }
                    }
                    assert forall|bb: u64, m: int|
                        self.slots@.contains_key(bb) && 0 <= m
                            < self.slots@[bb]@.len() implies #[trigger] self.slots@[bb]@[m]
                        < self.groups@.len() by {
                        if bb == b {
                            if m < old_places.len() {
                                assert(before.slots@[bb]@[m] < before.groups@.len());
                            }
                        } else {
                            assert(before.slots@[bb]@[m] < before.groups@.len());
                        }
                    }
                    assert(self.found());
                }
            },
        }
    }

    /// Records the chunks of file number `file`, all but the all-zero ones.
    pub fn record(&mut self, file: u32, h: &Hashed, hashes: &[ChunkHash])
        requires
            old(self).wf(),
            hashes@.len() <= 0x1_0000_0000,
        ensures
            final(self).wf(),
            final(self).noted() == old(self).noted(),
            final(self).suspects() == old(self).suspects(),
            final(self).recorded() == old(self).recorded() + file_chunks(
                file,
                h.stat.blksz,
                hashes@,
            ),
    {
        let ghost start = *self;
        let mut i: usize = 0;
        assert(start.recorded() =~= start.recorded() + file_chunks(
            file,
            h.stat.blksz,
            hashes@.subrange(0, 0),
        ));
        while i < hashes.len()
            invariant
                i <= hashes@.len(),
                hashes@.len() <= 0x1_0000_0000,
                self.wf(),
                self.noted() == start.noted(),
                self.suspects() == start.suspects(),
                self.recorded() == start.recorded() + file_chunks(
                    file,
                    h.stat.blksz,
                    hashes@.subrange(0, i as int),
                ),
            decreases hashes@.len() - i,
        {
            let ghost part = hashes@.subrange(0, i + 1);
            assert(part.drop_last() =~= hashes@.subrange(0, i as int));
            if !same_hash(&hashes[i], &ZERO_HASH) {
                self.record_chunk(h.stat.blksz, &hashes[i], Loc { file, chunk: i as u32 });
            }
            assert(self.recorded() =~= start.recorded() + file_chunks(file, h.stat.blksz, part));
            i = i + 1;
        }
        assert(hashes@.subrange(0, hashes@.len() as int) =~= hashes@);
    }

    /// Ends the pass: groups of one chunk, which came of a false suspicion, go.
    pub fn finish(self) -> (r: Index)
        requires
            self.wf(),
        ensures
            groups_suspects(r@, self.recorded(), self.suspects()),
            self.noted() == keys_of(self.recorded()) ==> is_index_of(r@, self.recorded()),
    {
        let ghost chunks = self.recorded@;
        let ghost suspects = self.dup@;
        let ghost all = self.groups@;
        let groups = self.groups;
        let mut out: Index = Vec::new();
        let ghost mut from: Seq<int> = Seq::empty();
        let ghost mut i: int = 0;
        for g in it: groups
            invariant
                it.seq() == all,
                i == it.index(),
                distinct_keys(all),
                from.len() == out@.len(),
                forall|a: int| 0 <= a < from.len() ==> 0 <= #[trigger] from[a] < i && out@[a] == all[from[a]],
                forall|a: int, b: int| 0 <= a < b < from.len() ==> from[a] < from[b],
                forall|a: int| 0 <= a < out@.len() ==> (#[trigger] out@[a]).locs@.len() >= 2,
                forall|j: int|
                    0 <= j < i && (#[trigger] all[j]).locs@.len() >= 2 ==> exists|a: int|
                        0 <= a < from.len() && from[a] == j,
        {
            let ghost before = from;
            if g.locs.len() > 1 {
                out.push(g);
                proof {
                    from = from.push(i);
                }
            }
            proof {
                assert forall|j: int| 0 <= j < i + 1 && (#[trigger] all[j]).locs@.len() >= 2 implies exists|
                    a: int,
                |
                    0 <= a < from.len() && from[a] == j by {
                    if j < i {
                        let a = choose|a: int| 0 <= a < before.len() && before[a] == j;
                        assert(from[a] == j);
                    } else {
                        assert(from[from.len() - 1] == j);
                    }
                }
            }
            proof {
                i = i + 1;
            }
        }
        proof {
            assert forall|k: Key|
                suspects.contains(#[trigger] short_key(k)) && locs_of(chunks, k).len()
                    >= 2 implies has_group(out@, k) by {
                let (p, q) = lemma_two_positions(chunks, k);
                assert(has_group(all, chunks[p].key));
                let j = choose|j: int| 0 <= j < all.len() && (#[trigger] all[j]).key() == k;
                assert(all[j].locs@.len() >= 2);
                let a = choose|a: int| 0 <= a < from.len() && from[a] == j;
                assert(out@[a].key() == k);
            }
            assert forall|a: int| 0 <= a < out@.len() implies ({
                &&& (#[trigger] out@[a]).locs@ == locs_of(chunks, out@[a].key())
                &&& out@[a].locs@.len() >= 2
                &&& suspects.contains(short_key(out@[a].key()))
            }) by {
                assert(out@[a] == all[from[a]]);
            }
            assert(distinct_keys(out@)) by {
                assert forall|a: int, b: int|
                    0 <= a < out@.len() && 0 <= b < out@.len() && a != b implies (
                #[trigger] out@[a]).key() != (#[trigger] out@[b]).key() by {
                    assert(out@[a] == all[from[a]] && out@[b] == all[from[b]]);
                    assert(from[a] != from[b]);
                }
            }
            assert(groups_suspects(out@, chunks, suspects));
            if self.noted@ == keys_of(chunks) {
                suspects_suffice(out@, chunks, suspects);
            }
        }
        out
    }
}

proof fn lemma_same_groups(a: Seq<Group>, b: Seq<Group>)
    requires
        a.len() == b.len(),
        forall|i: int| 0 <= i < a.len() ==> (#[trigger] b[i]).key() == a[i].key(),
    ensures
        forall|k: Key| #[trigger] has_group(a, k) ==> has_group(b, k),
{
    assert forall|k: Key| #[trigger] has_group(a, k) implies has_group(b, k) by {
        let i = choose|i: int| 0 <= i < a.len() && (#[trigger] a[i]).key() == k;
        assert(b[i].key() == k);
    }
}

proof fn lemma_no_group(chunks: Seq<Chunk>, groups: Seq<Group>, suspects: Set<u64>, k: Key)
    requires
        forall|i: int|
            0 <= i < chunks.len() && suspects.contains(short_key((#[trigger] chunks[i]).key))
                ==> has_group(groups, chunks[i].key),
        !has_group(groups, k),
        suspects.contains(short_key(k)),
    ensures
        locs_of(chunks, k) == Seq::<Loc>::empty(),
{
    if locs_of(chunks, k).len() >= 1 {
        let r = lemma_one_position(chunks, k);
        assert(has_group(groups, chunks[r].key));
    }
}

/// An upper bound on the number of chunks of a file.
pub open spec fn chunk_bound(h: Hashed) -> nat {
    (h.stat.size as nat / if h.stat.blksz == 0 {
        1nat
    } else {
        h.stat.blksz as nat
    }) + 1
}

/// Whether the Bloom filter of the first pass can be sized for `n` chunks.
pub open spec fn filter_fits(n: nat) -> bool {
    &&& n * bloom::BITS_PER_KEY <= 0x8000_0000_0000_0000
    &&& n * bloom::BITS_PER_KEY <= 32 * usize::MAX
}

/// Adds a bound on the chunks of a file to `total`; none if the sum is too
/// large for the first pass.
pub fn add_chunks(total: u64, h: &Hashed) -> (r: Option<u64>)
    ensures
        match r {
            Some(n) => n == total + chunk_bound(*h) && filter_fits(n as nat),
            None => !filter_fits(total as nat + chunk_bound(*h)),
        },
{
    let blksz: u64 = if h.stat.blksz == 0 {
        1
    } else {
        h.stat.blksz as u64
    };
    assert(h.stat.size / blksz <= h.stat.size) by (nonlinear_arith)
        requires
            blksz >= 1,
    ;
    let n: u128 = total as u128 + (h.stat.size / blksz) as u128 + 1;
    let per_key: u128 = bloom::BITS_PER_KEY as u128;
    assert(per_key == 10);
    let bits: u128 = n * per_key;
    if bits <= 0x8000_0000_0000_0000 && bits <= 32 * usize::MAX as u128 {
        Some(n as u64)
    } else {
        None
    }
}

/// The sum of the chunk bounds of `files`.
pub open spec fn total_bound<P>(files: Seq<(P, Hashed)>) -> nat
    decreases files.len(),
{
    if files.len() == 0 {
        0
    } else {
        total_bound(files.drop_last()) + chunk_bound(files.last().1)
    }
}

/// A file and its hashes, if the cache had them.
pub type Source = (Hashed, Option<Vec<ChunkHash>>);

/// The chunks of a file of the list, all but the all-zero ones.
pub open spec fn source_chunks(file: u32, source: Source) -> Seq<Chunk> {
    match source.1 {
        Some(hashes) => file_chunks(file, source.0.stat.blksz, hashes@),
        None => Seq::empty(),
    }
}

/// The chunks of `files`, all but the all-zero ones, file by file in offset order.
pub open spec fn all_chunks(files: Seq<Source>) -> Seq<Chunk>
    decreases files.len(),
{
    if files.len() == 0 {
        Seq::empty()
    } else {
        all_chunks(files.drop_last()) + source_chunks((files.len() - 1) as u32, files.last())
    }
}

proof fn lemma_keys_of_concat(a: Seq<Chunk>, b: Seq<Chunk>)
    ensures
        keys_of(a + b) == keys_of(a) + keys_of(b),
{
    assert(keys_of(a + b) =~= keys_of(a) + keys_of(b));
}

proof fn lemma_total_bound_grows<P>(files: Seq<(P, Hashed)>, n: int)
    requires
        0 <= n <= files.len(),
    ensures
        total_bound(files.subrange(0, n)) <= total_bound(files),
    decreases files.len(),
{
    if n == files.len() {
        assert(files.subrange(0, n) =~= files);
    } else {
        lemma_total_bound_grows(files.drop_last(), n);
        assert(files.drop_last().subrange(0, n) =~= files.subrange(0, n));
    }
}

/// Why there is no index.
#[derive(Debug)]
pub enum IndexError<E> {
    /// There are more files than can be numbered.
    TooManyFiles,
    /// There are more chunks than the filter of the first pass can hold.
    TooManyChunks,
    /// A file has more chunks than can be numbered.
    FileTooLarge,
    /// The hashes of a file could not be fetched.
    Fetch(E),
}

/// Whether `fetch` answered for the first of `files` with `replies`.
pub open spec fn fetched<P, E, F: FnMut(u64, u64) -> Result<Option<Vec<ChunkHash>>, E>>(
    fetch: F,
    files: Seq<(P, Hashed)>,
    replies: Seq<Option<Vec<ChunkHash>>>,
) -> bool {
    &&& replies.len() <= files.len()
    &&& forall|i: int|
        0 <= i < replies.len() ==> fetch.ensures(
            (files[i].1.stat.fsid, files[i].1.stat.ino),
            Ok(#[trigger] replies[i]),
        )
}

/// The first of `files`, each with its hashes.
pub open spec fn sources<P>(
    files: Seq<(P, Hashed)>,
    replies: Seq<Option<Vec<ChunkHash>>>,
) -> Seq<Source> {
    Seq::new(replies.len(), |i: int| (files[i].1, replies[i]))
}

/// Whether `fetch` failed with `e` for one of `files`.
pub open spec fn failed<P, E, F: FnMut(u64, u64) -> Result<Option<Vec<ChunkHash>>, E>>(
    fetch: F,
    files: Seq<(P, Hashed)>,
    e: E,
) -> bool {
    exists|i: int|
        0 <= i < files.len() && #[trigger] fetch.ensures(
            (files[i].1.stat.fsid, files[i].1.stat.ino),
            Err(e),
        )
}

/// Whether `groups` come of two passes, over the files and hashes `a` and then
/// `b`: they are the chunks of `b` that share a key which a filter for `n` chunks
/// suspected in `a`, and all that share a key if the two passes saw the same keys.
pub open spec fn come_of_passes(groups: Seq<Group>, a: Seq<Source>, b: Seq<Source>, n: nat) -> bool {
    &&& addressable(b)
    &&& exists|size: nat| #[trigger]
        bloom::is_filter_size(size, n) && groups_suspects(
            groups,
            all_chunks(b),
            suspects_among(keys_of(all_chunks(a)), size),
        )
    &&& keys_of(all_chunks(a)) == keys_of(all_chunks(b)) ==> is_index_of(groups, all_chunks(b))
}

proof fn lemma_next_source<P>(
    files: Seq<(P, Hashed)>,
    replies: Seq<Option<Vec<ChunkHash>>>,
    reply: Option<Vec<ChunkHash>>,
)
    requires
        replies.len() < files.len(),
    ensures
        ({
            let h = files[replies.len() as int].1;
            let n = replies.len() as u32;
            let before = all_chunks(sources(files, replies));
            let after = all_chunks(sources(files, replies.push(reply)));
            &&& after == match reply {
                Some(hashes) => before + file_chunks(n, h.stat.blksz, hashes@),
                None => before,
            }
            &&& keys_of(after) == match reply {
                Some(hashes) => keys_of(before) + file_keys(h.stat.blksz, hashes@),
                None => keys_of(before),
            }
        }),
{
    let next = sources(files, replies.push(reply));
    assert(next.drop_last() =~= sources(files, replies));
    assert(next.last() == (files[replies.len() as int].1, reply));
    let before = all_chunks(sources(files, replies));
    match reply {
        Some(hashes) => {
            let blksz = files[replies.len() as int].1.stat.blksz;
            lemma_keys_of_concat(before, file_chunks(replies.len() as u32, blksz, hashes@));
            lemma_file_keys(replies.len() as u32, blksz, hashes@);
        },
        None => {
            assert(all_chunks(next) =~= before);
        },
    }
}

/// A bound on the chunks of `files`; none if it is too large for the first pass.
fn count_chunks<P>(files: &[(P, Hashed)]) -> (r: Option<u64>)
    ensures
        match r {
            Some(n) => n == total_bound(files@) && filter_fits(n as nat),
            None => !filter_fits(total_bound(files@)),
        },
{
    let mut total: u64 = 0;
    let mut i: usize = 0;
    while i < files.len()
        invariant
            i <= files@.len(),
            total == total_bound(files@.subrange(0, i as int)),
            filter_fits(total as nat),
        decreases files@.len() - i,
    {
        assert(files@.subrange(0, i + 1).drop_last() =~= files@.subrange(0, i as int));
        assert(files@.subrange(0, i + 1).last() == files@[i as int]);
        match add_chunks(total, &files[i].1) {
            Some(n) => total = n,
            None => {
                proof {
                    lemma_total_bound_grows(files@, i + 1);
                }
                return None;
            },
        }
        i = i + 1;
    }
    assert(files@.subrange(0, files@.len() as int) =~= files@);
    Some(total)
}

/// The index of `files`, in two passes over their hashes, which `fetch` gets by
/// dataset and number. Fetching them twice keeps no hash in memory but those of
/// duplicates.
pub fn build_index<P, E, F: FnMut(u64, u64) -> Result<Option<Vec<ChunkHash>>, E>>(
    files: &[(P, Hashed)],
    fetch: F,
) -> (r: Result<Index, IndexError<E>>)
    requires
        forall|i: int|
            0 <= i < files@.len() ==> fetch.requires(
                ((#[trigger] files@[i]).1.stat.fsid, files@[i].1.stat.ino),
            ),
    ensures
        r matches Err(IndexError::TooManyFiles) <==> files@.len() > u32::MAX,
        r matches Err(IndexError::TooManyChunks) <==> files@.len() <= u32::MAX && !filter_fits(
            total_bound(files@),
        ),
        match r {
            Ok(index) => exists|
                first: Seq<Option<Vec<ChunkHash>>>,
                second: Seq<Option<Vec<ChunkHash>>>,
            |
                {
                    &&& #[trigger] fetched(fetch, files@, first)
                    &&& #[trigger] fetched(fetch, files@, second)
                    &&& first.len() == files@.len()
                    &&& second.len() == files@.len()
                    &&& come_of_passes(
                        index@,
                        sources(files@, first),
                        sources(files@, second),
                        total_bound(files@),
                    )
                },
            Err(IndexError::FileTooLarge) => exists|second: Seq<Option<Vec<ChunkHash>>>| #[trigger]
                fetched(fetch, files@, second) && !addressable(sources(files@, second)),
            Err(IndexError::Fetch(e)) => failed(fetch, files@, e),
            _ => true,
        },
{
    if files.len() > u32::MAX as usize {
        return Err(IndexError::TooManyFiles);
    }
    let total: u64 = match count_chunks(files) {
        Some(n) => n,
        None => {
            return Err(IndexError::TooManyChunks);
        },
    };
    let mut ask = fetch;
    let mut finder = DupFinder::new(total);
    let ghost size = finder.size();
    let ghost mut first: Seq<Option<Vec<ChunkHash>>> = Seq::empty();
    let mut i: usize = 0;
    assert(keys_of(Seq::<Chunk>::empty()) =~= Seq::<Key>::empty());
    while i < files.len()
        invariant
            i <= files@.len() <= u32::MAX,
            filter_fits(total_bound(files@)),
            ask == fetch,
            forall|j: int|
                0 <= j < files@.len() ==> fetch.requires(
                    ((#[trigger] files@[j]).1.stat.fsid, files@[j].1.stat.ino),
                ),
            first.len() == i,
            fetched(fetch, files@, first),
            finder.wf(),
            finder.size() == size,
            finder.noted() == keys_of(all_chunks(sources(files@, first))),
        decreases files@.len() - i,
    {
        let h: &Hashed = &files[i].1;
        let reply = ask(h.stat.fsid, h.stat.ino);
        match reply {
            Err(e) => {
                return Err(IndexError::Fetch(e));
            },
            Ok(found) => {
                proof {
                    lemma_next_source(files@, first, found);
                    first = first.push(found);
                }
                if let Some(hashes) = found {
                    finder.note(h, hashes.as_slice());
                }
            },
        }
        i = i + 1;
    }
    let mut builder = finder.into_builder();
    let ghost mut second: Seq<Option<Vec<ChunkHash>>> = Seq::empty();
    let mut i: usize = 0;
    while i < files.len()
        invariant
            i <= files@.len() <= u32::MAX,
            filter_fits(total_bound(files@)),
            ask == fetch,
            forall|j: int|
                0 <= j < files@.len() ==> fetch.requires(
                    ((#[trigger] files@[j]).1.stat.fsid, files@[j].1.stat.ino),
                ),
            first.len() == files@.len(),
            second.len() == i,
            fetched(fetch, files@, second),
            addressable(sources(files@, second)),
            builder.wf(),
            builder.noted() == keys_of(all_chunks(sources(files@, first))),
            builder.suspects() == suspects_among(builder.noted(), size),
            builder.recorded() == all_chunks(sources(files@, second)),
        decreases files@.len() - i,
    {
        let h: &Hashed = &files[i].1;
        let reply = ask(h.stat.fsid, h.stat.ino);
        match reply {
            Err(e) => {
                return Err(IndexError::Fetch(e));
            },
            Ok(found) => {
                let ghost before = second;
                proof {
                    lemma_next_source(files@, second, found);
                    second = second.push(found);
                    assert(sources(files@, second).drop_last() =~= sources(files@, before));
                    assert(sources(files@, second).last().1 == found);
                    assert(fetched(fetch, files@, second)) by {
                        assert forall|j: int| 0 <= j < second.len() implies fetch.ensures(
                            (files@[j].1.stat.fsid, files@[j].1.stat.ino),
                            Ok(#[trigger] second[j]),
                        ) by {
                            if j < i {
                                assert(second[j] == before[j]);
                            }
                        }
                    }
                }
                if let Some(hashes) = found {
                    if hashes.len() as u64 > 0x1_0000_0000 {
                        assert(!addressable(sources(files@, second))) by {
                            assert(sources(files@, second)[i as int].1 == found);
                        }
                        return Err(IndexError::FileTooLarge);
                    }
                    builder.record(i as u32, h, hashes.as_slice());
                }
                proof {
                    assert forall|j: int| 0 <= j < second.len() implies ((#[trigger] sources(
                        files@,
                        second,
                    )[j]).1 matches Some(hashes) ==> hashes@.len() <= 0x1_0000_0000) by {
                        if j < i {
                            assert(sources(files@, before)[j] == sources(files@, second)[j]);
                        }
                    }
                }
            },
        }
        i = i + 1;
    }
    let index = builder.finish();
    assert(bloom::is_filter_size(size, total_bound(files@)));
    Ok(index)
}

/// Whether `files` are within the reach of a `Loc`.
pub open spec fn addressable(files: Seq<Source>) -> bool {
    &&& files.len() <= u32::MAX
    &&& forall|i: int|
        0 <= i < files.len() ==> ((#[trigger] files[i]).1 matches Some(hashes) ==> hashes@.len()
            <= 0x1_0000_0000)
}

/// The key of the chunk at `loc`, if there is one.
pub open spec fn key_at(files: Seq<Source>, loc: Loc) -> Option<Key> {
    if loc.file < files.len() {
        match files[loc.file as int].1 {
            Some(hashes) if loc.chunk < hashes@.len() => Some(
                (files[loc.file as int].0.stat.blksz, hashes@[loc.chunk as int]),
            ),
            _ => None,
        }
    } else {
        None
    }
}

spec fn before(a: Loc, b: Loc) -> bool {
    a.file < b.file || (a.file == b.file && a.chunk < b.chunk)
}

proof fn lemma_file_chunks(file: u32, blksz: u32, hashes: Seq<ChunkHash>)
    requires
        hashes.len() <= 0x1_0000_0000,
    ensures
        ({
            let cs = file_chunks(file, blksz, hashes);
            &&& forall|i: int|
                0 <= i < cs.len() ==> {
                    let c = #[trigger] cs[i];
                    &&& c.loc.file == file
                    &&& c.loc.chunk < hashes.len()
                    &&& c.key == (blksz, hashes[c.loc.chunk as int])
                    &&& c.key.1 != ZERO_HASH
                }
            &&& forall|i: int, j: int|
                0 <= i < j < cs.len() ==> (#[trigger] cs[i]).loc.chunk < (#[trigger] cs[j]).loc.chunk
            &&& forall|n: int|
                0 <= n < hashes.len() && #[trigger] hashes[n] != ZERO_HASH ==> exists|i: int|
                    0 <= i < cs.len() && (#[trigger] cs[i]).loc.chunk == n
        }),
    decreases hashes.len(),
{
    if hashes.len() > 0 {
        let rest = hashes.drop_last();
        lemma_file_chunks(file, blksz, rest);
        let old = file_chunks(file, blksz, rest);
        let cs = file_chunks(file, blksz, hashes);
        assert forall|n: int| 0 <= n < hashes.len() && #[trigger] hashes[n] != ZERO_HASH implies exists|
            i: int,
        |
            0 <= i < cs.len() && (#[trigger] cs[i]).loc.chunk == n by {
            if n < rest.len() {
                assert(rest[n] == hashes[n]);
                let i = choose|i: int| 0 <= i < old.len() && (#[trigger] old[i]).loc.chunk == n;
                assert(cs[i] == old[i]);
            } else {
                assert(cs[cs.len() - 1].loc.chunk == n);
            }
        }
    }
}

proof fn lemma_all_chunks(files: Seq<Source>)
    requires
        addressable(files),
    ensures
        ({
            let cs = all_chunks(files);
            &&& forall|i: int|
                0 <= i < cs.len() ==> {
                    let c = #[trigger] cs[i];
                    &&& key_at(files, c.loc) == Some(c.key)
                    &&& c.key.1 != ZERO_HASH
                }
            &&& forall|i: int, j: int|
                0 <= i < j < cs.len() ==> before((#[trigger] cs[i]).loc, (#[trigger] cs[j]).loc)
            &&& forall|loc: Loc|
                (#[trigger] key_at(files, loc) matches Some(k) && k.1 != ZERO_HASH) ==> exists|i: int|
                    0 <= i < cs.len() && (#[trigger] cs[i]).loc == loc
        }),
    decreases files.len(),
{
    if files.len() > 0 {
        let rest = files.drop_last();
        let f = (files.len() - 1) as u32;
        lemma_all_chunks(rest);
        let old = all_chunks(rest);
        let new = source_chunks(f, files.last());
        let cs = all_chunks(files);
        match files.last().1 {
            Some(hashes) => {
                lemma_file_chunks(f, files.last().0.stat.blksz, hashes@);
            },
            None => {},
        }
        assert forall|i: int| 0 <= i < cs.len() implies {
            let c = #[trigger] cs[i];
            &&& key_at(files, c.loc) == Some(c.key)
            &&& c.key.1 != ZERO_HASH
        } by {
            if i < old.len() {
                assert(cs[i] == old[i]);
                assert(key_at(rest, old[i].loc) == Some(old[i].key));
            } else {
                assert(cs[i] == new[i - old.len()]);
            }
        }
        assert forall|i: int, j: int| 0 <= i < j < cs.len() implies before(
            (#[trigger] cs[i]).loc,
            (#[trigger] cs[j]).loc,
        ) by {
            if j < old.len() {
                assert(cs[i] == old[i] && cs[j] == old[j]);
            } else {
                assert(cs[j] == new[j - old.len()]);
                if i < old.len() {
                    assert(cs[i] == old[i]);
                    assert(key_at(rest, old[i].loc) is Some);
                } else {
                    assert(cs[i] == new[i - old.len()]);
                }
            }
        }
        assert forall|loc: Loc|
            (#[trigger] key_at(files, loc) matches Some(k) && k.1 != ZERO_HASH) implies exists|i: int|
            0 <= i < cs.len() && (#[trigger] cs[i]).loc == loc by {
            if loc.file < f {
                assert(key_at(rest, loc) == key_at(files, loc));
                let i = choose|i: int| 0 <= i < old.len() && (#[trigger] old[i]).loc == loc;
                assert(cs[i].loc == loc);
            } else {
                let hashes = files.last().1->Some_0@;
                assert(hashes[loc.chunk as int] != ZERO_HASH);
                let i = choose|i: int|
                    0 <= i < new.len() && (#[trigger] new[i]).loc.chunk == loc.chunk;
                assert(new[i].loc == loc);
                assert(cs[old.len() + i] == new[i]);
            }
        }
    }
}

/// Whether a chunk with key `k` is at `loc`.
spec fn placed(chunks: Seq<Chunk>, k: Key, loc: Loc) -> bool {
    exists|i: int| 0 <= i < chunks.len() && (#[trigger] chunks[i]).key == k && chunks[i].loc == loc
}

/// The places of a key are those of its chunks, in order.
proof fn lemma_locs_positions(chunks: Seq<Chunk>, k: Key)
    requires
        forall|i: int, j: int|
            0 <= i < j < chunks.len() ==> before(
                (#[trigger] chunks[i]).loc,
                (#[trigger] chunks[j]).loc,
            ),
    ensures
        ({
            let ls = locs_of(chunks, k);
            &&& forall|a: int| 0 <= a < ls.len() ==> placed(chunks, k, #[trigger] ls[a])
            &&& forall|a: int, b: int|
                0 <= a < b < ls.len() ==> before(#[trigger] ls[a], #[trigger] ls[b])
            &&& forall|i: int|
                0 <= i < chunks.len() && (#[trigger] chunks[i]).key == k ==> ls.contains(chunks[i].loc)
        }),
    decreases chunks.len(),
{
    if chunks.len() > 0 {
        let rest = chunks.drop_last();
        let old = locs_of(rest, k);
        let ls = locs_of(chunks, k);
        assert forall|i: int, j: int| 0 <= i < j < rest.len() implies before(
            (#[trigger] rest[i]).loc,
            (#[trigger] rest[j]).loc,
        ) by {
            assert(rest[i] == chunks[i] && rest[j] == chunks[j]);
        }
        lemma_locs_positions(rest, k);
        assert forall|a: int| 0 <= a < ls.len() implies placed(chunks, k, #[trigger] ls[a]) by {
            if a < old.len() {
                assert(placed(rest, k, old[a]));
                let i = choose|i: int|
                    0 <= i < rest.len() && (#[trigger] rest[i]).key == k && rest[i].loc == old[a];
                assert(chunks[i] == rest[i]);
            } else {
                assert(chunks[chunks.len() - 1].loc == ls[a]);
            }
        }
        assert forall|a: int, b: int| 0 <= a < b < ls.len() implies before(
            #[trigger] ls[a],
            #[trigger] ls[b],
        ) by {
            assert(ls[a] == old[a]);
            if b < old.len() {
                assert(ls[b] == old[b]);
            } else {
                assert(placed(rest, k, old[a]));
                let i = choose|i: int|
                    0 <= i < rest.len() && (#[trigger] rest[i]).key == k && rest[i].loc == old[a];
                assert(chunks[i] == rest[i]);
                assert(before(chunks[i].loc, chunks[chunks.len() - 1].loc));
            }
        }
        assert forall|i: int| 0 <= i < chunks.len() && (#[trigger] chunks[i]).key
            == k implies ls.contains(chunks[i].loc) by {
            if i < rest.len() {
                assert(rest[i] == chunks[i]);
                assert(old.contains(rest[i].loc));
                let a = choose|a: int| 0 <= a < old.len() && old[a] == rest[i].loc;
                assert(ls[a] == chunks[i].loc);
            } else {
                assert(ls[ls.len() - 1] == chunks[i].loc);
            }
        }
    }
}

/// Every place in a group is that of a chunk with the group's block size and
/// hash; chunks of zeros are in none.
pub proof fn groups_hold_equal_chunks(groups: Seq<Group>, files: Seq<Source>, g: int, a: int)
    requires
        addressable(files),
        is_index_of(groups, all_chunks(files)),
        0 <= g < groups.len(),
        0 <= a < groups[g].locs@.len(),
    ensures
        key_at(files, groups[g].locs@[a]) == Some(groups[g].key()),
        groups[g].hash != ZERO_HASH,
{
    let cs = all_chunks(files);
    lemma_all_chunks(files);
    lemma_locs_positions(cs, groups[g].key());
    assert(placed(cs, groups[g].key(), groups[g].locs@[a]));
    let i = choose|i: int|
        0 <= i < cs.len() && (#[trigger] cs[i]).key == groups[g].key() && cs[i].loc
            == groups[g].locs@[a];
    assert(key_at(files, cs[i].loc) == Some(cs[i].key));
}

/// No chunk is in two groups, nor twice in one: work on different groups never
/// touches the same chunk.
pub proof fn groups_are_disjoint(
    groups: Seq<Group>,
    files: Seq<Source>,
    g: int,
    a: int,
    h: int,
    b: int,
)
    requires
        addressable(files),
        is_index_of(groups, all_chunks(files)),
        0 <= g < groups.len(),
        0 <= a < groups[g].locs@.len(),
        0 <= h < groups.len(),
        0 <= b < groups[h].locs@.len(),
        groups[g].locs@[a] == groups[h].locs@[b],
    ensures
        g == h && a == b,
{
    groups_hold_equal_chunks(groups, files, g, a);
    groups_hold_equal_chunks(groups, files, h, b);
    assert(g == h);
    lemma_all_chunks(files);
    lemma_locs_positions(all_chunks(files), groups[g].key());
    assert(groups[g].locs@ == locs_of(all_chunks(files), groups[g].key()));
    if a < b {
        assert(before(groups[g].locs@[a], groups[g].locs@[b]));
    } else if b < a {
        assert(before(groups[g].locs@[b], groups[g].locs@[a]));
    }
}

/// Every repeat is found: two chunks of the same block size and hash, not of
/// zeros, are in one group.
pub proof fn repeats_are_grouped(groups: Seq<Group>, files: Seq<Source>, x: Loc, y: Loc, k: Key)
    requires
        addressable(files),
        is_index_of(groups, all_chunks(files)),
        x != y,
        key_at(files, x) == Some(k),
        key_at(files, y) == Some(k),
        k.1 != ZERO_HASH,
    ensures
        exists|g: int|
            0 <= g < groups.len() && (#[trigger] groups[g]).key() == k && groups[g].locs@.contains(x)
                && groups[g].locs@.contains(y),
{
    let cs = all_chunks(files);
    lemma_all_chunks(files);
    lemma_locs_positions(cs, k);
    let i = choose|i: int| 0 <= i < cs.len() && (#[trigger] cs[i]).loc == x;
    let j = choose|j: int| 0 <= j < cs.len() && (#[trigger] cs[j]).loc == y;
    assert(key_at(files, cs[i].loc) == Some(cs[i].key));
    assert(key_at(files, cs[j].loc) == Some(cs[j].key));
    let ls = locs_of(cs, k);
    assert(ls.contains(x) && ls.contains(y));
    let a = choose|a: int| 0 <= a < ls.len() && ls[a] == x;
    let b = choose|b: int| 0 <= b < ls.len() && ls[b] == y;
    assert(a != b);
    assert(ls.len() >= 2);
    assert(has_group(groups, k));
}

/// A number is spread by a multiplication that loses nothing.
pub proof fn spread_numbers_stay_apart(a: u64, b: u64)
    ensures
        spread(a) == (a * 0x9e37_79b9_7f4a_7c15) % 0x1_0000_0000_0000_0000,
        spread(a) == spread(b) ==> a == b,
{
    let c: u64 = SPREAD;
    let d: u64 = 0xf1de_83e1_9937_733d;
    assert(c * d == 1 + 10771413168148108919int * 0x1_0000_0000_0000_0000) by (nonlinear_arith)
        requires
            c == 0x9e37_79b9_7f4a_7c15,
            d == 0xf1de_83e1_9937_733d,
    ;
    crate::run::lemma_times_back(a, c, d, 10771413168148108919);
    crate::run::lemma_times_back(b, c, d, 10771413168148108919);
}

/// Rotating by a byte moves each bit eight places up, the upper ones round to the
/// bottom.
pub proof fn rotated_bytes_come_round(x: u64)
    ensures
        rotate_byte(x) == (x << 8u64) | (x >> 56u64),
        rotate_byte(x) % 256 == x / 0x100_0000_0000_0000,
        rotate_byte(x) / 256 == x % 0x100_0000_0000_0000,
{
    assert((x << 8u64) | (x >> 56u64) == (x % 0x100_0000_0000_0000) * 256 + x
        / 0x100_0000_0000_0000) by (bit_vector);
}

/// Of a long text the last eight bytes are taken into a hash, of a short one every
/// byte, one after the other.
pub proof fn last_bytes_count(s: u64, start: Seq<u8>, tail: Seq<u8>, b: u8)
    ensures
        tail.len() == 8 ==> written(s, start + tail) == s ^ (codec::le_value(tail) as u64),
        start.len() < 7 ==> written(s, start.push(b)) == rotate_byte(written(s, start)) ^ (b as u64),
        written(s, Seq::empty()) == s,
{
    if tail.len() == 8 {
        let all = start + tail;
        assert(all.subrange(all.len() - 8, all.len() as int) =~= tail);
    }
    assert(start.push(b).drop_last() =~= start);
}

/// Short keys of one block size are equal exactly if the upper halves of the hashes
/// are, and those of one hash exactly if the block sizes are.
pub proof fn short_keys_use_hash_and_size(k: Key, blksz: u32, hash: ChunkHash)
    ensures
        short_key(k) == short_key((k.0, hash)) <==> k.1@.subrange(8, 16) == hash@.subrange(8, 16),
        short_key(k) == short_key((blksz, k.1)) <==> k.0 == blksz,
{
    codec::le_bytes_of_le_value(k.1@.subrange(8, 16));
    codec::le_bytes_of_le_value(hash@.subrange(8, 16));
    codec::lemma_byte_ranges();
    spread_numbers_stay_apart(k.0 as u64, blksz as u64);
    let a: u64 = codec::le_value(k.1@.subrange(8, 16)) as u64;
    let b: u64 = codec::le_value(hash@.subrange(8, 16)) as u64;
    let s: u64 = spread(k.0 as u64);
    let t: u64 = spread(blksz as u64);
    assert(a ^ s == b ^ s <==> a == b) by (bit_vector);
    assert(a ^ s == a ^ t <==> s == t) by (bit_vector);
}

/// One more hash gives one more chunk, numbered by its place, unless it is that of
/// zeros; the chunks before it stay.
pub proof fn hashes_are_numbered(
    file: u32,
    blksz: u32,
    hashes: Seq<ChunkHash>,
    hash: ChunkHash,
)
    ensures
        file_chunks(file, blksz, Seq::empty()) == Seq::<Chunk>::empty(),
        file_chunks(file, blksz, hashes.push(hash)) == if hash@ == Seq::new(16, |i: int| 0u8) {
            file_chunks(file, blksz, hashes)
        } else {
            file_chunks(file, blksz, hashes).push(
                (Chunk { key: (blksz, hash), loc: (Loc { file, chunk: hashes.len() as u32 }) }),
            )
        },
        file_keys(blksz, hashes) == file_chunks(file, blksz, hashes).map_values(|c: Chunk| c.key),
{
    assert(hashes.push(hash).drop_last() =~= hashes);
    assert(ZERO_HASH@ =~= Seq::new(16, |i: int| 0u8));
    if hash@ == Seq::new(16, |i: int| 0u8) {
        assert(hash =~= ZERO_HASH);
    }
    lemma_file_keys(file, blksz, hashes);
}

/// The chunks of files are those of each, one file after the other, numbered by its
/// place in the list; a file without hashes has none.
pub proof fn files_are_numbered(files: Seq<Source>, source: Source)
    ensures
        all_chunks(Seq::empty()) == Seq::<Chunk>::empty(),
        all_chunks(files.push(source)) == all_chunks(files) + match source.1 {
            Some(hashes) => file_chunks(files.len() as u32, source.0.stat.blksz, hashes@),
            None => Seq::empty(),
        },
{
    assert(files.push(source).drop_last() =~= files);
}

/// The places of a key are those of all chunks that have it, in order.
pub proof fn places_are_of_all_chunks(chunks: Seq<Chunk>, k: Key)
    ensures
        locs_of(chunks, k) == chunks.filter_map(
            |c: Chunk|
                if c.key == k {
                    Some(c.loc)
                } else {
                    None
                },
        ),
        keys_of(chunks).len() == chunks.len(),
        forall|i: int| 0 <= i < chunks.len() ==> #[trigger] keys_of(chunks)[i] == chunks[i].key,
    decreases chunks.len(),
{
    let keep = |c: Chunk|
        if c.key == k {
            Some(c.loc)
        } else {
            None
        };
    if chunks.len() > 0 {
        places_are_of_all_chunks(chunks.drop_last(), k);
        let rest = chunks.drop_last().filter_map(keep);
        assert(rest.push(chunks.last().loc) =~= rest + seq![chunks.last().loc]);
    }
    assert(locs_of(chunks, k) =~= chunks.filter_map(keep));
}

/// A key is suspected when the filter takes its short form for seen; what is
/// suspected stays so, and nothing else is.
pub proof fn seen_keys_are_suspected(keys: Seq<Key>, k: Key, size: nat)
    ensures
        suspects_among(Seq::empty(), size) == Set::<u64>::empty(),
        ({
            let short = keys.map_values(|x: Key| short_key(x));
            let seen = bloom::holds(bloom::after_inserts(short, size), size, short_key(k));
            suspects_among(keys.push(k), size) == if seen {
                suspects_among(keys, size).insert(short_key(k))
            } else {
                suspects_among(keys, size)
            }
        }),
        suspects_among(seq![k], size) == Set::<u64>::empty(),
{
    assert(keys.push(k).drop_last() =~= keys);
    let one = seq![k];
    assert(one.drop_last() =~= Seq::<Key>::empty());
    assert(short_keys(one.drop_last()) =~= Seq::<u64>::empty());
    bloom::empty_holds_nothing(size, short_key(k));
    assert(suspects_among(Seq::<Key>::empty(), size) =~= Set::<u64>::empty());
    assert(suspects_among(one, size) == suspects_among(one.drop_last(), size));
}

/// Suspects cover repeats exactly if no key occurs twice without being suspected.
pub proof fn covered_repeats_are_suspected(suspects: Set<u64>, keys: Seq<Key>, i: int, j: int)
    requires
        covers_repeats(suspects, keys),
        0 <= i < keys.len(),
        0 <= j < keys.len(),
        i != j,
        keys[i] == keys[j],
    ensures
        suspects.contains(short_key(keys[i])),
{
    if i < j {
        assert(suspects.contains(short_key(keys[i])));
    } else {
        assert(suspects.contains(short_key(keys[j])));
    }
}

/// The bound on the chunks of a file is one more than its whole blocks, so that no
/// file has more; a block size of zero counts as one.
pub proof fn bounds_hold_all_chunks(h: Hashed)
    ensures
        h.stat.blksz > 0 ==> chunk_bound(h) == h.stat.size as nat / h.stat.blksz as nat + 1,
        h.stat.blksz == 0 ==> chunk_bound(h) == h.stat.size + 1,
        h.stat.blksz > 0 ==> crate::hasher::n_chunks(h.stat.size as nat, h.stat.blksz as nat)
            <= chunk_bound(h),
{
}

/// Each file adds its bound to the sum, and the first pass can be sized as long as
/// ten bits for each chunk of it fit.
pub proof fn bounds_add_up<P>(files: Seq<(P, Hashed)>, f: (P, Hashed), n: nat)
    ensures
        total_bound(Seq::<(P, Hashed)>::empty()) == 0,
        total_bound(files.push(f)) == total_bound(files) + chunk_bound(f.1),
        filter_fits(n) <==> 10 * n <= 0x8000_0000_0000_0000 && 10 * n <= 32 * usize::MAX,
{
    assert(files.push(f).drop_last() =~= files);
}

/// What was fetched are the answers for the files, each by its own dataset and
/// number, in order, and each file is taken with the hashes fetched for it.
pub proof fn hashes_are_fetched_by_file<
    P,
    E,
    F: FnMut(u64, u64) -> Result<Option<Vec<ChunkHash>>, E>,
>(fetch: F, files: Seq<(P, Hashed)>, replies: Seq<Option<Vec<ChunkHash>>>, i: int)
    requires
        fetched(fetch, files, replies),
        0 <= i < replies.len(),
    ensures
        i < files.len(),
        fetch.ensures((files[i].1.stat.fsid, files[i].1.stat.ino), Ok(replies[i])),
        sources(files, replies).len() == replies.len(),
        sources(files, replies)[i] == (files[i].1, replies[i]),
{
}

/// An error is that of one of the files.
pub proof fn errors_come_from_files<P, E, F: FnMut(u64, u64) -> Result<Option<Vec<ChunkHash>>, E>>(
    fetch: F,
    files: Seq<(P, Hashed)>,
    e: E,
)
    requires
        failed(fetch, files, e),
    ensures
        exists|i: int|
            0 <= i < files.len() && #[trigger] fetch.ensures(
                (files[i].1.stat.fsid, files[i].1.stat.ino),
                Err(e),
            ),
{
}

/// Files can be addressed unless there are too many of them or one has more hashes
/// than 32 bits can number.
pub proof fn large_files_are_refused(files: Seq<Source>)
    ensures
        addressable(files) <==> files.len() <= 0xffff_ffff && !exists|i: int|
            0 <= i < files.len() && (#[trigger] files[i]).1 is Some && files[i].1->Some_0@.len()
                > 0x1_0000_0000,
{
    if !addressable(files) && files.len() <= 0xffff_ffff {
        let i = choose|i: int|
            0 <= i < files.len() && !((#[trigger] files[i]).1 matches Some(hashes) ==> hashes@.len()
                <= 0x1_0000_0000);
        assert(files[i].1 is Some && files[i].1->Some_0@.len() > 0x1_0000_0000);
    }
    if addressable(files) {
        assert forall|i: int| 0 <= i < files.len() && (#[trigger] files[i]).1 is Some implies files[i].1->Some_0@.len()
            <= 0x1_0000_0000 by {}
    }
}

/// Whether chunk `c` of file `f` has this block size and this hash.
pub open spec fn is_chunk(files: Seq<Source>, f: int, c: int, blksz: u32, hash: ChunkHash) -> bool {
    &&& 0 <= f < files.len()
    &&& files[f].1 is Some
    &&& 0 <= c < files[f].1->Some_0@.len()
    &&& files[f].1->Some_0@[c] == hash
    &&& files[f].0.stat.blksz == blksz
}

proof fn lemma_group_places(groups: Seq<Group>, files: Seq<Source>, g: int)
    requires
        addressable(files),
        0 <= g < groups.len(),
        groups[g].locs@ == locs_of(all_chunks(files), groups[g].key()),
        groups[g].locs@.len() >= 1,
    ensures
        groups[g].hash@ != Seq::new(16, |i: int| 0u8),
        forall|a: int|
            0 <= a < groups[g].locs@.len() ==> {
                let l = #[trigger] groups[g].locs@[a];
                is_chunk(files, l.file as int, l.chunk as int, groups[g].blksz, groups[g].hash)
            },
        forall|a: int, b: int|
            0 <= a < b < groups[g].locs@.len() ==> {
                let l = #[trigger] groups[g].locs@[a];
                let m = #[trigger] groups[g].locs@[b];
                l.file < m.file || (l.file == m.file && l.chunk < m.chunk)
            },
        forall|f: int, c: int| #[trigger]
            is_chunk(files, f, c, groups[g].blksz, groups[g].hash) ==> groups[g].locs@.contains(
                (Loc { file: f as u32, chunk: c as u32 }),
            ),
{
    let cs = all_chunks(files);
    let k = groups[g].key();
    lemma_all_chunks(files);
    lemma_locs_positions(cs, k);
    let ls = groups[g].locs@;
    assert forall|a: int| 0 <= a < ls.len() implies {
        let l = #[trigger] ls[a];
        is_chunk(files, l.file as int, l.chunk as int, groups[g].blksz, groups[g].hash)
            && groups[g].hash != ZERO_HASH
    } by {
        assert(placed(cs, k, ls[a]));
        let i = choose|i: int| 0 <= i < cs.len() && (#[trigger] cs[i]).key == k && cs[i].loc == ls[a];
        assert(key_at(files, cs[i].loc) == Some(cs[i].key));
    }
    let zeros = Seq::new(16, |i: int| 0u8);
    assert(ZERO_HASH@ =~= zeros);
    assert(groups[g].hash@ != zeros) by {
        let l = ls[0];
        if groups[g].hash@ == zeros {
            assert(groups[g].hash =~= ZERO_HASH);
        }
    }
    assert forall|a: int, b: int| 0 <= a < b < ls.len() implies {
        let l = #[trigger] ls[a];
        let m = #[trigger] ls[b];
        l.file < m.file || (l.file == m.file && l.chunk < m.chunk)
    } by {
        assert(before(ls[a], ls[b]));
    }
    assert forall|f: int, c: int| #[trigger]
        is_chunk(files, f, c, groups[g].blksz, groups[g].hash) implies ls.contains(
        (Loc { file: f as u32, chunk: c as u32 }),
    ) by {
        let loc = Loc { file: f as u32, chunk: c as u32 };
        assert(files[f].1 matches Some(hashes) ==> hashes@.len() <= 0x1_0000_0000);
        assert(key_at(files, loc) == Some(k));
        let i = choose|i: int| 0 <= i < cs.len() && (#[trigger] cs[i]).loc == loc;
        assert(key_at(files, cs[i].loc) == Some(cs[i].key));
    }
}

/// Every group of an index holds two chunks or more, all of the block size and the
/// hash of the group and none left out, from the first file to the last and from
/// the first chunk to the last; no group is of zeros.
pub proof fn indexed_chunks_are_equal(
    groups: Seq<Group>,
    a: Seq<Source>,
    b: Seq<Source>,
    n: nat,
    g: int,
)
    requires
        come_of_passes(groups, a, b, n),
        0 <= g < groups.len(),
    ensures
        groups[g].locs@.len() >= 2,
        groups[g].hash@ != Seq::new(16, |i: int| 0u8),
        forall|x: int|
            0 <= x < groups[g].locs@.len() ==> {
                let l = #[trigger] groups[g].locs@[x];
                is_chunk(b, l.file as int, l.chunk as int, groups[g].blksz, groups[g].hash)
            },
        forall|x: int, y: int|
            0 <= x < y < groups[g].locs@.len() ==> {
                let l = #[trigger] groups[g].locs@[x];
                let m = #[trigger] groups[g].locs@[y];
                l.file < m.file || (l.file == m.file && l.chunk < m.chunk)
            },
        forall|f: int, c: int| #[trigger]
            is_chunk(b, f, c, groups[g].blksz, groups[g].hash) ==> groups[g].locs@.contains(
                (Loc { file: f as u32, chunk: c as u32 }),
            ),
        forall|h: int|
            0 <= h < groups.len() && h != g ==> ((#[trigger] groups[h]).blksz, groups[h].hash) != (
                groups[g].blksz,
                groups[g].hash,
            ),
{
    let size = choose|size: nat| #[trigger]
        bloom::is_filter_size(size, n) && groups_suspects(
            groups,
            all_chunks(b),
            suspects_among(keys_of(all_chunks(a)), size),
        );
    assert(groups[g].locs@ == locs_of(all_chunks(b), groups[g].key()));
    lemma_group_places(groups, b, g);
    assert forall|h: int| 0 <= h < groups.len() && h != g implies (
        (#[trigger] groups[h]).blksz,
        groups[h].hash,
    ) != (groups[g].blksz, groups[g].hash) by {
        assert(groups[h].key() != groups[g].key());
    }
}

/// Two chunks of one block size and one hash, not of zeros, are in one group if
/// both passes saw them there, whatever else changed between the passes.
pub proof fn repeated_chunks_are_indexed(
    groups: Seq<Group>,
    a: Seq<Source>,
    b: Seq<Source>,
    n: nat,
    x: (int, int),
    y: (int, int),
    blksz: u32,
    hash: ChunkHash,
)
    requires
        come_of_passes(groups, a, b, n),
        addressable(a),
        x != y,
        is_chunk(a, x.0, x.1, blksz, hash),
        is_chunk(a, y.0, y.1, blksz, hash),
        is_chunk(b, x.0, x.1, blksz, hash),
        is_chunk(b, y.0, y.1, blksz, hash),
        hash@ != Seq::new(16, |i: int| 0u8),
    ensures
        exists|g: int|
            0 <= g < groups.len() && (#[trigger] groups[g]).blksz == blksz && groups[g].hash == hash
                && groups[g].locs@.contains((Loc { file: x.0 as u32, chunk: x.1 as u32 }))
                && groups[g].locs@.contains((Loc { file: y.0 as u32, chunk: y.1 as u32 })),
{
    let k: Key = (blksz, hash);
    let size = choose|size: nat| #[trigger]
        bloom::is_filter_size(size, n) && groups_suspects(
            groups,
            all_chunks(b),
            suspects_among(keys_of(all_chunks(a)), size),
        );
    let suspects = suspects_among(keys_of(all_chunks(a)), size);
    assert(ZERO_HASH@ =~= Seq::new(16, |i: int| 0u8));
    let lx = Loc { file: x.0 as u32, chunk: x.1 as u32 };
    let ly = Loc { file: y.0 as u32, chunk: y.1 as u32 };
    assert(a[x.0].1 matches Some(hashes) ==> hashes@.len() <= 0x1_0000_0000);
    assert(a[y.0].1 matches Some(hashes) ==> hashes@.len() <= 0x1_0000_0000);
    assert(b[x.0].1 matches Some(hashes) ==> hashes@.len() <= 0x1_0000_0000);
    assert(b[y.0].1 matches Some(hashes) ==> hashes@.len() <= 0x1_0000_0000);
    assert(lx != ly);
    // The first pass saw the key twice, so it is suspected.
    let ca = all_chunks(a);
    lemma_all_chunks(a);
    assert(key_at(a, lx) == Some(k) && key_at(a, ly) == Some(k));
    let i = choose|i: int| 0 <= i < ca.len() && (#[trigger] ca[i]).loc == lx;
    let j = choose|j: int| 0 <= j < ca.len() && (#[trigger] ca[j]).loc == ly;
    assert(key_at(a, ca[i].loc) == Some(ca[i].key));
    assert(key_at(a, ca[j].loc) == Some(ca[j].key));
    let keys = keys_of(ca);
    assert(keys[i] == k && keys[j] == k);
    repeats_are_suspected(keys, size);
    covered_repeats_are_suspected(suspects, keys, i, j);
    // The second pass found both, so there is a group.
    let cb = all_chunks(b);
    lemma_all_chunks(b);
    lemma_locs_positions(cb, k);
    assert(key_at(b, lx) == Some(k) && key_at(b, ly) == Some(k));
    let p = choose|p: int| 0 <= p < cb.len() && (#[trigger] cb[p]).loc == lx;
    let q = choose|q: int| 0 <= q < cb.len() && (#[trigger] cb[q]).loc == ly;
    assert(key_at(b, cb[p].loc) == Some(cb[p].key));
    assert(key_at(b, cb[q].loc) == Some(cb[q].key));
    let ls = locs_of(cb, k);
    assert(ls.contains(lx) && ls.contains(ly));
    let s = choose|s: int| 0 <= s < ls.len() && ls[s] == lx;
    let t = choose|t: int| 0 <= t < ls.len() && ls[t] == ly;
    assert(s != t);
    assert(ls.len() >= 2);
    assert(has_group(groups, k));
    let g = choose|g: int| 0 <= g < groups.len() && (#[trigger] groups[g]).key() == k;
    assert(groups[g].locs@ == locs_of(cb, groups[g].key()));
}

} // verus!
