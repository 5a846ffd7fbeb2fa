//! Entries of the hash cache: their encoding, when one is stale, which ones a
//! scan evicts and when the cache file is worth compacting.

use crate::codec;
use std::collections::HashSet;
use vstd::prelude::*;

verus! {

/// Bytes of a chunk hash.
pub const HASH_LEN: usize = 16;

/// The hash of one chunk.
pub type ChunkHash = [u8; HASH_LEN];

/// Bytes of an encoded entry before its hashes.
pub const HEADER: usize = 44;

/// What the cache holds of one file. It is stale once any of size, mtime,
/// ctime or blksz differs from the file's. Hashes are in offset order: chunk
/// `i` covers `[i * blksz, (i + 1) * blksz)`.
#[derive(Debug, Clone, PartialEq, Eq)]
pub struct FileEntry {
    pub size: u64,
    pub mtime_ns: i128,
    pub ctime_ns: i128,
    pub blksz: u32,
    pub hashes: Vec<ChunkHash>,
}

/// Borrowed entry, to encode without cloning the hashes.
#[derive(Clone, Copy)]
pub struct EntryRef<'a> {
    pub size: u64,
    pub mtime_ns: i128,
    pub ctime_ns: i128,
    pub blksz: u32,
    pub hashes: &'a [ChunkHash],
}

/// The model of an entry.
pub struct Entry {
    pub size: u64,
    pub mtime_ns: i128,
    pub ctime_ns: i128,
    pub blksz: u32,
    pub hashes: Seq<ChunkHash>,
}

impl View for FileEntry {
    type V = Entry;

    open spec fn view(&self) -> Entry {
        Entry {
            size: self.size,
            mtime_ns: self.mtime_ns,
            ctime_ns: self.ctime_ns,
            blksz: self.blksz,
            hashes: self.hashes@,
        }
    }
}

impl<'a> View for EntryRef<'a> {
    type V = Entry;

    open spec fn view(&self) -> Entry {
        Entry {
            size: self.size,
            mtime_ns: self.mtime_ns,
            ctime_ns: self.ctime_ns,
            blksz: self.blksz,
            hashes: self.hashes@,
        }
    }
}

/// Why bytes of the cache are not an entry.
#[derive(Debug, Clone, Copy, PartialEq, Eq)]
pub enum CacheError {
    /// No entry encodes to this many bytes.
    Corrupt { len: usize },
}

/// The bytes of `hashes`, one hash after the other.
pub open spec fn hash_bytes(hashes: Seq<ChunkHash>) -> Seq<u8> {
    Seq::new(hashes.len() * 16, |i: int| hashes[i / 16]@[i % 16])
}

/// The bytes of an entry before its hashes.
pub open spec fn header(e: Entry) -> Seq<u8> {
    codec::le_bytes(e.size as nat, 8) + codec::le_bytes(codec::twos_complement(e.mtime_ns), 16)
        + codec::le_bytes(codec::twos_complement(e.ctime_ns), 16) + codec::le_bytes(
        e.blksz as nat,
        4,
    )
}

/// The encoding of an entry.
pub open spec fn encoding(e: Entry) -> Seq<u8> {
    header(e) + hash_bytes(e.hashes)
}

/// Whether some entry encodes to `len` bytes.
pub open spec fn is_entry_len(len: nat) -> bool {
    len >= HEADER && (len - HEADER) % 16 == 0
}

proof fn lemma_header_len(e: Entry)
    ensures
        header(e).len() == HEADER,
{
    codec::lemma_le_bytes_len(e.size as nat, 8);
    codec::lemma_le_bytes_len(codec::twos_complement(e.mtime_ns), 16);
    codec::lemma_le_bytes_len(codec::twos_complement(e.ctime_ns), 16);
    codec::lemma_le_bytes_len(e.blksz as nat, 4);
}

/// The number of bytes that `e` encodes to.
pub fn encoded_len(e: EntryRef<'_>) -> (r: usize)
    requires
        HEADER + e.hashes@.len() * 16 <= usize::MAX,
    ensures
        r == encoding(e@).len(),
{
    proof {
        lemma_header_len(e@);
    }
    HEADER + e.hashes.len() * HASH_LEN
}

/// Writes the encoding of `e` to `buf`, which has just the room for it.
pub fn encode_into(buf: &mut [u8], e: EntryRef<'_>)
    requires
        old(buf)@.len() == encoding(e@).len(),
    ensures
        final(buf)@ == encoding(e@),
{
    proof {
        lemma_header_len(e@);
        codec::lemma_le_bytes_len(e.size as nat, 8);
        codec::lemma_le_bytes_len(codec::twos_complement(e.mtime_ns), 16);
        codec::lemma_le_bytes_len(codec::twos_complement(e.ctime_ns), 16);
        codec::lemma_le_bytes_len(e.blksz as nat, 4);
    }
    codec::write_le(buf, 0, 8, e.size as u128);
    codec::write_le(buf, 8, 16, codec::to_twos_complement(e.mtime_ns));
    codec::write_le(buf, 24, 16, codec::to_twos_complement(e.ctime_ns));
    codec::write_le(buf, 40, 4, e.blksz as u128);
    let ghost n = buf@.len();
    assert(buf@.subrange(0, 44) =~= header(e@));
    let mut j: usize = 0;
    while j < e.hashes.len()
        invariant
            j <= e.hashes@.len(),
            buf@.len() == n,
            n == HEADER + e.hashes@.len() * 16,
            header(e@).len() == HEADER,
            buf@.subrange(0, 44) == header(e@),
            forall|p: int| 0 <= p < j * 16 ==> buf@[HEADER + p] == hash_bytes(e.hashes@)[p],
        decreases e.hashes@.len() - j,
    {
        let mut i: usize = 0;
        while i < HASH_LEN
            invariant
                i <= 16,
                j < e.hashes@.len(),
                buf@.len() == n,
                n == HEADER + e.hashes@.len() * 16,
                header(e@).len() == HEADER,
                buf@.subrange(0, 44) == header(e@),
                forall|p: int| 0 <= p < j * 16 + i ==> buf@[HEADER + p] == hash_bytes(e.hashes@)[p],
            decreases 16 - i,
        {
            let ghost before = buf@;
            assert(HEADER + j * 16 + i < buf.len());
            assert((j * 16 + i) / 16 == j && (j * 16 + i) % 16 == i);
            assert(hash_bytes(e.hashes@)[j * 16 + i] == e.hashes@[j as int]@[i as int]);
            buf[HEADER + j * HASH_LEN + i] = e.hashes[j][i];
            assert(buf@.subrange(0, 44) =~= before.subrange(0, 44));
            i = i + 1;
        }
        j = j + 1;
    }
    proof {
        assert forall|p: int| HEADER <= p < n implies buf@[p] == hash_bytes(e.hashes@)[p - HEADER] by {
            assert(buf@[HEADER + (p - HEADER)] == hash_bytes(e.hashes@)[p - HEADER]);
        }
        assert forall|p: int| 0 <= p < HEADER implies buf@[p] == header(e@)[p] by {
            assert(buf@[p] == buf@.subrange(0, 44)[p]);
        }
        assert(buf@ =~= encoding(e@));
    }
}

/// The encoding of `e`.
pub fn encode(e: EntryRef<'_>) -> (r: Vec<u8>)
    requires
        HEADER + e.hashes@.len() * 16 <= usize::MAX,
    ensures
        r@ == encoding(e@),
{
    let mut buf: Vec<u8> = vec![0u8; encoded_len(e)];
    encode_into(buf.as_mut_slice(), e);
    buf
}

/// The hash whose bytes are `buf[off..off + HASH_LEN]`.
fn hash_at(buf: &[u8], off: usize) -> (r: ChunkHash)
    requires
        off + 16 <= buf@.len(),
    ensures
        r@ == buf@.subrange(off as int, off + 16),
{
    let mut r: ChunkHash = [0u8; HASH_LEN];
    let mut i: usize = 0;
    while i < HASH_LEN
        invariant
            i <= 16,
            off + 16 <= buf@.len(),
            forall|p: int| 0 <= p < i ==> r@[p] == buf@[off + p],
        decreases 16 - i,
    {
        assert(off + i < buf.len());
        r[i] = buf[off + i];
        i = i + 1;
    }
    assert(r@ =~= buf@.subrange(off as int, off + 16));
    r
}

impl FileEntry {
    /// The entry that `buf` encodes. Bytes whose number no entry encodes to are
    /// refused; any others are the encoding of exactly one entry.
    pub fn decode(buf: &[u8]) -> (r: Result<FileEntry, CacheError>)
        ensures
            match r {
                Ok(e) => is_entry_len(buf@.len()) && encoding(e@) == buf@,
                Err(CacheError::Corrupt { len }) => !is_entry_len(buf@.len()) && len == buf@.len(),
            },
    {
        if buf.len() < HEADER || (buf.len() - HEADER) % HASH_LEN != 0 {
            return Err(CacheError::Corrupt { len: buf.len() });
        }
        proof {
            codec::lemma_byte_ranges();
            codec::le_bytes_of_le_value(buf@.subrange(0, 8));
            codec::le_bytes_of_le_value(buf@.subrange(8, 24));
            codec::le_bytes_of_le_value(buf@.subrange(24, 40));
            codec::le_bytes_of_le_value(buf@.subrange(40, 44));
        }
        let size: u64 = codec::read_le(buf, 0, 8) as u64;
        let mtime_ns: i128 = codec::from_twos_complement(codec::read_le(buf, 8, 16));
        let ctime_ns: i128 = codec::from_twos_complement(codec::read_le(buf, 24, 16));
        let blksz: u32 = codec::read_le(buf, 40, 4) as u32;
        let mut hashes: Vec<ChunkHash> = Vec::new();
        let n: usize = (buf.len() - HEADER) / HASH_LEN;
        let mut j: usize = 0;
        while j < n
            invariant
                j <= n,
                buf@.len() == HEADER + n * 16,
                hashes@.len() == j,
                forall|k: int| 0 <= k < j ==> (#[trigger] hashes@[k])@ == buf@.subrange(
                    HEADER + k * 16,
                    HEADER + k * 16 + 16,
                ),
            decreases n - j,
        {
            assert(HEADER + j * 16 + 16 <= buf.len());
            hashes.push(hash_at(buf, HEADER + j * HASH_LEN));
            j = j + 1;
        }
        let e = FileEntry { size, mtime_ns, ctime_ns, blksz, hashes };
        proof {
            lemma_header_len(e@);
            assert(header(e@) =~= buf@.subrange(0, 44));
            assert forall|p: int| 0 <= p < n * 16 implies #[trigger] hash_bytes(e@.hashes)[p] == buf@[HEADER
                + p] by {
                let k = p / 16;
                assert(e@.hashes[k]@ == buf@.subrange(HEADER + k * 16, HEADER + k * 16 + 16));
            }
            assert(hash_bytes(e@.hashes) =~= buf@.subrange(44, buf@.len() as int));
            assert(encoding(e@) =~= buf@);
        }
        Ok(e)
    }

    /// A borrowed view of the entry.
    pub fn as_ref(&self) -> (r: EntryRef<'_>)
        ensures
            r@ == self@,
    {
        EntryRef {
            size: self.size,
            mtime_ns: self.mtime_ns,
            ctime_ns: self.ctime_ns,
            blksz: self.blksz,
            hashes: self.hashes.as_slice(),
        }
    }

    /// Whether the entry still describes a file with these attributes.
    pub fn matches(&self, size: u64, mtime_ns: i128, ctime_ns: i128, blksz: u32) -> (r: bool)
        ensures
            r == (self.size == size && self.mtime_ns == mtime_ns && self.ctime_ns == ctime_ns
                && self.blksz == blksz),
    {
        self.size == size && self.mtime_ns == mtime_ns && self.ctime_ns == ctime_ns && self.blksz
            == blksz
    }
}

/// Distinct entries have distinct encodings, so what decodes is what was encoded.
pub proof fn encoding_is_injective(a: Entry, b: Entry)
    requires
        encoding(a) == encoding(b),
    ensures
        a == b,
{
    lemma_header_len(a);
    lemma_header_len(b);
    assert(header(a) =~= encoding(a).subrange(0, 44));
    assert(header(b) =~= encoding(b).subrange(0, 44));
    codec::lemma_byte_ranges();
    lemma_header_fields(a);
    lemma_header_fields(b);
    assert(hash_bytes(a.hashes).len() == a.hashes.len() * 16);
    assert(hash_bytes(b.hashes).len() == b.hashes.len() * 16);
    assert(encoding(a).len() == HEADER + hash_bytes(a.hashes).len());
    assert(encoding(b).len() == HEADER + hash_bytes(b.hashes).len());
    assert(a.hashes.len() == b.hashes.len());
    assert forall|k: int| 0 <= k < a.hashes.len() implies #[trigger] a.hashes[k] == b.hashes[k] by {
        assert forall|i: int| 0 <= i < 16 implies #[trigger] a.hashes[k]@[i] == b.hashes[k]@[i] by {
            let p = k * 16 + i;
            assert(p / 16 == k && p % 16 == i);
            assert(0 <= p < hash_bytes(a.hashes).len());
            assert(hash_bytes(a.hashes)[p] == encoding(a)[HEADER + p]);
            assert(hash_bytes(b.hashes)[p] == encoding(b)[HEADER + p]);
            assert(hash_bytes(a.hashes)[p] == a.hashes[k]@[i]);
            assert(hash_bytes(b.hashes)[p] == b.hashes[k]@[i]);
        }
        assert(a.hashes[k] =~= b.hashes[k]);
    }
    assert(a.hashes =~= b.hashes);
}

proof fn lemma_header_fields(e: Entry)
    ensures
        codec::le_value(header(e).subrange(0, 8)) == e.size,
        codec::le_value(header(e).subrange(8, 24)) == codec::twos_complement(e.mtime_ns),
        codec::le_value(header(e).subrange(24, 40)) == codec::twos_complement(e.ctime_ns),
        codec::le_value(header(e).subrange(40, 44)) == e.blksz,
{
    lemma_header_len(e);
    codec::lemma_byte_ranges();
    codec::lemma_le_bytes_len(e.size as nat, 8);
    codec::lemma_le_bytes_len(codec::twos_complement(e.mtime_ns), 16);
    codec::lemma_le_bytes_len(codec::twos_complement(e.ctime_ns), 16);
    codec::lemma_le_bytes_len(e.blksz as nat, 4);
    codec::le_value_of_le_bytes(e.size as nat, 8);
    codec::le_value_of_le_bytes(codec::twos_complement(e.mtime_ns), 16);
    codec::le_value_of_le_bytes(codec::twos_complement(e.ctime_ns), 16);
    codec::le_value_of_le_bytes(e.blksz as nat, 4);
    assert(header(e).subrange(0, 8) =~= codec::le_bytes(e.size as nat, 8));
    assert(header(e).subrange(8, 24) =~= codec::le_bytes(codec::twos_complement(e.mtime_ns), 16));
    assert(header(e).subrange(24, 40) =~= codec::le_bytes(codec::twos_complement(e.ctime_ns), 16));
    assert(header(e).subrange(40, 44) =~= codec::le_bytes(e.blksz as nat, 4));
}

/// An entry that was encoded always decodes: its length is that of an entry.
pub proof fn encodings_decode(e: Entry)
    ensures
        is_entry_len(encoding(e).len()),
{
    lemma_header_len(e);
    assert((e.hashes.len() * 16) % 16 == 0);
}

/// Whether a scan of the datasets `fsids` leaves the cache entry of a file of
/// dataset `fsid` in place.
pub open spec fn survives(fsids: Set<u64>, fsid: u64, seen: bool) -> bool {
    !fsids.contains(fsid) || seen
}

/// One pass that drops the entries of files that a scan did not see. Entries of
/// datasets that were not scanned stay: a partial scan must not evict what it
/// never visited.
pub struct Prune {
    fsids: HashSet<u64>,
    removed: usize,
}

impl Prune {
    /// The datasets that were scanned.
    pub closed spec fn fsids(self) -> Set<u64> {
        self.fsids@
    }

    /// The number of entries dropped so far.
    pub closed spec fn dropped(self) -> nat {
        self.removed as nat
    }

    /// A pass over the entries of the datasets `fsids`.
    pub fn new(fsids: HashSet<u64>) -> (r: Prune)
        ensures
            r.fsids() == fsids@,
            r.dropped() == 0,
    {
        Prune { fsids, removed: 0 }
    }

    /// Whether to keep the entry of a file of dataset `fsid`; one that goes is counted.
    pub fn keep(&mut self, fsid: u64, seen: bool) -> (r: bool)
        requires
            old(self).dropped() < usize::MAX,
        ensures
            r == survives(old(self).fsids(), fsid, seen),
            final(self).fsids() == old(self).fsids(),
            final(self).dropped() == old(self).dropped() + if r {
                0int
            } else {
                1int
            },
    {
        broadcast use vstd::std_specs::hash::group_hash_axioms;

        let keep = !self.fsids.contains(&fsid) || seen;
        if !keep {
            self.removed = self.removed + 1;
        }
        keep
    }

    /// The number of entries dropped so far.
    pub fn removed(&self) -> (r: usize)
        ensures
            r == self.dropped(),
    {
        self.removed
    }
}

/// Bytes that compaction must win back to be worth its time.
pub const COMPACT_FLOOR: u64 = 0x100_0000;

/// Whether more than half of a cache file of `file` bytes is free, and more
/// than `COMPACT_FLOOR` of it, when `used` bytes are live.
pub fn is_bloated(file: u64, used: u64) -> (r: bool)
    ensures
        r == (file > 2 * used && file - used > COMPACT_FLOOR),
        r == (file > 2 * used && file - used > 16 * 1024 * 1024),
{
    file > used.saturating_add(used) && file.saturating_sub(used) > COMPACT_FLOOR
}

/// An entry is encoded as the size in 8 bytes, the times in 16 each and the block
/// size in 4, least significant first, and the hashes one after the other.
pub proof fn fields_have_their_places(e: Entry)
    ensures
        ({
            let bytes = encoding(e);
            &&& bytes.len() == 44 + 16 * e.hashes.len()
            &&& bytes.subrange(0, 8) == codec::le_bytes(e.size as nat, 8)
            &&& bytes.subrange(8, 24) == codec::le_bytes(codec::twos_complement(e.mtime_ns), 16)
            &&& bytes.subrange(24, 40) == codec::le_bytes(codec::twos_complement(e.ctime_ns), 16)
            &&& bytes.subrange(40, 44) == codec::le_bytes(e.blksz as nat, 4)
            &&& forall|k: int|
                0 <= k < e.hashes.len() ==> (#[trigger] e.hashes[k])@ == bytes.subrange(
                    44 + 16 * k,
                    44 + 16 * k + 16,
                )
        }),
{
    let bytes = encoding(e);
    lemma_header_len(e);
    codec::lemma_le_bytes_len(e.size as nat, 8);
    codec::lemma_le_bytes_len(codec::twos_complement(e.mtime_ns), 16);
    codec::lemma_le_bytes_len(codec::twos_complement(e.ctime_ns), 16);
    codec::lemma_le_bytes_len(e.blksz as nat, 4);
    assert(bytes.subrange(0, 8) =~= codec::le_bytes(e.size as nat, 8));
    assert(bytes.subrange(8, 24) =~= codec::le_bytes(codec::twos_complement(e.mtime_ns), 16));
    assert(bytes.subrange(24, 40) =~= codec::le_bytes(codec::twos_complement(e.ctime_ns), 16));
    assert(bytes.subrange(40, 44) =~= codec::le_bytes(e.blksz as nat, 4));
    assert forall|k: int| 0 <= k < e.hashes.len() implies (#[trigger] e.hashes[k])@ == bytes.subrange(
        44 + 16 * k,
        44 + 16 * k + 16,
    ) by {
        assert forall|i: int| 0 <= i < 16 implies #[trigger] e.hashes[k]@[i] == bytes[44 + 16 * k + i] by {
            let p = 16 * k + i;
            assert(p / 16 == k && p % 16 == i);
            assert(bytes[44 + p] == hash_bytes(e.hashes)[p]);
        }
        assert(e.hashes[k]@ =~= bytes.subrange(44 + 16 * k, 44 + 16 * k + 16));
    }
}

/// Entries take 44 bytes and 16 for each hash, and nothing else is as long.
pub proof fn entries_take_whole_hashes(len: nat, n: nat)
    ensures
        is_entry_len(44 + 16 * n),
        is_entry_len(len) <==> len >= 44 && len == 44 + 16 * ((len - 44) / 16),
{
}

/// A scan takes away exactly the entries of files that it did not see, of datasets
/// that it covered.
pub proof fn only_unseen_entries_go(fsids: Set<u64>, fsid: u64, seen: bool)
    ensures
        !survives(fsids, fsid, seen) <==> fsids.contains(fsid) && !seen,
{
}

/// An entry, owned or borrowed, stands for its own fields.
pub proof fn entries_stand_for_their_fields(e: FileEntry, r: EntryRef<'_>)
    ensures
        e@.size == e.size && e@.mtime_ns == e.mtime_ns && e@.ctime_ns == e.ctime_ns && e@.blksz
            == e.blksz && e@.hashes == e.hashes@,
        r@.size == r.size && r@.mtime_ns == r.mtime_ns && r@.ctime_ns == r.ctime_ns && r@.blksz
            == r.blksz && r@.hashes == r.hashes@,
{
}

} // verus!
