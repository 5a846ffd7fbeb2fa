# zfs-dedup

Reclaims space from duplicate blocks on ZFS without turning on deduplication:
scans datasets, finds blocks with identical content and shares them by block
cloning.

The logic is a library in Verus (`src/`): its functions have contracts, and the
contracts are proved but for two outside calls (see below). The program around it (`app/`) reads and writes files, asks
the kernel and starts threads.

## Layout

| module | what it does |
|---|---|
| `bloom` | a Bloom filter without false negatives |
| `codec`, `cache` | the bytes of a cache entry; what to prune; when to compact |
| `hasher` | chunk hashes of a file as it is read; when cached ones serve |
| `index` | which chunks of which files share a hash, in two passes |
| `dedup` | the work on one group of chunks, step by step, and its counts |
| `clone` | what the kernel's answers to clone requests mean |
| `text`, `path`, `dirs` | byte strings, paths by components, sorted sets of directories |
| `remount` | the kernel's list of mounts; which binds to remount |
| `ids`, `table`, `walk` | paths packed into one table; what a walk visits and takes |
| `cli`, `run`, `session`, `human` | arguments, decisions and order of a run; byte counts |

Where the outside world and decisions alternate, the library offers a state
machine: `hasher::FileHasher` for a file that is read, `dedup::GroupRun` for a
group of chunks, `session::Session` for a whole run. Each says which step is due
and takes account of what became of it.

## What is proved

Beside the contract of each function, these are stated as public proof functions
or as clauses of a contract:

- The filter has no false negatives, so a file that was hashed keeps its cache
  entry when the cache is pruned, and no repeated chunk is missed.
- Distinct cache entries have distinct encodings; what was hashed is stored and
  found again, so only changed files are read again.
- The groups of the index are exactly the chunks that share block size and hash;
  no chunk is in two groups.
- A dry run asks for no change: it opens no scanned file for writing, clones
  nothing, writes no probe, and neither makes, prunes nor compacts the cache.
- A range is cloned only right after its bytes were read and found equal, or by
  the kernel's own compare-and-clone. Every range lies in its file.
- The names of one file are taken once; files keep their paths as others are added.
- Mounts are changed only in a private namespace, and only read-only binds over
  writable datasets; the racy way to clone needs `--force`; a partial scan prunes
  nothing.

## What is trusted

- `xxhash_rust::xxh3::xxh3_128` depends on its argument alone.
- The numbers of three errors are read from `rustix`; nothing is said of them.
