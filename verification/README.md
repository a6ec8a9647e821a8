# Revenant Core

A data-recovery engine whose logic is verified with Verus: read-only
acquisition through a storage interface with no write path, FAT32 and NTFS
metadata recovery, single-pass and streaming signature carving, structural
verification, candidate deduplication, destination safety checks, imaging
with a hash of exactly the bytes imaged, the post-write hash check of
recovered files, job and queue state, and the local API's request handling.

- `src/` — the verified library. Each public function states its result in
  its `ensures`; cross-function properties are public `law_*` proof
  functions.
- `app/` — the service around it: device discovery, file and network I/O,
  SQLite persistence, worker threads, and the floating-point confidence
  scores.
- `tests/` — tests of the library on in-memory images.

A storage reader may declare what it guarantees: that its successful reads
are the device's bytes (`faithful`, or `exact_inside` for reads that lie
inside the device), that every read inside the device succeeds
(`reliable`), and the log of the reads asked of it (`logs_reads`). The
scans state, for every reader, what holds of any outcome, and, for readers
that declare these guarantees, exactly what they find on the device and
which reads they ask for. `MemoryReader` declares all of them; the
resilient reader declares them when the reader it wraps does.

Imaging hands each chunk it reads to an `ImageSink` and to an incremental
SHA-256 at once; a sink may likewise declare that it keeps a copy of what
it accepted or that it never fails (`MemorySink` declares both).
