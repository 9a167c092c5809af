# mini_lsm

A small log-structured merge tree storage engine whose data formats and
iteration order are proved with Verus.

- `src/` is the verified library: keys and their order (`key`), blocks, their
  builder, encoding and iterator (`block`), sorted string tables and their
  block metadata (`table`), the iterator interface, the merging iterator and
  the scan iterator that skips deletions (`iterators`, `lsm_iterator`),
  compaction tasks and options (`compact`), engine options and the rules a
  fresh engine and a read follow (`lsm_storage`), and manifest records
  (`manifest`). `codec` holds the big-endian encodings and the calls into the
  `bytes` crate, and `iterators` the one call into `anyhow`; their contracts
  are trusted.
- `app/` holds what lives with files, threads, locks and the concurrent skip
  list: the memtable, table files, the engine's shared state, key ranges and
  the serde copies of compaction tasks and manifest records.
- `tests/` runs the library on concrete values.
