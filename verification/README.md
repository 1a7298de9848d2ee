# supertable

The logic of a table that lives in object storage as immutable superfiles,
verified with Verus.

- `src/manifest` holds the versions of a table: the list, its parts, their
  summaries, their bytes, and the pointer file that makes a version visible.
- `src/writer` goes from record batches to a published version: buffering,
  sharding, summaries, the plan of which parts are written, and retries.
- `src/query` and `src/manifest/list_prune.rs` say what a query can leave out.
- `src/reader_cache` keeps the books of the caches of open superfiles: what is
  held, what is reserved, what leaves, and how a cold superfile is fetched.
- `src/wal` seals and reads tombstones.
- `app` is ordinary Rust around the library: storage, files, threads, floating
  point and the SQL engine.

The public proof functions state what holds of several functions together, such
as that a part that was written is read back, that a commit keeps every
superfile, or that no superfile is left out that holds a queried term.

What other crates compute stands behind small functions marked
`external_body`. Their doc comments say what is taken for granted of each.
