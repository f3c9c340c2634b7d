# vektordb

A small vector database engine: a graph index (hierarchical navigable small
world), a vector store in doubling segments, a write-ahead log with crash
recovery, product quantization, and exhaustive search as the truth to measure
against.

The engine in `src/` is verified with Verus. Every function states what it
returns or changes, and the proofs cover what the engine promises as a whole:
an insert that was acknowledged survives a crash, with the same vectors, the
same graph and the same codes, over any number of sessions and wherever they
end; a torn record at the end of the log costs
nothing that was acknowledged; a record that fails its checksum with others
behind it is reported and never cut off, and so is one whose length was damaged
with intact records behind it; a checkpoint is permanent, and once there is a
store file every step of it leaves files that open to the same database; a
snapshot or a codebook with a changed byte is refused; a beam as wide as a
connected graph finds the exact answer.

## Layout

| Path              | What it holds                                             |
|-------------------|-----------------------------------------------------------|
| `src/storage/`    | the vector store, candidates in order, exhaustive search  |
| `src/hnsw/`       | the graph index: search, insertion, snapshots             |
| `src/wal/`        | the write-ahead log                                       |
| `src/pq/`         | product quantization: training, codes, the codebook file  |
| `src/db/`         | the database: opening, inserting, searching, checkpoints  |
| `src/*/laws.rs`   | what holds of each part as a whole; so do `hnsw/tidy.rs`, |
|                   | `hnsw/reach.rs`, `storage/order.rs` and `db/history.rs`   |
| `src/io.rs`       | plans of writes, and what they leave on disk              |
| `app/`            | the command line, files and mappings, kernels, Python     |
| `tests/`          | tests on concrete values                                  |

Components and distances are single-precision values, held as their bit
patterns. The engine compares and moves them; distance kernels, cluster means
and the level of a node are computed by closures that the caller hands in.

The engine does not write files. It hands out plans, lists of writes in their
order (`src/io.rs`), and the caller performs them. `app/` does, and it has the
closures.

Two outside functions are relied upon: `crc32fast::hash`, of which it is used
that the sum depends on the bytes alone and that changing one byte changes it,
and the `SmallRng` of `rand`, whose first word for a seed fixes the level of a
node and whose further draws seed the clusters.
