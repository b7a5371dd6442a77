# xtr_warp

The logic of a multi-vector retrieval engine, verified with Verus: how the
candidates that a query probes are merged into ranked passages, how an index is
cut into shards and put together again, and how it is encoded, changed and
compacted.

- `src/` is the verified library. It works on plain values.
  - `score.rs`: the arithmetic of scores, and what it has to satisfy for sums and
    maxima not to depend on their order.
  - `search/`: merging (`merger`, `combiner`, `reduction`, `grouping`, `ranking`),
    what the merge computes (`scoring`), why its two forms agree (`agreement`) and
    why a query has one result (`uniqueness`), shards (`gather`, `scorer`,
    `sharding`), loading (`loader`, `npy`) and deleted passages (`tombstones`).
  - `index/`: encoding (`encode`, `packing`), files of chunks (`files`), removal of
    deleted and replaced passages (`rewrite`), adding, updating and compacting
    (`update`), and what holds over any sequence of changes (`history`).
  - `utils/`: shared types, shard boundaries, device and dtype names, batches.
- `tests/` runs the library on examples.
- `app/` is the Python extension around it: tensors, files, threads, bindings. The
  centroid selector, the decompressor, the residual codec and the storage of
  compacted structures are linked in through its `backend` module.

Results are stated exactly for any type of score. Where a law needs sums and
maxima to be exact, as they are for whole numbers, it says so.
