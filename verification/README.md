# vector-rs

A distributed vector search engine whose core is verified with Verus.

## Layout

- `src/` — the verified library. Distances never enter it as floating-point
  numbers: callers report them as `u32` order keys (a monotone map of the
  score), so every ranking, selection and merge is proved over integers.
  - `topk.rs` — best-first top-K selection and the law that top-K
    selections compose across shards.
  - `flat.rs`, `ivf_search.rs`, `hnsw_search.rs`, `graph.rs` — exact scan,
    IVF-PQ query planning and list scanning, HNSW graph maintenance, greedy
    routing, beam search and neighbor selection.
  - `kmeans.rs`, `pq.rs` — the integer side of k-means (shape of a run,
    random initialization, assignment with cluster sizes, reseeding) and
    product-quantizer codebooks, encoding and decoding.
  - `hnsw_file.rs`, `ivf_file.rs`, `centroid_file.rs`, `storage.rs`,
    `wire.rs` — binary file formats with round-trip laws.
  - `aggregator.rs`, `worker.rs`, `ddp.rs`, `collective.rs`, `device.rs`,
    `knn_batch.rs` — scatter-gather, request checks, sharding plans,
    collective operations and device buffer layout.
  - `metric.rs`, `proto.rs`, `simd.rs`, `error.rs`, configs — tables,
    parsing, validation and error values.
- `app/` — ordinary Rust around the library: floating-point distance
  kernels, k-means means, file and memory-map I/O, thread pools, the index
  types over `f32` storages, command-line arguments and error types with
  `Display`.
- `tests/` — tests of the library.
