# roaring_postings

Posting lists as roaring bitmaps, with the caches and plans that take Bool queries over
them to a device. The library under `src/` is written in Verus: every function states what
it does and is proved to do it. Two functions of the standard library are taken at their
word, `u32::count_ones` and `Arc::clone`.

- Containers, posting lists, their wire format, encoder and decoder.
- The planner that decides between CPU and device, and the folds over flat bitmaps.
- Plans for the device: lists of steps for a driver, with proofs that a plan stays within
  its buffers and leaves the fold of its terms behind.
- Three cache tiers (host, device, device compressed) with least-recently-used eviction
  under a byte budget, their dump format, and warming when a segment is opened.

What the library states of its wire formats is that everything written reads back, as long
as no container has more than 65535 runs; of its caches, exactly which entries stay, in
what order, and what the counters say of the calls made; of its folds, that they are the
set operations on documents.

`app/` is ordinary Rust around the library: the device runtime and codec (`ferro_compress`
and `tantivy_gpu`, of the search engine's own build), dump files, process-wide state,
settings and log lines. `tests/` runs the library on concrete values, with a device on the
host.
