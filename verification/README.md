# blusc

Blosc/Blosc2 compression in Rust, with its logic proved by Verus: the frame layout, the
block filters (byte shuffle, bitshuffle, delta, precision truncation), the BloscLZ codec, and
the core routines around them. LZ4, Snappy, Zlib and Zstd are called through their crates
(`lz4_flex`, `snap`, `flate2`, `zstd`) behind small trusted wrappers in
`src/codecs/outside.rs`.

Layout:

- `src/api.rs`, `src/convenience.rs`: the entry points (compress, decompress, header queries,
  item extraction, contexts, whole-vector calls), with round-trip laws for buffers whose sizes
  fit the header's 32-bit fields.
- `src/internal/`: the frame writer and reader, their specifications and constants. The
  writer's contract says which bytes each stream holds (the codec's output for that part of the
  filtered block) and exactly when the data is stored as is instead.
- `src/codecs/`: BloscLZ (verified) and the trusted wrappers of the other codecs.
- `src/filters/`: shuffle, bitshuffle and its kernels, delta, precision truncation.
- `src/blosc/`: copies, byte order, chunk headers, the n-dimensional metadata, shapes and
  strides, index and slice-copy routines, and a bounded BloscLZ decoder.
- `app/`: plain Rust around the library: default-parameter constants, error types with
  `Display`, and timing.
- `tests/`: the test suite.
