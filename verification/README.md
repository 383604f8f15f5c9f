# petektools

Scattered-data gridding and geostatistics, with the logic that is not floating
point written in Verus and proved against its contracts.

## Layout

- `src/` — the verified library.
  - `formula/` — the formula language front end: lexer, recursive-descent
    parser (the grammar is stated as specification functions), assignment
    splitting, dependency analysis and evaluation order (Kahn's algorithm with a
    first-in first-out queue, the exact order stated; duplicate outputs and
    cycles reported), the built-in function table and the
    broadcast-length rules of the evaluator.
  - `container/` — the single-file section container: framing and opening of
    an image, the header index, partial reads, the byte-lossless filter and
    merge, and the laws relating them (`laws.rs`). zstd compression is called
    through trusted wrappers in `codec.rs`.
  - `gridding/` — the gridding vocabulary, the anchor and free-node numbering
    of the direct minimum-curvature solve (`nodes.rs`), band-matrix storage
    (`band.rs`), the mirror folding of stencil nodes at the lattice edge
    (`fold.rs`), the grouping of coincident samples (`coincident.rs`) and the
    control-row bookkeeping of incremental re-gridding (`controls.rs`).
  - `simulation.rs` — the visiting path of sequential Gaussian simulation.
  - `interp.rs`, `sampling.rs`, `error.rs`, `text.rs` — method vocabularies,
    the error type and the string helpers the rest is built on.
- `tests/` — tests of the library on concrete values.
- `app/` — the floating-point kernels (gridding, kriging, simulation, sampling,
  interpolation, formula evaluation) and the container's file I/O, built on the
  library.
