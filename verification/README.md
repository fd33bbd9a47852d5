# sparse

Sparse matrix formats and the COLAMD approximate column minimum degree ordering,
written in Verus: each function states its behaviour in `requires` / `ensures`
clauses and Verus proves it.

## Layout

- `src/array.rs`: a bounded array whose length never exceeds the capacity chosen
  when it was created.
- `src/coo.rs`, `src/csc.rs`: coordinate (COO) and compressed sparse column (CSC)
  patterns and matrices.
- `src/integer.rs`, `src/scalar.rs`, `src/index.rs`, `src/offset.rs`,
  `src/dimension.rs`, `src/isqrt.rs`: the integer and scalar types the formats are
  generic over, validated indices, offsets and dimensions, the integer square root.
- `src/colamd.rs` and `src/colamd/`: the COLAMD ordering. `model.rs` holds the
  mathematical model of the input checks and of the initial scoring; `init.rs`,
  `scoring.rs`, `pivot.rs`, `ordering.rs` and `order.rs` the phases of the
  algorithm. Every input error is reported exactly as the checks are ordered;
  initialization and scoring are proved to succeed on a workspace with room. The elimination loop reads its workspace through checked accesses:
  its success is not proved, and a run may report an inconsistent workspace. What
  is proved of it: once it succeeds every column is dead, and the columns it
  eliminated hold the ranks `0..cols` each once, as many as its thickness from its
  rank on. Garbage collection succeeds on a workspace whose lists name rows and
  columns in range, and keeps, for each alive column, the entries that name alive
  rows; super column detection succeeds on well-formed hash buckets, merges a
  column only into one with the same length, score and rows, leaves alive no two
  columns of one bucket that have them, and keeps the total thickness of the alive
  columns; the final step, on columns that form super columns, places
  each super column's members next to it. A successful run orders the columns by a
  permutation that places the columns killed by the initial scoring last, at the
  ranks the model gives them, and reports the statistics of the initial scoring
  that the model gives.
- `src/text.rs`: decimal text of integers, for error messages.
- `src/rb.rs`: the header fields and index lists of the Rutherford-Boeing format.
- `app/main.rs`: a harness that reads Rutherford-Boeing matrices from `.tar.gz`
  archives and compares the ordering with the one of the reference C COLAMD.
- `tests/`: tests of the library.

Verify with `verus` on `src/lib.rs`.
