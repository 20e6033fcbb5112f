# ranking

PageRank convergence experiments on web graphs stored as Matrix Market
files: a random partition of the nodes turns the transition matrix into a
nearly completely decomposable one, and the program measures how many power
iterations the stationary distribution needs as the damping factor and the
share of removed arcs vary.

## Layout

- `src/` — the library, verified with Verus:
  - `parser/` reads Matrix Market files (header words, the shape line,
    entries read in parts), gathers entries by column and writes patterns
    back as Matrix Market text; reading back what was written gives the
    same matrix, when it has at least one entry (a file without entries
    reads back as an error).
  - `matrix/partition.rs` partitions nodes into groups and moves a
    distribution between the whole graph and its groups (`from_draws` and
    `group_from_draws` build the groups from given draws); dividing then
    fusing, or fusing then dividing, gives back what it started from.
  - `matrix/layout.rs` counts entries per row and shares columns among the
    parts of a parallel pass, each column in exactly one part.
  - `cli.rs`, `text.rs`, `errors.rs`, `types.rs`, `pool.rs`, `maths.rs`:
    command-line flags, environment files, text helpers, error messages,
    the shape of a matrix, thread-pool shutdown decisions and seeded draws.
- `app/` — the program around the library: file and thread I/O, the JSON
  configuration, and the floating-point side of PageRank (matrix entries,
  power iteration, simulation, charts).
- `tests/` — tests of the library.
