# rediscovery

The core of a small numerics project on how tiny graphs are memorized, as an
associative lookup or as a geometry, by `Node2Vec` and by a one-layer network.
The core is written in Verus: each function states what it returns and is
proved to return it, except for three that call into other crates. Their
contracts are believed: `seeded_generator` and `next_word` in `numerics`, for
ChaCha20's stream, and `parse_level` in `logger`, for the names of the log
levels.

## Layout

- `src/` is the verified library.
  - `graph`, `graph_laws`, `counting`: the graph families, and their edge totals
    and degree profiles.
  - `spectral`, `ranking`: exact walk matrices, and the deterministic order, signs
    and degenerate groups of a spectrum.
  - `node2vec`, `tinynn`, `shells`: the two systems, and graph distance.
  - `progress`, `journal`: the step loop that the gradient runs share, and the
    history that it writes.
  - `numerics`: seeded draws from a ChaCha20 stream.
  - `text`, `output`: comma-separated lines, and the laws that they read back.
  - `settings`, `logger`: names of the configuration sources and the choice of
    the log level.
  - `double`, `matrix`, `error`: binary64 bit patterns, dense matrices and the
    error type that the rest shares.
- `tests/` runs the library, with nalgebra as the eigensolver where a spectrum is
  needed.
- `app/` is the daemon around it: floating-point arithmetic, files, settings and
  task lifecycle.

Floating-point numbers pass through the library as bit patterns. It orders,
classifies and negates them exactly, and leaves rounding arithmetic to its
caller.
