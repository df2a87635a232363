# tile_walk

Search heuristics for the "walking on tiles" grid game, verified with Verus.
A walker starts on a cell of a 50 x 50 grid covered by tiles, may step on
each tile at most once, and collects the points of the cells it visits.

Layout:

- `src/grid.rs`: the four moves and their wrap-around offsets.
- `src/sample.rs`: the contest's scorer (`compute_score_detail`), a minimal
  game state and the random, greedy, beam and chokudai searches over it.
- `src/team2.rs`: the contest solution: a best-first tour of the sixteen
  blocks of the grid, then depth-first rebuilding of random stretches.
- `src/laws.rs`: properties that span several functions (a walk built by
  legal moves is accepted by the scorer with the state's own score and steps
  on every tile once; destroy-and-rebuild keeps a valid walk with the same
  ends; one round of chokudai search answers as beam search).
- `src/clock.rs`, `src/random.rs`: the trusted calls into `std::time` and
  the `rand` crates.
- `app/`: reading the input, the floating-point annealing acceptance, the
  board printout and `main`.
- `tests/`: tests on concrete inputs.
