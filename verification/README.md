# ahc_subs

Solvers for three AtCoder Heuristic Contest problems, written as a Verus
library whose logic is proved against its contracts, plus a thin program
(`app/`) that does the reading, printing and talking to the judges.

- `src/ahc017`: scheduling road works, at most `K` a day
  (`schedule.rs` counts works per day; `sub01`, `sub02`, `sub04` are three
  successive solvers).
- `src/ahc018`: digging water channels through rock of unknown strength
  (`geometry.rs` cells, digs and channels; `sets.rs` ordered sets of cells;
  `shortest.rs` Floyd–Warshall and the walk back along cheapest ways;
  `sub01`, `sub06`, `sub15`, `sub20` the solvers). Each solver returns the
  cells to dig and records the judge's replies; the program performs the digs.
- `src/ahc022`: choosing temperatures on a torus so that exits can be told
  apart (`gaussian_filter.rs` smoothing, `sums.rs` finite sums,
  `flat_field.rs` smoothing's behaviour on flat fields, `temperature_field.rs` pattern matching, `placement.rs`
  labels; `sub03`, `sub06`, `sub08`, `sub11` the solvers).
- `src/random.rs`: the `rand` generators the solvers draw from.

Run a solver with `app <problem>-<solver>`, e.g. `app ahc018-sub20`.
