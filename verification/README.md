# solver_core

Verified core of a school timetabling solver, written in Verus.

The library scores a set of placements (lesson hours in time blocks and
rooms) against weighted soft constraints, reports the score per component,
orders lessons for first-fit-decreasing placement, and provides the
building blocks of the late-acceptance local search: move deltas, room
picks, Kempe chains, change and swap moves with their rollbacks, the
search's bookkeeping and the home-room repair move.
Every function in `src/` is verified by Verus and, except the progress
beacon (whose atomics are shared with other threads), carries a contract
over its result; the laws that relate several functions are public proof
functions.

Layout:

- `src/types.rs`: the problem, placements, violations and weights.
- `src/positions.rs`, `src/partition.rs`: sorted position lists and the
  (owner, day) partitions of occupied positions.
- `src/score.rs`, `src/quality.rs`: the weighted score and its per-component
  report.
- `src/index.rs`, `src/lookup.rs`, `src/ordering.rs`: relation indexes,
  lookups and the placement order.
- `src/lahc.rs`, `src/kempe.rs`, `src/state.rs`, `src/vecmap.rs`,
  `src/repair.rs`: local-search helpers, Kempe chains, bookkeeping and the
  home-room repair.
- `src/change.rs`, `src/block.rs`, `src/swap.rs`: the change move for a
  single hour and for a whole block, and the swap of two blocks, each with
  its acceptance decision and the bookkeeping it applies.
- `src/kempe_move.rs`: the Kempe-chain move (anchor and day draws taken
  as arguments), worked on copies and committed only when accepted.
- `src/scorable.rs`: whether a placement list can be scored without
  overflow.
- `src/search.rs`: the late-acceptance search as a step function: which
  move an iteration tries, the move itself, and the history list, best
  placements, progress record and stop decision after it.
- `src/rollback.rs`: undoing a ruin-and-recreate step or a Kempe step from
  the snapshots taken before it.
- `src/laws.rs`: laws relating the scoring functions (among them that
  scaling every weight scales the score).
- `src/progress.rs`, `src/error.rs`: progress beacon and error types.
- `app/`: the JSON edge (serde copies of the types, parsing, error
  envelope) and the search loop around `lahc_step` (clock, `rand` draws,
  progress beacon).
- `tests/`: executable tests of the library.

Not part of this project: the greedy placer and the solve entry points,
so neither the ruin-and-recreate moves (their recreate step is the greedy
placer) nor the JSON solve entry exist here; a ruin-and-recreate iteration
of the search makes no move. The travel-buffer rule is not part of it
either: the moves take its verdict as an argument.
