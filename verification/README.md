# connect_four

A Connect Four engine whose rules and solver are verified with Verus.

- `src/board.rs`: the position (grid, column heights, move count), its
  well-formedness invariant, dropping a piece, the open columns.
- `src/eval.rs`: four-in-a-row detection, full and terminal positions.
- `src/move_gen.rs`, `src/move_exec.rs`: the same rules as free functions.
- `src/render.rs`: the text drawing of a position.
- `src/value.rs`: the game-theoretic value of a position (forced win, forced
  loss, draw) and an exhaustive minimax that computes it.
- `src/numbers.rs`: saturated sums and minima of proof and disproof numbers.
- `src/search.rs`: depth-first proof-number search (`df_pn`, whose result
  is given by the spec function `pn_search`) with iterative thresholds;
  `solve` returns the game value of the position. The proof-number rounds
  are proved sound (an answer they give is the game value) and their
  numbers and node counts are given exactly by `pn_search` and `deepening`;
  that the rounds settle a position is not proved. `solve` is correct on
  every position because a position the rounds leave open (below the `INF`
  threshold) is settled by the exhaustive `minimax` of `src/value.rs`.
- `app/main.rs`: the command-line program, which solves the empty board and
  prints the progress of the search.
