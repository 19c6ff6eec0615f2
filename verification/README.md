# aoc_puzzles

Solutions to a set of daily programming puzzles, written as a library whose
functions carry Verus contracts and are proved against them.

- `src/` — the verified library, one module per puzzle (`dial`, `ids`, `banks`,
  `rolls`, `ranges`, `worksheet`, `beams`, `circuits`, `tiles`, `machines`,
  `presses`, `factory`, `devices`, `presents`) plus shared pieces (`decimal`,
  `text`, `utils`, `cheatsheet`). Besides the contracts of the functions, the
  modules state and prove properties of the puzzles as public proof functions
  (for instance that the merged id ranges count exactly the covered ids, or that
  two junction boxes share a circuit exactly when the pairs joined so far link them);
  `routes` and `packing` hold the models those properties need for the device
  graph (walks to a device without outputs) and for the presents (placements).
- `app/` — the program around it: reading the input file, the floating-point
  distances of the junction boxes, the parallel joltage search on tokio, and
  printing. Run it with the puzzle number and an input path.
- `tests/` — tests on the puzzles' example inputs and on edge cases.
