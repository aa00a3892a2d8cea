# game_of_life

Conway's Game of Life on an unbounded grid of `i32` coordinates.

- `src/rules.rs` states the rules as spec functions over the set of live
  cells (`next_generation`) and proves facts about them.
- `src/grid.rs` holds the `Grid` of live cells, its edits, and `tick`, which
  steps a generation by checking every live cell and its neighbours.
- `src/counting.rs` holds a second `tick` that tallies neighbour counts in a
  map; both are proved to compute `next_generation`.
- `app/` is the egui front end: it draws the grid, reads the mouse and the
  keyboard, and calls the library.
