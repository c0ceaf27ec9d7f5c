# movable

Path finding and steering decisions for units that move on a grid of cells.

- `src/` is the verified library:
  - `heading`: the eight compass headings, the heading of a step and the turn
    penalty between headings, with their laws;
  - `coords`: cells, nodes (a cell with a heading), `calculate_heading` and
    `calculate_base_inertia`;
  - `grid`: the movement grid, the width check of diagonal steps and the
    neighbours of a cell;
  - `search`: the A* search over cells and headings (`calculate_a_star`) and
    the reconstruction of the path it found; it finds a path exactly when the
    target can be reached, the path consists of allowed steps, and when the
    heuristic never overestimates no walk to the target costs less;
  - `steering`: what a unit following a path does in a frame.
- The search keeps one record per (cell, heading) state in a flat `Vec`
  indexed by the state's position, with the parent link inside the record,
  and its open list in a `Vec` without duplicates. vstd specifies both
  completely, and the proofs state their invariants and the termination
  measure (counts and sums over the table) directly over the `Seq` views.
- `tests/` runs the library on concrete grids.
- `app/` holds the bevy systems of the game: world coordinates, floating
  point costs and distances, and the turning and moving of units.
