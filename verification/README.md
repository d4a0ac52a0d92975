# fluid-2d

A 2D smoothed-particle fluid in a tank, with pillars you can drag, add and
remove. The simulation and its panel are a bevy application (`app/`); the
parts of it that decide things on integers and enums are a library verified
with Verus (`src/`):

- `grid`: the neighbour grid. Entries are counting-sorted by cell; a query
  returns one run of slots per row of the 3x3 block around a cell. Proved:
  the sort is a stable permutation by cell, a query's runs hold exactly the
  entries in the block, and writing a density moves nothing.
- `hash_grid`: the first version of the grid, one bucket per cell in bevy's
  hash map. Proved: every bucket lists exactly the entries of its cell in
  build order, and a query lists each entry of the block once and no other.
- `controls`: what every button of either panel does, and how a checkbox is
  brought to the state it should show.
- `pointer`: mouse and touch decisions: which button a press counts as, what
  it does to the pillars, holds, drags, and whether the cursor pulls or
  pushes the fluid.
- `spawn`: the lattice of sites the particles start on.

Everything on floating point (positions, kernels, forces, rendering) stays in
`app/`, which hands the library the integer cells and the comparisons it made.
