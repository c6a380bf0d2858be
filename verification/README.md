# ripper

A small grid-world engine for reinforcement-learning experiments, written
in Verus: the rules of the world are stated as contracts and proved; the
random draws are stated by what holds of every outcome.

- `src/grid_world/` — the entity-component world:
  - `layout` reads the one-character-per-cell level format (`#` wall,
    `P` player, `G` goal, `E` enemy, `T` trap, `.` floor), checks that the
    goal can be reached (breadth-first search, proved sound and complete),
    and builds random layouts with the goal kept a set distance from the
    player;
  - `mutation` changes layouts by flipping walls, adding or removing
    enemies and traps, and moving entities, one cell at a time, each
    round stated cell by cell with its pick;
  - `world` is the state machine: movement blocked by walls, traps,
    capture, goals, a tick limit, and fog of war;
  - `vision` traces Bresenham lines (from the endpoint first in
    row-major order, so sight is symmetric) with wall and diagonal-corner
    blocking inside a perception range;
  - `render` draws the map and each entity's view as text.
- `src/grid.rs` — the first, single-enemy grid environment.
- `src/chance.rs` — the random draws, through the `rand` crate.
- `app/` — the terminal program, the playable window (macroquad) and the
  Python bindings (pyo3), with the settings that weigh random draws by
  floating-point probabilities; the drawing and printing themselves.
- `tests/` — tests on concrete layouts.
