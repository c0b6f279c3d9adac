# resource_sim

A grid world in which scout robots wander and report deposits of energy and
crystal, and collector robots fetch those deposits, one unit at a time, to a
central base. The library is written in Verus: each public function carries a
contract that Verus proves.

- `src/map.rs`: positions, cells, deposits, the map and its generation.
- `src/path.rs`: walks on the grid and the breadth-first search that gives
  the first step of a shortest walk.
- `src/posmap.rs`: a table keyed by grid positions.
- `src/simulation.rs`: the shared world, the robots' turns, the handling of
  their reports, snapshots for rendering.
- `src/base.rs`, `src/robot.rs`, `src/communication.rs`: the base's stores,
  robots, and the messages robots send.
- `src/glyphs.rs`: what each cell of the map shows.
- `src/random.rs`, `src/grid.rs`: the random generator and grid helpers.
- `app/`: the terminal program: Perlin-noise terrain, one thread per robot,
  and the ratatui interface.
