# park_sim

A small theme-park simulation on a 20 x 15 grid, verified with Verus.

The player lays path and ride track (paid for from the park's money) or
bulldozes them again. Guests appear at the entrance every two seconds
while some track can be reached, walk along a shortest path to the
nearest track tile, ride the track out to its far end and back, pay the
ride fee, and walk back out.

Layout of `src/`:

- `grid.rs`: dimensions, tile kinds, index arithmetic, and the
  reachability relation (`reach`, `shortest`) every route is measured by.
- `rng.rs`: the xorshift generator and the seeded shuffle of the four
  neighbour directions.
- `search.rs`: breadth-first search as a spec-level state machine, with
  the proofs that it labels tiles with their true distances, and the
  executable `bfs` that runs it.
- `world.rs`: guests, the park state, and its well-formedness.
- `paths.rs`: the entrance search (parent tree and boarding tile), a
  guest's next step, and the far end of a ride.
- `sim.rs`: spawning and the per-guest state machine.
- `api.rs`: `init`, `tick`, `click` and the getters, with the laws that
  relate them.

`app/` holds the C interface: one park per process behind the same
exported functions.
