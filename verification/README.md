# signals

A verified core for a family of small network simulators built around
hexagonal geometry.

- `src/` is the library, verified with Verus:
  - `ring_network`: networks of concentric hexagonal rings, their size, their
    links, and breadth-first signal propagation with failed nodes (the signal
    reaches exactly the reachable nodes; times follow an arrival tree).
  - `packet`: hop-by-hop growth of a packet flood.
  - `mesh_network`: flat and fractal link structure of a three-dimensional mesh,
    and how many nodes a signal reaches through it.
  - `lattice`: the ring lattice of the propagation view and its styling rules.
  - `timeline`: void/boolean memory cells, branching timeline trees, pattern
    selection among branches, paging.
  - `order`: counting repeated windows in observed memory states.
- `tests/` runs the library.
- `app/` holds the terminal programs: floating-point timing, random jitter,
  threads, progress bars and the ratatui dashboards.

The three-dimensional Bevy viewer of the network (scene construction and
camera control in floating point) is not part of this crate: neither the
library nor `app/` depends on Bevy.
