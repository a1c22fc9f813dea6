# mycelium_route

Network routing modelled on mycorrhizal networks: links are hyphae, junctions
are nodes, packets are nutrients.

- `src/` is the verified library: link topology (`hypha`, `growth`), the
  graph model and its lemmas (`graph`), breadth-first shortest routes,
  pruning and rerouting (`growth`, `decay`), and packet time to live
  (`nutrient`). It holds no floating-point data.
- `app/` pairs the library's values with their measured quantities
  (bandwidth, latency, health, capacity, load, positions, size, priority)
  and does the floating-point arithmetic on them.
- `tests/` exercises the library.
