# game_core

The simulation core of a small colony game: a 50×50 tile world of water, sand
and grass, colonists that eat, sleep and wander, and buildings (walls, beds,
berry bushes) placed by the player.

`src/` is a Verus library. Every function in it is verified against its
contract, except the three wrappers in `random` around `rand`'s generator,
whose contracts are trusted: they state only what `rand` documents (a range
draw lands in its range; a ratio of 0 or 1 always gives false or true).

- `world` — the tile grid, bounds and tile queries.
- `pathfinding` — A* search for shortest routes around water and walls, and
  routes to a cell beside a building.
- `connectivity` — connected regions of land and the largest one.
- `generation` — random terrain and the rounds that leave nine in ten land
  tiles in one connected region.
- `colony` — entity ids, building placement, task choice and task transitions.
- `text`, `mask`, `random` — decimal rendering, counting, and the random draws
  (from `rand`).

`app/` wraps the library for the browser: the ECS world (`bevy_ecs`), the
float-valued needs and smooth movement, JSON events (`serde_json`) and the
WebAssembly entry points (`wasm-bindgen`).
