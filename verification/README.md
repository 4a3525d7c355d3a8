# screeps-combat-agent

Squads and sieges for a headless Screeps combat sim, decided over plain snapshots of a combat world
and verified with Verus.

- `geometry` – rooms, tiles, ranges and directions
- `pathing` – movement intents to search requests and steps; the obstacle layers of a room
- `movement` – requests to the mover, holds, and the damper on doomed goals
- `squad` – a formation round an anchor
- `managed` – a squad under the decision kernel
- `objective_bed` – a defended core, its towers and defenders, and the siege against it
- `world`, `view`, `select` – the plain data, and choices over it

What the library does not decide itself (the engine's resolution of a tick, the kernel's decision,
the pathfinder and the mover's traffic pass) is handed in as functions; contracts speak of whatever
they answer. What such a function keeps between its calls (the anchor's path, the mover's cache) is a
value that the library hands to the call and takes back. Theorems that span functions are the public proof functions named `law_..`.

`app/` binds the library to the engine, kernel and mover crates.
