# backend

The game logic of a tower defense game that runs in the browser, written in
Verus and proved against its contracts.

- `src/` is the verified library: the tile map (parsing its textual form,
  entrances, borders, drawing calls), the distances along the path toward the
  exits and the entrances, the waves of enemies and their spawning queue, the
  fright of enemies, the reloading of missile launchers, the marks that falcons
  put on their targets, build orders, entity ids and the game's run state. The
  entity maps are `indexmap::IndexMap`s with the `fnv` hasher; verified code
  reaches them through the trusted functions of `src/components.rs`.
- `app/` is the WebAssembly front around the library: the world and its entity
  maps, the floating-point simulation of movement, steering, collisions and
  animation, rendering through the host page, the configuration file and saved
  games.
- `tests/` runs the library on concrete maps and values.
