# rgine

The verified core of a small game engine runtime and its repository tooling.

- `entity`, `world`: generational entity handles. An index says where an
  entity lives, a generation which of its occupants it is; freed indices are
  reused last-in-first-out, and a slot whose generation cannot be raised again
  is retired. The model (`EntityTable`) and its laws state that a stale handle
  never names a live entity.
- `window`, `event`, `command`, `error`: the platform contract. Applications
  receive batches of events and record one-way commands; window handles are
  allocated by the command queue and are never reused.
- `app`: the `PlatformApp` trait and the engine's loop policy (`Runner`).
- `driver`: the decisions of the event loop, apart from the windowing backend
  that performs them: which events reach the application, which of its
  commands are applied (none after a failure), and which windows exist.
- `time`: a fixed-timestep clock; each tick counts the time since the
  reading the previous tick kept.
- `graph`, `metadata`, `rules`: the workspace dependency graph, its
  construction from package metadata, and the crate boundary rules checked
  over it (with a verified breadth-first shortest-path search).
- `text`: string helpers with contracts over characters.

`app/` holds what the verifier does not see: the winit backend, the
`cargo metadata` reader, logging, the `App`/`Plugin` builder and the
`check-deps` command line.
