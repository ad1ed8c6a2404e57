# Rusted Cube

The verified core of a small voxel sandbox and of the LAN server that lets
several players share one world. Everything under `src/` is checked by Verus
against its `requires` / `ensures` contracts.

## Layout

- `src/world/`: the block world. Block kinds and their materials, chunk
  coordinates and the loaded window, terrain columns and tree placement,
  chunk generation from a height map, skylight, edits that survive
  unloading, and the two mesh builders (one quad per drawn face, and the
  greedy one that merges equal faces).
  - `sweep.rs` states the greedy sweep exactly: the first unclaimed
    mergeable face grows along its row while equal faces follow, then
    takes every following full row of equal faces; the greedy builder's
    quads are that sweep's rectangles, in its order.
  - `quads.rs` proves that the greedy mesh never has more quads than the
    plain one and covers the same area, counted both over its rectangles
    and over the corners of its vertex words; `seamless.rs` proves that
    every chunk is a window on one world, trees crossing chunk borders
    included.
- `src/perlin.rs`: the seeded permutation table behind the terrain noise.
- `src/protocol.rs`: the hand-written JSON wire format; `protocol/messages.rs`
  reads every message's structure, numbers kept as text;
  `protocol/numbers.rs` reads ids, coordinates and block numbers written as
  whole numbers;
  `protocol/round_trip.rs` proves that a written edit parses back to its
  numbers.
- `src/http.rs`, `src/websocket.rs`, `src/sha1.rs`, `src/stream.rs`: request
  heads, the WebSocket handshake and frame codec, and the digest it needs;
  `websocket/laws.rs` proves that base64 decodes back and that any masked
  client frame reads back as its payload.
- `src/server.rs`: the server's shared state (players, their last poses,
  ids, recorded edits) and its step from a player's event to the action the
  program takes.
- `src/session.rs`: the game's side of a LAN session: what each server
  message does to the player's id, the seed and the set of other players,
  the step the game takes on its world, and the socket address a page asks
  for.
- `src/seed.rs`: the world seed a page address asks for.
- `src/text.rs`: character and string helpers the parsers share.
- `tests/`: tests on concrete values.
- `app/`: the server program (sockets, threads, files) and the parts of the
  game that compute in floating point: noise sampling, terrain heights, the
  player's body, input state, block picking by ray, the other players'
  models, and numbers written with fractions or exponents.
