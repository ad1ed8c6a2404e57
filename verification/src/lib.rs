//! Rusted Cube: the verified core of a small voxel sandbox and its LAN server.
//!
//! The library holds the logic of the game and its server as plain-value
//! functions with contracts: the WebSocket handshake and frame codec, the HTTP
//! request handling of the server, the hand-written JSON wire format, the
//! seeded permutation behind the terrain noise, and the chunked block world
//! with its lighting and meshing.

pub mod http;
pub mod perlin;
pub mod protocol;
pub mod seed;
pub mod server;
pub mod session;
pub mod sha1;
pub mod stream;
pub mod text;
pub mod websocket;
pub mod world;
