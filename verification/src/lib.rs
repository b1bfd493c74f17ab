//! Verified game logic of a multiplayer cell-exploration game: scoring,
//! flood reveals, host-authoritative state synchronization and the
//! decisions around it, the compact bitmap used on the wire, void
//! placement, network presence, and the topology of the map meshes
//! (polyhedron faces, subdivision, spherical cells, cell adjacency).
pub mod bitmap;
pub mod bridge;
pub mod board;
pub mod faces;
pub mod mesh;
pub mod peers;
pub mod pulses;
pub mod score;
pub mod setup;
pub mod sphere;
pub mod stitch;
pub mod sync;
pub mod voids;
