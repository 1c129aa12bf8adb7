//! Core logic of a 2048-style sliding-tile game on a fixed N x N grid:
//! board geometry, the directional slide-and-merge algorithm, new-tile
//! placement, endgame detection, and score bookkeeping.
//!
//! The shift algorithm is pure and deterministic over an in-memory snapshot
//! of the tiles; randomness enters only where a new tile's cell is drawn.
//! Rendering, input polling and animation are left to an embedding harness.

pub mod board;
pub mod components;
pub mod endgame;
pub mod laws;
pub mod session;
pub mod shift;
