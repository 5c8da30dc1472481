//! Conway's Game of Life on a shared, sparse, effectively infinite world.

use vstd::prelude::*;

pub mod admission;
pub mod auth;
pub mod bindings;
pub mod bits;
pub mod cells;
pub mod chunk;
pub mod claims;
pub mod codec;
pub mod company;
pub mod config;
pub mod coord;
pub mod delivery;
pub mod edits;
pub mod ensemble;
pub mod frames;
pub mod generation;
pub mod group;
pub mod hub;
pub mod life;
pub mod mirror;
pub mod oscillator;
pub mod play;
pub mod protocol;
pub mod reaper;
pub mod region;
pub mod resting;
pub mod seeding;
pub mod shared;
pub mod sim;
pub mod snapshot;
pub mod sort;
pub mod storage;
pub mod user_store;
pub mod wal;
pub mod wire;
pub mod world;

verus! {

/// Cells along one side of a chunk.
pub const CHUNK_SIZE: usize = 64;

/// [`CHUNK_SIZE`] as a signed cell coordinate.
pub const CHUNK_SIZE_I64: i64 = 64;

} // verus!
