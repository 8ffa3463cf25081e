//! A sparse, chunked 2D voxel world in which granular trash blocks fall under
//! a simple cellular-automaton rule, together with an autonomous player that
//! collects trash and compacts it into towers.
//!
//! The world is an unbounded grid of cells, stored as 16x16 chunks that are
//! materialized lazily and generated deterministically from their position.
//! Rendering, input and timing live outside this crate; the library exposes
//! only the world storage, the physics tick and the player state machine.

pub mod coords;
pub mod drawer;
pub mod player;
pub mod world;
