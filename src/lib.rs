//! A turn-based maze chase: procedural maze generation, a breadth-first
//! distance field for pursuit, ghost decisions, a timed bonus item and the
//! per-tick game protocol.
pub mod components;
pub mod connect;
pub mod field;
pub mod game;
pub mod grid;
pub mod input;
pub mod level;
pub mod maze;
pub mod pen;
pub mod pursuit;
pub mod random;
pub mod view;
