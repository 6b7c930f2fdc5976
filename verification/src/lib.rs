//! Simulation core of a turn-based sliding and matching tile puzzle.
//!
//! A rectangular grid of tiles shifts one cell per input, then connected
//! same-color groups of four or more pop, gated by a timed animation layer.
//! The grid logic, the union-find connectivity pass, the animation state
//! machine and the snapshot text format are verified; rendering and input
//! plumbing live outside this crate.

pub mod tile;
pub mod matrix;
pub mod uf;
pub mod connect;
pub mod anim;
pub mod grid;
pub mod timer;
pub mod vec_grid;
pub mod snapshot;
pub mod laws;

pub use tile::Tile;
pub use anim::Animation;
pub use grid::Grid;
pub use grid::MoveDir;
pub use timer::Timer;
pub use vec_grid::SnapshotError;
pub use vec_grid::VecGrid;
