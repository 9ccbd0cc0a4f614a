//! Shortest paths for agents on a 2D lattice with eight unit movement
//! directions, computed by a generalized jump point search: instead of
//! expanding every cell, the search skips along straight runs and records a
//! node only where an obstacle forces a direction change.

pub mod geometry;
pub mod heap;
pub mod posmap;
pub mod domain;
pub mod search;
pub mod level;

pub use geometry::{Chirality, Direction, Pos, MAX_COORD};
pub use heap::MinHeap;
pub use domain::JPSearchable;
pub use level::Level;
pub use search::{jps, JumpPoint, OpenNode};
