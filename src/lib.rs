//! A grid labyrinth: N-dimensional wall maps, randomized depth-first maze
//! carving, an entity registry with a separate draw order, and the integer
//! parts of per-step collision and level layout.

pub mod map;
pub mod dfs;
pub mod entities;
pub mod layout;
pub mod collision;
