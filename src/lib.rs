//! Tile-movement engine of a 2048-style sliding puzzle on a 4x4 grid: the
//! line reducer (`line`), the grid transform (`grid`), the spawner and whole
//! moves (`spawn`), and the values shown on screen (`tile`).
pub mod grid;
pub mod line;
pub mod spawn;
pub mod tile;
