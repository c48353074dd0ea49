//! The coordinates and the value of one displayed tile.
use vstd::prelude::*;

use crate::grid::{cell, GameState};

verus! {

/// A tile's place on screen: column `x` and row `y`, each from 1 to 4.
pub struct Position {
    pub x: i16,
    pub y: i16,
}

/// The value shown on a tile; 0 for an empty cell.
pub struct TileValue {
    pub val: u32,
}

impl GameState {
    /// The value of the cell shown at `pos`, or `None` when `pos` lies
    /// outside the 4x4 board.
    pub fn tile_value(&self, pos: &Position) -> (r: Option<TileValue>)
        ensures
            r is Some <==> (1 <= pos.x <= 4 && 1 <= pos.y <= 4),
            r matches Some(t) ==> t.val == (cell(self.grid, pos.y - 1, pos.x - 1) as u32),
    {
        if pos.x < 1 || pos.x > 4 || pos.y < 1 || pos.y > 4 {
            return None;
        }
        let y = (pos.y - 1) as usize;
        let x = (pos.x - 1) as usize;
        Some(TileValue { val: self.grid[y][x] as u32 })
    }
}

} // verus!
