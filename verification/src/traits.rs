//! What the engine asks of its collaborators.

use crate::grid::Grid;
use crate::types::TileType;
use vstd::prelude::*;

verus! {

/// Something that shows a grid. The solver calls it after each step; it only
/// reads the grid.
pub trait Renderer<T: TileType> {
    /// Shows `grid`.
    fn render(&self, grid: &Grid<T>)
        requires
            grid.wf(),
    ;
}

/// A tile identity that has a character to stand for it.
pub trait AsciiRenderable {
    /// The character that stands for the tile.
    fn get_ascii_representation(&self) -> char;
}

} // verus!
