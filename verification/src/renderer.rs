//! What a renderer needs to know of a grid before it prints it.

use crate::grid::Grid;
use crate::types::TileType;
use vstd::prelude::*;

verus! {

/// Whether no cell of `grid` holds more than `width` tiles.
pub open spec fn fits_every_cell<T: TileType>(grid: Grid<T>, width: int) -> bool {
    forall|x: int, y: int|
        grid.has(x, y) ==> (#[trigger] grid.cell_at(x, y)).possible_values.order().len() <= width
}

/// The width that a renderer gives each cell when it prints the tiles that
/// the cell may take side by side: the greatest number of tiles that a cell
/// holds, and 1 for a grid without cells.
pub fn widest_cell<T: TileType>(grid: &Grid<T>) -> (width: usize)
    requires
        grid.wf(),
    ensures
        fits_every_cell(*grid, width as int),
        if exists|x: int, y: int| grid.has(x, y) {
            exists|x: int, y: int|
                grid.has(x, y) && (#[trigger] grid.cell_at(x, y)).possible_values.order().len()
                    == width
        } else {
            width == 1
        },
{
    let cells = grid.get_cells();
    let mut widest: Option<usize> = None;
    let mut x: usize = 0;
    while x < cells.len()
        invariant
            x <= cells.len(),
            grid.wf(),
            cells@.len() == grid.spec_width(),
            forall|i: int|
                0 <= i < cells@.len() ==> (#[trigger] cells@[i])@.len() == grid.spec_height(),
            forall|i: int, j: int|
                grid.has(i, j) ==> #[trigger] cells@[i]@[j] == grid.cell_at(i, j),
            widest is None <==> (x == 0 || grid.spec_height() == 0),
            widest matches Some(most) ==> {
                &&& forall|i: int, j: int|
                    0 <= i < x && 0 <= j < grid.spec_height() ==> (#[trigger] grid.cell_at(
                        i,
                        j,
                    )).possible_values.order().len() <= most
                &&& exists|i: int, j: int|
                    grid.has(i, j) && (#[trigger] grid.cell_at(i, j)).possible_values.order().len()
                        == most
            },
        decreases cells.len() - x,
    {
        let mut y: usize = 0;
        while y < cells[x].len()
            invariant
                x < cells.len(),
                y <= cells@[x as int]@.len(),
                grid.wf(),
                cells@.len() == grid.spec_width(),
                cells@[x as int]@.len() == grid.spec_height(),
                forall|i: int, j: int|
                    grid.has(i, j) ==> #[trigger] cells@[i]@[j] == grid.cell_at(i, j),
                widest is None <==> ((x == 0 && y == 0) || grid.spec_height() == 0),
                widest matches Some(most) ==> {
                    &&& forall|i: int, j: int|
                        0 <= i < x && 0 <= j < grid.spec_height() ==> (#[trigger] grid.cell_at(
                            i,
                            j,
                        )).possible_values.order().len() <= most
                    &&& forall|j: int|
                        0 <= j < y ==> (#[trigger] grid.cell_at(
                            x as int,
                            j,
                        )).possible_values.order().len() <= most
                    &&& exists|i: int, j: int|
                        grid.has(i, j) && (#[trigger] grid.cell_at(
                            i,
                            j,
                        )).possible_values.order().len() == most
                },
            decreases cells@[x as int]@.len() - y,
        {
            let held = cells[x][y].possible_values.len();
            proof {
                assert(grid.has(x as int, y as int));
                assert(cells@[x as int]@[y as int] == grid.cell_at(x as int, y as int));
            }
            let wider = match widest {
                Some(most) => held > most,
                None => true,
            };
            if wider {
                widest = Some(held);
            }
            y += 1;
        }
        x += 1;
    }
    match widest {
        Some(most) => most,
        None => 1,
    }
}

} // verus!
