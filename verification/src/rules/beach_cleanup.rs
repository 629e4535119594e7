//! A rule for maps with beaches: a beach lies between water and grass.

use crate::grid::{
    as_places, collapsed_at, in_bounds, lemma_filtered_keeps_order, lemma_keeps_order_same,
    lemma_with_cell, narrows,
    neighbors, with_cell, Grid, GridView,
};
use crate::possible_values::has_label;
use crate::rules::adjacency_rule::places_beside;
use crate::rules::{as_report, lists, reports_changes, Rule};
use crate::types::{TileType, TileView, WfcError};
use vstd::prelude::*;

verus! {

/// Whether the cell at `place` may take a tile labelled `name`.
pub open spec fn label_at<T>(grid: GridView<T>, place: (int, int), name: Seq<char>) -> bool {
    has_label(grid[place.0][place.1], name)
}

/// Whether a cell beside `(x, y)` may take a tile labelled `name`.
pub open spec fn label_beside<T>(grid: GridView<T>, x: int, y: int, name: Seq<char>) -> bool {
    exists|i: int|
        0 <= i < places_beside(grid, x, y).len() && label_at(
            grid,
            #[trigger] places_beside(grid, x, y)[i],
            name,
        )
}

/// Whether the cell at `(x, y)` may keep its beach: it has none, or water
/// and grass are both possible beside it.
pub open spec fn beach_may_stay<T>(grid: GridView<T>, x: int, y: int) -> bool {
    ||| !has_label(grid[x][y], "Beach"@)
    ||| (label_beside(grid, x, y, "Water"@) && label_beside(grid, x, y, "Grass"@))
}

/// The tiles of `tiles` that are not labelled as a beach.
pub open spec fn without_beach<T>(tiles: Set<TileView<T>>) -> Set<TileView<T>> {
    tiles.filter(|tile: TileView<T>| tile.name != "Beach"@)
}

/// Whether the beach goes from the cell at `(x, y)`: the cell is not
/// collapsed and its beach may not stay.
pub open spec fn beach_goes<T>(grid: GridView<T>, x: int, y: int) -> bool {
    in_bounds(grid, x, y) && !beach_may_stay(grid, x, y) && !collapsed_at(grid, x, y)
}

/// What the rule leaves of `grid` at `(x, y)`: the cell without its beach
/// where the beach goes and other tiles are left, and the grid as it is in
/// every other case.
pub open spec fn cleaned<T>(grid: GridView<T>, x: int, y: int) -> GridView<T> {
    if beach_goes(grid, x, y) && without_beach(grid[x][y]) != Set::<TileView<T>>::empty() {
        with_cell(grid, x, y, without_beach(grid[x][y]))
    } else {
        grid
    }
}

/// What the rule reports for `grid` at `(x, y)`: the place itself where
/// the beach went; a contradiction where the cell would be left without a
/// tile; an invalid coordinate for a place outside the grid; and nothing in
/// every other case.
pub open spec fn cleaning_report<T>(grid: GridView<T>, x: int, y: int) -> Result<
    Seq<(int, int)>,
    WfcError,
> {
    if !in_bounds(grid, x, y) {
        Err(WfcError::InvalidCoordinate)
    } else if !beach_goes(grid, x, y) {
        Ok(Seq::empty())
    } else if without_beach(grid[x][y]) == Set::<TileView<T>>::empty() {
        Err(WfcError::ContradictionError)
    } else {
        Ok(seq![(x, y)])
    }
}

/// Takes the beach away from a cell that is not collapsed when water and
/// grass are not both possible beside it.
#[derive(Debug, Clone, Copy)]
pub struct BeachCleanupRule;

impl<T: TileType> Rule<T> for BeachCleanupRule {
    /// The rule says exactly what it does.
    open spec fn exact(&self) -> bool {
        true
    }

    open spec fn narrowed(&self, grid: GridView<T>, x: int, y: int) -> GridView<T> {
        cleaned(grid, x, y)
    }

    open spec fn reported(&self, grid: GridView<T>, x: int, y: int) -> Result<
        Seq<(int, int)>,
        WfcError,
    > {
        cleaning_report(grid, x, y)
    }

    /// Looks at the cell at `(x, y)` only. Where the cell is not collapsed,
    /// may take a beach, and water and grass are not both possible beside
    /// it, the tiles labelled `Beach` go and the place is reported; a cell
    /// that would be left without a tile is a contradiction and stays as it
    /// is. In every other case nothing changes and nothing is reported.
    fn propagate_constraints(&self, grid: &mut Grid<T>, x: usize, y: usize) -> (affected: Result<
        Vec<(usize, usize)>,
        WfcError,
    >)
        ensures
            affected is Err || !beach_goes(old(grid)@, x as int, y as int)
                ==> final(grid).same_cells(old(grid)),
    {
        let mut affected: Vec<(usize, usize)> = Vec::new();
        proof {
            grid.lemma_view();
            grid.lemma_narrowed_from_self();
            assert(narrows(grid@, grid@));
        }
        let has_beach = match grid.get_cell(x, y) {
            Some(cell) => cell.possible_values.contains_name("Beach"),
            None => {
                return Err(WfcError::InvalidCoordinate);
            },
        };
        proof {
            assert(as_places(affected@) =~= Seq::<(int, int)>::empty());
        }
        if !has_beach {
            return Ok(affected);
        }
        let mut has_water = false;
        let mut has_grass = false;
        let places = grid.get_valid_coordinates(x, y);
        let ghost beside = places_beside(grid@, x as int, y as int);
        proof {
            crate::grid::lemma_neighbors(
                grid@.len() as int,
                crate::grid::view_height(grid@),
                x as int,
                y as int,
            );
        }
        let mut i: usize = 0;
        while i < places.len()
            invariant
                i <= places.len(),
                grid.wf(),
                *grid == *old(grid),
                as_places(places@) == beside,
                beside == places_beside(grid@, x as int, y as int),
                forall|k: int|
                    0 <= k < beside.len() ==> grid.has((#[trigger] beside[k]).0, beside[k].1),
                has_water == exists|k: int|
                    0 <= k < i && label_at(grid@, #[trigger] beside[k], "Water"@),
                has_grass == exists|k: int|
                    0 <= k < i && label_at(grid@, #[trigger] beside[k], "Grass"@),
            decreases places.len() - i,
        {
            let (nx, ny) = places[i];
            proof {
                grid.lemma_view();
                assert(beside[i as int] == (nx as int, ny as int));
            }
            match grid.get_cell(nx, ny) {
                Some(neighbor) => {
                    if neighbor.possible_values.contains_name("Water") {
                        has_water = true;
                    }
                    if neighbor.possible_values.contains_name("Grass") {
                        has_grass = true;
                    }
                },
                None => {},
            }
            i += 1;
        }
        proof {
            grid.lemma_view();
            assert(label_beside(grid@, x as int, y as int, "Water"@) == has_water);
            assert(label_beside(grid@, x as int, y as int, "Grass"@) == has_grass);
            assert(collapsed_at(grid@, x as int, y as int) == grid.cell_at(
                x as int,
                y as int,
            ).collapsed());
        }
        if !(has_water && has_grass) {
            let ghost before = *grid;
            match grid.get_cell_mut(x, y) {
                Some(cell) => {
                    if !cell.is_collapsed() {
                        match cell.constrain_by_name("Beach") {
                            Ok(went) => {
                                if went {
                                    affected.push((x, y));
                                }
                            },
                            Err(e) => {
                                proof {
                                    assert(grid.same_cells(&before));
                                    assert(grid@ =~~= before@);
                                    lemma_keeps_order_same(grid.cell_at(x as int, y as int));
                                    grid.lemma_narrowed_from_but_at(&before, x as int, y as int);
                                }
                                return Err(e);
                            },
                        }
                    }
                },
                None => {},
            }
            proof {
                before.lemma_view();
                grid.lemma_view();
                if !before.cell_at(x as int, y as int).collapsed() {
                    lemma_filtered_keeps_order(
                        grid.cell_at(x as int, y as int),
                        before.cell_at(x as int, y as int),
                        |tile: TileView<T>| tile.name != "Beach"@,
                    );
                } else {
                    lemma_keeps_order_same(grid.cell_at(x as int, y as int));
                }
                grid.lemma_narrowed_from_but_at(&before, x as int, y as int);
                if !before.cell_at(x as int, y as int).collapsed() {
                    let kept = without_beach(before@[x as int][y as int]);
                    grid.lemma_view_with_cell(&before, x as int, y as int);
                    lemma_with_cell(before@, x as int, y as int, kept);
                    vstd::set_lib::lemma_len_subset(kept, before@[x as int][y as int]);
                    let beach = choose|tile: TileView<T>|
                        before@[x as int][y as int].contains(tile) && tile.name == "Beach"@;
                    assert(!kept.contains(beach));
                    if kept.len() == before@[x as int][y as int].len() {
                        vstd::set_lib::lemma_subset_equality(kept, before@[x as int][y as int]);
                    }
                    assert(affected@ =~= seq![(x, y)]);
                    assert(affected@[0] == (x, y));
                    assert(as_places(affected@) =~= seq![(x as int, y as int)]);
                    assert(lists(affected@, x as int, y as int));
                    assert(narrows(grid@, before@));
                    assert(reports_changes(before@, grid@, affected@));
                } else {
                    assert(grid.same_cells(&before));
                    assert(grid@ =~~= before@);
                }
            }
        }
        Ok(affected)
    }
}

} // verus!
