//! Rules: what narrows the cells around a place of the grid.

use crate::grid::{as_places, candidates, in_bounds, narrows, Grid, GridView};
use crate::types::{TileType, WfcError};
use vstd::prelude::*;

pub mod adjacency_rule;
pub mod beach_cleanup;

verus! {

/// Whether `places` lists the place `(x, y)`.
pub open spec fn lists(places: Seq<(usize, usize)>, x: int, y: int) -> bool {
    exists|i: int| 0 <= i < places.len() && (#[trigger] places[i]).0 == x && places[i].1 == y
}

/// A place is listed in a list with one more place exactly when it is that
/// place or was listed before.
pub proof fn lemma_lists_push(places: Seq<(usize, usize)>, place: (usize, usize), x: int, y: int)
    ensures
        lists(places.push(place), x, y) <==> lists(places, x, y) || (place.0 == x && place.1 == y),
{
    let longer = places.push(place);
    if lists(places, x, y) {
        let i = choose|i: int|
            0 <= i < places.len() && (#[trigger] places[i]).0 == x && places[i].1 == y;
        assert(longer[i] == places[i]);
    }
    if place.0 == x && place.1 == y {
        assert(longer[places.len() as int] == place);
    }
    if lists(longer, x, y) {
        let i = choose|i: int|
            0 <= i < longer.len() && (#[trigger] longer[i]).0 == x && longer[i].1 == y;
        if i < places.len() {
            assert(places[i] == longer[i]);
        }
    }
}

/// A place is listed in two lists put together exactly when it is listed in
/// one of them.
pub proof fn lemma_lists_add(
    places: Seq<(usize, usize)>,
    more: Seq<(usize, usize)>,
    x: int,
    y: int,
)
    ensures
        lists(places + more, x, y) <==> lists(places, x, y) || lists(more, x, y),
{
    let both = places + more;
    if lists(places, x, y) {
        let i = choose|i: int|
            0 <= i < places.len() && (#[trigger] places[i]).0 == x && places[i].1 == y;
        assert(both[i] == places[i]);
    }
    if lists(more, x, y) {
        let i = choose|i: int| 0 <= i < more.len() && (#[trigger] more[i]).0 == x && more[i].1 == y;
        assert(both[places.len() + i] == more[i]);
    }
    if lists(both, x, y) {
        let i = choose|i: int| 0 <= i < both.len() && (#[trigger] both[i]).0 == x && both[i].1 == y;
        if i < places.len() {
            assert(places[i] == both[i]);
        } else {
            assert(more[i - places.len()] == both[i]);
        }
    }
}

/// What a rule reports, with its places as pairs of integers.
pub open spec fn as_report(affected: Result<Vec<(usize, usize)>, WfcError>) -> Result<
    Seq<(int, int)>,
    WfcError,
> {
    match affected {
        Ok(places) => Ok(as_places(places@)),
        Err(e) => Err(e),
    }
}

/// Whether `places` reports what changed between two grids: each is a place
/// of the grid, every place whose tiles changed is among them, and for each
/// of them at least one tile went.
pub open spec fn reports_changes<T>(
    before: GridView<T>,
    after: GridView<T>,
    places: Seq<(usize, usize)>,
) -> bool {
    &&& forall|i: int|
        0 <= i < places.len() ==> in_bounds(
            before,
            (#[trigger] places[i]).0 as int,
            places[i].1 as int,
        )
    &&& forall|x: int, y: int|
        in_bounds(before, x, y) && #[trigger] after[x][y] != before[x][y] ==> lists(places, x, y)
    &&& places.len() + candidates(after) <= candidates(before)
}

/// A rule looks at one place of the grid and takes tiles away from the
/// cells around it. It never adds a tile, it leaves the tiles of a cell in
/// their order, and it reports every place whose tiles it changed, so that
/// they can be looked at in turn.
pub trait Rule<T: TileType> {
    /// What the rule has made true around `(x, y)` once it has run there
    /// with success. A rule that makes no such promise keeps the default.
    open spec fn settled_at(&self, grid: GridView<T>, x: int, y: int) -> bool {
        true
    }

    /// Whether the rule says exactly what it does: what it leaves of a grid
    /// is then `narrowed`, and what it reports is `reported`. A rule that
    /// does not say so keeps the default.
    open spec fn exact(&self) -> bool {
        false
    }

    /// What an exact rule leaves of `grid` when it runs at `(x, y)`.
    open spec fn narrowed(&self, grid: GridView<T>, x: int, y: int) -> GridView<T> {
        grid
    }

    /// What an exact rule reports when it runs on `grid` at `(x, y)`.
    open spec fn reported(&self, grid: GridView<T>, x: int, y: int) -> Result<
        Seq<(int, int)>,
        WfcError,
    > {
        Ok(Seq::empty())
    }

    /// Narrows the cells around `(x, y)` and reports the places that
    /// changed, or fails.
    fn propagate_constraints(&self, grid: &mut Grid<T>, x: usize, y: usize) -> (affected: Result<
        Vec<(usize, usize)>,
        WfcError,
    >)
        requires
            old(grid).wf(),
        ensures
            final(grid).wf(),
            final(grid).spec_width() == old(grid).spec_width(),
            final(grid).spec_height() == old(grid).spec_height(),
            final(grid).narrowed_from(old(grid)),
            narrows(final(grid)@, old(grid)@),
            affected matches Ok(places) ==> {
                &&& reports_changes(old(grid)@, final(grid)@, places@)
                &&& self.settled_at(final(grid)@, x as int, y as int)
            },
            self.exact() ==> {
                &&& final(grid)@ == self.narrowed(old(grid)@, x as int, y as int)
                &&& as_report(affected) == self.reported(old(grid)@, x as int, y as int)
            },
    ;
}

/// A boxed rule is the rule in the box: rules of different kinds can stand
/// in one list as `Box<dyn Rule<T>>`.
impl<T: TileType, X: Rule<T> + ?Sized> Rule<T> for Box<X> {
    open spec fn settled_at(&self, grid: GridView<T>, x: int, y: int) -> bool {
        (**self).settled_at(grid, x, y)
    }

    open spec fn exact(&self) -> bool {
        (**self).exact()
    }

    open spec fn narrowed(&self, grid: GridView<T>, x: int, y: int) -> GridView<T> {
        (**self).narrowed(grid, x, y)
    }

    open spec fn reported(&self, grid: GridView<T>, x: int, y: int) -> Result<
        Seq<(int, int)>,
        WfcError,
    > {
        (**self).reported(grid, x, y)
    }

    fn propagate_constraints(&self, grid: &mut Grid<T>, x: usize, y: usize) -> (affected: Result<
        Vec<(usize, usize)>,
        WfcError,
    >) {
        (**self).propagate_constraints(grid, x, y)
    }
}

} // verus!
