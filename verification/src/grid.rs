//! Cells and the rectangular grid that holds them.

use crate::possible_values::PossibleValues;
use crate::random::RandomSource;
use crate::types::{
    lemma_all_pass, lemma_filter, samplable, PossibleValue, TileType, TileView, WfcError,
};
use vstd::prelude::*;

verus! {

/// One place of the grid, with the tiles it may still take.
#[derive(Debug)]
pub struct Cell<T: TileType> {
    pub possible_values: PossibleValues<T>,
}

impl<T: TileType> View for Cell<T> {
    type V = Set<TileView<T>>;

    open spec fn view(&self) -> Set<TileView<T>> {
        self.possible_values@
    }
}

impl<T: TileType> Clone for Cell<T> {
    /// A cell of its own with the same tiles.
    fn clone(&self) -> (copy: Self)
        ensures
            copy.possible_values.order() == self.possible_values.order(),
            copy@ == self@,
            copy.wf() == self.wf(),
    {
        Cell { possible_values: self.possible_values.clone() }
    }
}

impl<T: TileType> Cell<T> {
    /// The cell is well formed: its set of tiles is.
    pub open spec fn wf(&self) -> bool {
        self.possible_values.wf()
    }

    /// The cell holds exactly one tile.
    pub open spec fn collapsed(&self) -> bool {
        self.possible_values.order().len() == 1
    }

    /// A cell that may take the tiles of `possible_values`.
    pub fn new(possible_values: PossibleValues<T>) -> (cell: Self)
        ensures
            cell.possible_values == possible_values,
    {
        Cell { possible_values }
    }

    /// Whether the cell holds exactly one tile.
    pub fn is_collapsed(&self) -> (collapsed: bool)
        ensures
            collapsed == self.collapsed(),
            self.wf() ==> collapsed == (self@.len() == 1),
    {
        self.possible_values.len() == 1
    }

    /// The tile of a collapsed cell; nothing for any other cell.
    pub fn get_collapsed_value(&self) -> (value: Option<PossibleValue<T>>)
        ensures
            value is Some <==> self.collapsed(),
            value matches Some(tile) ==> self@ == set![tile@] && self.possible_values.order()
                == seq![tile@],
    {
        if self.is_collapsed() {
            let tile = self.possible_values.get(0).clone();
            proof {
                assert(self.possible_values.order() =~= seq![tile@]);
                assert(seq![tile@][0] == tile@);
                assert(self@ =~= set![tile@]);
            }
            return Some(tile);
        }
        None
    }

    /// Takes away every tile labelled `name`. Says whether a tile went.
    /// Where no tile would be left, it is a contradiction and the cell stays
    /// as it was.
    pub fn constrain_by_name(&mut self, name: &str) -> (changed: Result<bool, WfcError>)
        requires
            old(self).wf(),
        ensures
            final(self).wf(),
            changed is Err <==> old(self)@.filter(|tile: TileView<T>| tile.name != name@)
                == Set::<TileView<T>>::empty(),
            match changed {
                Ok(went) => {
                    &&& final(self)@ == old(self)@.filter(|tile: TileView<T>| tile.name != name@)
                    &&& final(self).possible_values.order() == old(
                        self,
                    ).possible_values.order().filter(|tile: TileView<T>| tile.name != name@)
                    &&& went == (final(self)@ != old(self)@)
                },
                Err(e) => e == WfcError::ContradictionError && *final(self) == *old(self),
            },
    {
        let mut names: Vec<&str> = Vec::new();
        names.push(name);
        proof {
            let labels = names@.map_values(|n: &str| n@);
            assert(labels =~= seq![name@]);
            assert(seq![name@][0] == name@);
            let by_list = |tile: TileView<T>| !labels.contains(tile.name);
            let by_name = |tile: TileView<T>| tile.name != name@;
            assert forall|tile: TileView<T>| #[trigger] by_list(tile) == by_name(tile) by {
                if labels.contains(tile.name) {
                    let j = choose|j: int| 0 <= j < labels.len() && labels[j] == tile.name;
                }
                if tile.name == name@ {
                    assert(labels[0] == tile.name);
                }
            }
            assert(by_list =~= by_name);
        }
        self.constrain_by_names(names)
    }

    /// Takes away every tile whose label is one of `names`. Says whether a
    /// tile went. Where no tile would be left, it is a contradiction and the
    /// cell stays as it was.
    pub fn constrain_by_names(&mut self, names: Vec<&str>) -> (changed: Result<bool, WfcError>)
        requires
            old(self).wf(),
        ensures
            final(self).wf(),
            changed is Err <==> old(self)@.filter(
                |tile: TileView<T>| !names@.map_values(|n: &str| n@).contains(tile.name),
            ) == Set::<TileView<T>>::empty(),
            match changed {
                Ok(went) => {
                    &&& final(self)@ == old(self)@.filter(
                        |tile: TileView<T>| !names@.map_values(|n: &str| n@).contains(tile.name),
                    )
                    &&& final(self).possible_values.order() == old(
                        self,
                    ).possible_values.order().filter(
                        |tile: TileView<T>| !names@.map_values(|n: &str| n@).contains(tile.name),
                    )
                    &&& went == (final(self)@ != old(self)@)
                },
                Err(e) => e == WfcError::ContradictionError && *final(self) == *old(self),
            },
    {
        let kept = self.possible_values.without_names(&names);
        self.replace_by_part(kept)
    }

    /// Takes away every tile that `allowed` does not hold. Says whether a
    /// tile went. Where no tile would be left, it is a contradiction and the
    /// cell stays as it was.
    pub fn constrain(&mut self, allowed: &PossibleValues<T>) -> (changed: Result<bool, WfcError>)
        requires
            old(self).wf(),
        ensures
            final(self).wf(),
            constrained(*old(self), allowed@, *final(self), changed),
    {
        let kept = self.possible_values.intersection(allowed);
        self.replace_by_part(kept)
    }

    /// Puts `kept`, a part of the cell's tiles in their order, in the place
    /// of the cell's tiles, unless `kept` is empty.
    fn replace_by_part(&mut self, kept: PossibleValues<T>) -> (changed: Result<bool, WfcError>)
        requires
            old(self).wf(),
            kept.wf(),
            exists|keep: spec_fn(TileView<T>) -> bool|
                kept.order() == old(self).possible_values.order().filter(keep),
        ensures
            final(self).wf(),
            changed is Err <==> kept@ == Set::<TileView<T>>::empty(),
            match changed {
                Ok(went) => final(self).possible_values == kept && went == (kept@ != old(self)@),
                Err(e) => e == WfcError::ContradictionError && *final(self) == *old(self),
            },
    {
        if kept.is_empty() {
            return Err(WfcError::ContradictionError);
        }
        let went = kept.len() != self.possible_values.len();
        proof {
            let keep = choose|keep: spec_fn(TileView<T>) -> bool|
                kept.order() == old(self).possible_values.order().filter(keep);
            lemma_filter(old(self).possible_values.order(), keep);
            kept.lemma_len();
            old(self).possible_values.lemma_len();
        }
        self.possible_values = kept;
        Ok(went)
    }

    /// Commits the cell to `value`, one of its tiles.
    pub fn collapse_to(&mut self, value: &PossibleValue<T>) -> (done: Result<(), WfcError>)
        requires
            old(self).wf(),
        ensures
            final(self).wf(),
            match done {
                Ok(()) => {
                    &&& !old(self).collapsed()
                    &&& old(self)@.contains(value@)
                    &&& final(self)@ == set![value@]
                    &&& final(self).possible_values.order() == seq![value@]
                },
                Err(e) => {
                    &&& *final(self) == *old(self)
                    &&& e == if old(self).collapsed() {
                        WfcError::AlreadyCollapsed
                    } else {
                        WfcError::ContradictionError
                    }
                    &&& old(self).collapsed() || !old(self)@.contains(value@)
                },
            },
    {
        if self.is_collapsed() {
            return Err(WfcError::AlreadyCollapsed);
        }
        if !self.possible_values.contains(value) {
            return Err(WfcError::ContradictionError);
        }
        self.possible_values = PossibleValues::singleton(value.clone());
        Ok(())
    }

    /// Commits the cell to one of its tiles, drawn from `source` with a
    /// chance in proportion to its weight, and hands that tile out.
    pub fn collapse(&mut self, source: &mut RandomSource) -> (chosen: Result<
        PossibleValue<T>,
        WfcError,
    >)
        requires
            old(self).wf(),
        ensures
            final(self).wf(),
            final(source).seeded_by() == old(source).seeded_by(),
            chosen is Ok <==> !old(self).collapsed() && samplable(
                old(self).possible_values.spec_weights(),
            ),
            match chosen {
                Ok(tile) => {
                    &&& old(self)@.contains(tile@)
                    &&& tile@.weight > 0
                    &&& final(self)@ == set![tile@]
                    &&& final(self).possible_values.order() == seq![tile@]
                },
                Err(e) => {
                    &&& *final(self) == *old(self)
                    &&& e == if old(self).collapsed() {
                        WfcError::AlreadyCollapsed
                    } else if old(self).possible_values.order().len() == 0 {
                        WfcError::EmptyCandidateSet
                    } else {
                        WfcError::InvalidWeight
                    }
                },
            },
    {
        if self.is_collapsed() {
            return Err(WfcError::AlreadyCollapsed);
        }
        match source.draw(&self.possible_values) {
            Ok(tile) => {
                match self.collapse_to(&tile) {
                    Ok(()) => Ok(tile),
                    Err(e) => Err(e),
                }
            },
            Err(e) => Err(e),
        }
    }
}

/// What `constrain` makes of a cell: `after` and `changed` are what it
/// leaves and says when the cell was `before` and `allowed` is allowed.
pub open spec fn constrained<T: TileType>(
    before: Cell<T>,
    allowed: Set<TileView<T>>,
    after: Cell<T>,
    changed: Result<bool, WfcError>,
) -> bool {
    if before@.intersect(allowed) == Set::<TileView<T>>::empty() {
        changed == Err::<bool, WfcError>(WfcError::ContradictionError) && after == before
    } else {
        &&& changed == Ok::<bool, WfcError>(after@ != before@)
        &&& after@ == before@.intersect(allowed)
        &&& after.possible_values.order() == before.possible_values.order().filter(
            |tile: TileView<T>| allowed.contains(tile),
        )
    }
}

/// Constraining never adds a tile: the cell holds no more tiles after it
/// than before.
pub proof fn lemma_constrain_never_grows<T: TileType>(
    before: Cell<T>,
    allowed: Set<TileView<T>>,
    after: Cell<T>,
    changed: Result<bool, WfcError>,
)
    requires
        before.wf(),
        constrained(before, allowed, after, changed),
    ensures
        after@.subset_of(before@),
        after@.len() <= before@.len(),
{
    before.possible_values.lemma_len();
    vstd::set_lib::lemma_len_intersect(before@, allowed);
}

/// Constraining twice to the same tiles is constraining once: after a call
/// that succeeded, a second call with the same allowed tiles succeeds,
/// reports no change and leaves the cell as the first call left it.
pub proof fn lemma_constrain_is_idempotent<T: TileType>(
    before: Cell<T>,
    allowed: Set<TileView<T>>,
    once: Cell<T>,
    first: Result<bool, WfcError>,
    twice: Cell<T>,
    second: Result<bool, WfcError>,
)
    requires
        constrained(before, allowed, once, first),
        first is Ok,
        constrained(once, allowed, twice, second),
    ensures
        second == Ok::<bool, WfcError>(false),
        twice@ == once@,
        twice.possible_values.order() == once.possible_values.order(),
{
    let keep = |tile: TileView<T>| allowed.contains(tile);
    assert(once@.intersect(allowed) =~= once@);
    lemma_filter(before.possible_values.order(), keep);
    let kept = once.possible_values.order();
    lemma_filter(kept, keep);
    assert(kept.filter(keep).len() == kept.len()) by {
        lemma_all_pass(kept, keep);
    }
}

/// Constraining to tiles of which the cell holds none is a contradiction,
/// and the cell stays as it was.
pub proof fn lemma_disjoint_is_contradiction<T: TileType>(
    before: Cell<T>,
    allowed: Set<TileView<T>>,
    after: Cell<T>,
    changed: Result<bool, WfcError>,
)
    requires
        constrained(before, allowed, after, changed),
        before@.disjoint(allowed),
    ensures
        changed == Err::<bool, WfcError>(WfcError::ContradictionError),
        after == before,
{
    assert(before@.intersect(allowed) =~= Set::<TileView<T>>::empty());
}

/// Whether `after` holds tiles of `before` only, in the order that they have
/// in `before`.
pub open spec fn keeps_order<T: TileType>(after: Cell<T>, before: Cell<T>) -> bool {
    after.possible_values.order() == before.possible_values.order().filter(
        |tile: TileView<T>| after@.contains(tile),
    )
}

/// A cell keeps its own order.
pub proof fn lemma_keeps_order_same<T: TileType>(cell: Cell<T>)
    ensures
        keeps_order(cell, cell),
{
    let order = cell.possible_values.order();
    let keep = |tile: TileView<T>| cell@.contains(tile);
    assert forall|i: int| 0 <= i < order.len() implies keep(#[trigger] order[i]) by {
        assert(order.contains(order[i]));
    }
    lemma_all_pass(order, keep);
}

/// A cell whose tiles are what a filter kept of the tiles of another cell
/// keeps their order.
pub proof fn lemma_filtered_keeps_order<T: TileType>(
    after: Cell<T>,
    before: Cell<T>,
    keep: spec_fn(TileView<T>) -> bool,
)
    requires
        after.possible_values.order() == before.possible_values.order().filter(keep),
    ensures
        keeps_order(after, before),
        after@.subset_of(before@),
{
    let order = before.possible_values.order();
    let held = |tile: TileView<T>| after@.contains(tile);
    lemma_filter(order, keep);
    assert forall|i: int| 0 <= i < order.len() implies keep(#[trigger] order[i]) == held(
        order[i],
    ) by {
        assert(order.contains(order[i]));
    }
    crate::types::lemma_filter_agree(order, keep, held);
}

/// A cell that was committed to one of the tiles of another cell keeps
/// their order.
pub proof fn lemma_single_keeps_order<T: TileType>(
    after: Cell<T>,
    before: Cell<T>,
    tile: TileView<T>,
)
    requires
        before.possible_values.order().no_duplicates(),
        before@.contains(tile),
        after.possible_values.order() == seq![tile],
    ensures
        keeps_order(after, before),
{
    let held = |other: TileView<T>| after@.contains(other);
    assert(seq![tile][0] == tile);
    assert forall|other: TileView<T>| #[trigger] held(other) <==> other == tile by {
        if held(other) {
            let i = choose|i: int| 0 <= i < seq![tile].len() && seq![tile][i] == other;
        }
    }
    crate::types::lemma_filter_one(before.possible_values.order(), held, tile);
}

/// A cell that keeps the order of another holds no more tiles than it.
pub proof fn lemma_keeps_order_len<T: TileType>(after: Cell<T>, before: Cell<T>)
    requires
        keeps_order(after, before),
    ensures
        after.possible_values.order().len() <= before.possible_values.order().len(),
{
    lemma_filter(before.possible_values.order(), |tile: TileView<T>| after@.contains(tile));
}

/// Keeping the order twice is keeping the order.
pub proof fn lemma_keeps_order_twice<T: TileType>(last: Cell<T>, middle: Cell<T>, first: Cell<T>)
    requires
        keeps_order(last, middle),
        keeps_order(middle, first),
    ensures
        keeps_order(last, first),
{
    let order = first.possible_values.order();
    let in_middle = |tile: TileView<T>| middle@.contains(tile);
    let in_last = |tile: TileView<T>| last@.contains(tile);
    let in_both = |tile: TileView<T>| in_middle(tile) && in_last(tile);
    crate::types::lemma_filter_twice(order, in_middle, in_last);
    lemma_filter(middle.possible_values.order(), in_last);
    assert forall|i: int| 0 <= i < order.len() implies in_both(#[trigger] order[i]) == in_last(
        order[i],
    ) by {
        if in_last(order[i]) {
            assert(last.possible_values.order().contains(order[i]));
            assert(middle.possible_values.order().contains(order[i]));
        }
    }
    crate::types::lemma_filter_agree(order, in_both, in_last);
}

/// What the cells of a grid may take: a column for each `x`, and in it a
/// set of tiles for each `y`.
pub type GridView<T> = Seq<Seq<Set<TileView<T>>>>;

/// Whether `(x, y)` is a place of `grid`.
pub open spec fn in_bounds<A>(grid: Seq<Seq<A>>, x: int, y: int) -> bool {
    0 <= x < grid.len() && 0 <= y < grid[x].len()
}

/// Whether two grids have the same columns of the same heights.
pub open spec fn same_shape<A>(one: Seq<Seq<A>>, other: Seq<Seq<A>>) -> bool {
    &&& one.len() == other.len()
    &&& forall|x: int| 0 <= x < one.len() ==> (#[trigger] one[x]).len() == other[x].len()
}

/// Whether `after` is `before` with tiles taken away: the same places, and
/// at each place a part of what was there.
pub open spec fn narrows<T>(after: GridView<T>, before: GridView<T>) -> bool {
    &&& same_shape(after, before)
    &&& forall|x: int, y: int|
        in_bounds(before, x, y) ==> (#[trigger] after[x][y]).subset_of(before[x][y])
}

/// Taking tiles away twice is taking tiles away.
pub proof fn lemma_narrows_twice<T>(last: GridView<T>, middle: GridView<T>, first: GridView<T>)
    requires
        narrows(last, middle),
        narrows(middle, first),
    ensures
        narrows(last, first),
{
    assert forall|x: int, y: int| in_bounds(first, x, y) implies (#[trigger] last[x][y]).subset_of(
        first[x][y],
    ) by {
        assert(middle[x].len() == first[x].len());
        assert(in_bounds(middle, x, y));
        assert(last[x][y].subset_of(middle[x][y]));
        assert(middle[x][y].subset_of(first[x][y]));
    }
}

/// `grid` with `tiles` at the place `(x, y)`.
pub open spec fn with_cell<T>(grid: GridView<T>, x: int, y: int, tiles: Set<TileView<T>>)
    -> GridView<T> {
    grid.update(x, grid[x].update(y, tiles))
}

/// The places of a list as pairs of integers.
pub open spec fn as_places(places: Seq<(usize, usize)>) -> Seq<(int, int)> {
    places.map_values(|p: (usize, usize)| (p.0 as int, p.1 as int))
}

/// The place `(x, y)` alone if it lies in a grid of `width` columns of
/// `height` places, and nothing if it does not.
pub open spec fn place_if_inside(width: int, height: int, x: int, y: int) -> Seq<(int, int)> {
    if 0 <= x < width && 0 <= y < height {
        seq![(x, y)]
    } else {
        Seq::empty()
    }
}

/// The places beside `(x, y)` in a grid of `width` columns of `height`
/// places: left, right, up, down, as far as they lie in the grid.
pub open spec fn neighbors(width: int, height: int, x: int, y: int) -> Seq<(int, int)> {
    place_if_inside(width, height, x - 1, y) + place_if_inside(width, height, x + 1, y)
        + place_if_inside(width, height, x, y - 1) + place_if_inside(width, height, x, y + 1)
}

/// The places beside a place are at most four, all different, all in the
/// grid, and none is the place itself.
pub proof fn lemma_neighbors(width: int, height: int, x: int, y: int)
    ensures
        neighbors(width, height, x, y).len() <= 4,
        neighbors(width, height, x, y).no_duplicates(),
        forall|i: int|
            0 <= i < neighbors(width, height, x, y).len() ==> {
                let p = #[trigger] neighbors(width, height, x, y)[i];
                &&& 0 <= p.0 < width
                &&& 0 <= p.1 < height
                &&& p != (x, y)
                &&& (p.0 == x && (p.1 == y - 1 || p.1 == y + 1)) || (p.1 == y && (p.0 == x - 1
                    || p.0 == x + 1))
            },
{
}

/// Whether two places lie side by side.
pub open spec fn adjacent(x: int, y: int, nx: int, ny: int) -> bool {
    ||| (nx == x && (ny == y - 1 || ny == y + 1))
    ||| (ny == y && (nx == x - 1 || nx == x + 1))
}

/// Every place of the grid that lies beside `(x, y)` is among its neighbors.
pub proof fn lemma_adjacent_is_neighbor(width: int, height: int, x: int, y: int, nx: int, ny: int)
    requires
        adjacent(x, y, nx, ny),
        0 <= nx < width,
        0 <= ny < height,
    ensures
        neighbors(width, height, x, y).contains((nx, ny)),
{
    let all = neighbors(width, height, x, y);
    let left = place_if_inside(width, height, x - 1, y);
    let right = place_if_inside(width, height, x + 1, y);
    let up = place_if_inside(width, height, x, y - 1);
    if nx == x - 1 {
        assert(all[0] == (nx, ny));
    } else if nx == x + 1 {
        assert(all[left.len() as int] == (nx, ny));
    } else if ny == y - 1 {
        assert(all[(left.len() + right.len()) as int] == (nx, ny));
    } else {
        assert(all[(left.len() + right.len() + up.len()) as int] == (nx, ny));
    }
}

/// The number of tiles that the places of one column may take, all together.
pub open spec fn column_candidates<T>(column: Seq<Set<TileView<T>>>) -> nat
    decreases column.len(),
{
    if column.len() == 0 {
        0
    } else {
        column_candidates(column.drop_last()) + column.last().len()
    }
}

/// The number of tiles that the places of a grid may take, all together.
pub open spec fn candidates<T>(grid: GridView<T>) -> nat
    decreases grid.len(),
{
    if grid.len() == 0 {
        0
    } else {
        candidates(grid.drop_last()) + column_candidates(grid.last())
    }
}

/// Putting other tiles at one place of a column changes its count by the
/// difference at that place.
pub proof fn lemma_column_update<T>(column: Seq<Set<TileView<T>>>, y: int, tiles: Set<TileView<T>>)
    requires
        0 <= y < column.len(),
    ensures
        column_candidates(column.update(y, tiles)) == column_candidates(column) - column[y].len()
            + tiles.len(),
    decreases column.len(),
{
    let changed = column.update(y, tiles);
    if y == column.len() - 1 {
        assert(changed.drop_last() =~= column.drop_last());
    } else {
        lemma_column_update(column.drop_last(), y, tiles);
        assert(changed.drop_last() =~= column.drop_last().update(y, tiles));
    }
}

/// Putting other tiles at one place of a grid changes its count by the
/// difference at that place.
pub proof fn lemma_with_cell<T>(grid: GridView<T>, x: int, y: int, tiles: Set<TileView<T>>)
    requires
        in_bounds(grid, x, y),
    ensures
        candidates(with_cell(grid, x, y, tiles)) == candidates(grid) - grid[x][y].len()
            + tiles.len(),
    decreases grid.len(),
{
    let changed = with_cell(grid, x, y, tiles);
    if x == grid.len() - 1 {
        assert(changed.drop_last() =~= grid.drop_last());
        lemma_column_update(grid[x], y, tiles);
    } else {
        lemma_with_cell(grid.drop_last(), x, y, tiles);
        assert(changed.drop_last() =~= with_cell(grid.drop_last(), x, y, tiles));
    }
}

/// The height of the columns of a rectangular grid.
pub open spec fn view_height<A>(grid: Seq<Seq<A>>) -> int {
    if grid.len() > 0 {
        grid[0].len() as int
    } else {
        0
    }
}

/// Whether every column of `grid` has the same height.
pub open spec fn is_rectangular<A>(grid: Seq<Seq<A>>) -> bool {
    forall|x: int| 0 <= x < grid.len() ==> (#[trigger] grid[x]).len() == view_height(grid)
}

/// Whether the place `(x, y)` of `grid` holds exactly one tile.
pub open spec fn collapsed_at<T>(grid: GridView<T>, x: int, y: int) -> bool {
    grid[x][y].finite() && grid[x][y].len() == 1
}

/// A column from which tiles were taken away holds no more tiles than before.
pub proof fn lemma_narrower_column<T>(after: Seq<Set<TileView<T>>>, before: Seq<Set<TileView<T>>>)
    requires
        after.len() == before.len(),
        forall|y: int|
            0 <= y < before.len() ==> (#[trigger] before[y]).finite() && after[y].subset_of(
                before[y],
            ),
    ensures
        column_candidates(after) <= column_candidates(before),
    decreases before.len(),
{
    if before.len() > 0 {
        lemma_narrower_column(after.drop_last(), before.drop_last());
        assert(before.last() == before[before.len() - 1]);
        vstd::set_lib::lemma_len_subset(after.last(), before.last());
    }
}

/// A grid from which tiles were taken away holds no more tiles than before.
pub proof fn lemma_narrower_grid<T>(after: GridView<T>, before: GridView<T>)
    requires
        narrows(after, before),
        forall|x: int, y: int| in_bounds(before, x, y) ==> (#[trigger] before[x][y]).finite(),
    ensures
        candidates(after) <= candidates(before),
    decreases before.len(),
{
    if before.len() > 0 {
        let rest_after = after.drop_last();
        let rest_before = before.drop_last();
        assert forall|x: int, y: int| in_bounds(rest_before, x, y) implies (
        #[trigger] rest_before[x][y]).finite() && rest_after[x][y].subset_of(rest_before[x][y]) by {
            assert(in_bounds(before, x, y));
            assert(after[x][y].subset_of(before[x][y]));
        }
        assert(narrows(rest_after, rest_before));
        lemma_narrower_grid(rest_after, rest_before);
        let last = before.len() - 1;
        assert forall|y: int| 0 <= y < before[last].len() implies (
        #[trigger] before[last][y]).finite()
            && after[last][y].subset_of(before[last][y]) by {
            assert(in_bounds(before, last, y));
            assert(after[last][y].subset_of(before[last][y]));
        }
        lemma_narrower_column(after[last], before[last]);
    }
}

/// A grid of cells: `width` columns of `height` cells each.
#[derive(Debug)]
pub struct Grid<T: TileType> {
    width: usize,
    height: usize,
    cells: Vec<Vec<Cell<T>>>,
}

impl<T: TileType> View for Grid<T> {
    type V = GridView<T>;

    open spec fn view(&self) -> GridView<T> {
        Seq::new(
            self.spec_width() as nat,
            |x: int| Seq::new(self.spec_height() as nat, |y: int| self.cell_at(x, y)@),
        )
    }
}

impl<T: TileType> Clone for Grid<T> {
    /// A grid of its own with the same cells.
    fn clone(&self) -> (copy: Self)
        ensures
            copy.spec_width() == self.spec_width(),
            copy.spec_height() == self.spec_height(),
            self.rectangular() ==> copy.rectangular(),
            self.rectangular() ==> forall|x: int, y: int|
                self.has(x, y) ==> (#[trigger] copy.cell_at(x, y)).possible_values.order()
                    == self.cell_at(x, y).possible_values.order(),
            self.wf() ==> copy.wf() && copy@ == self@,
    {
        let mut cells: Vec<Vec<Cell<T>>> = Vec::new();
        let mut x: usize = 0;
        while x < self.cells.len()
            invariant
                x <= self.cells.len(),
                cells@.len() == x,
                forall|i: int|
                    0 <= i < x ==> (#[trigger] cells@[i])@.len() == self.cells@[i]@.len(),
                forall|i: int, j: int|
                    0 <= i < x && 0 <= j < self.cells@[i]@.len() ==> (
                    #[trigger] cells@[i]@[j]).possible_values.order()
                        == self.cells@[i]@[j].possible_values.order(),
            decreases self.cells.len() - x,
        {
            let mut column: Vec<Cell<T>> = Vec::new();
            let mut y: usize = 0;
            while y < self.cells[x].len()
                invariant
                    x < self.cells.len(),
                    y <= self.cells@[x as int]@.len(),
                    column@.len() == y,
                    forall|j: int|
                        0 <= j < y ==> (#[trigger] column@[j]).possible_values.order()
                            == self.cells@[x as int]@[j].possible_values.order(),
                decreases self.cells@[x as int]@.len() - y,
            {
                column.push(self.cells[x][y].clone());
                y += 1;
            }
            cells.push(column);
            x += 1;
        }
        let copy = Grid { width: self.width, height: self.height, cells };
        proof {
            if self.wf() {
                assert(copy.rectangular());
                assert forall|i: int, j: int| copy.has(i, j) implies (#[trigger] copy.cell_at(
                    i,
                    j,
                )).wf() by {
                    assert(self.cell_at(i, j).wf());
                }
                assert(copy@ =~~= self@);
            }
        }
        copy
    }
}

impl<T: TileType> Grid<T> {
    /// The number of columns.
    pub closed spec fn spec_width(&self) -> usize {
        self.width
    }

    /// The number of cells in each column.
    pub closed spec fn spec_height(&self) -> usize {
        self.height
    }

    /// The cell at `(x, y)`.
    pub closed spec fn cell_at(&self, x: int, y: int) -> Cell<T> {
        self.cells@[x]@[y]
    }

    /// The grid holds its columns and cells as its width and height say.
    pub closed spec fn rectangular(&self) -> bool {
        &&& self.cells@.len() == self.width
        &&& forall|x: int|
            0 <= x < self.cells@.len() ==> (#[trigger] self.cells@[x])@.len() == self.height
    }

    /// Whether `(x, y)` is a place of the grid.
    pub open spec fn has(&self, x: int, y: int) -> bool {
        0 <= x < self.spec_width() && 0 <= y < self.spec_height()
    }

    /// The grid is well formed: it is rectangular, its cells are well
    /// formed, and `==` on the tile identities is equality of values.
    pub open spec fn wf(&self) -> bool {
        &&& vstd::laws_eq::obeys_concrete_eq::<T>()
        &&& self.rectangular()
        &&& forall|x: int, y: int| self.has(x, y) ==> (#[trigger] self.cell_at(x, y)).wf()
    }

    /// Every cell of the grid holds exactly one tile.
    pub open spec fn solved(&self) -> bool {
        forall|x: int, y: int| self.has(x, y) ==> (#[trigger] self.cell_at(x, y)).collapsed()
    }

    /// The same cells stand at every place of both grids but `(x, y)`.
    pub open spec fn same_but_at(&self, other: &Grid<T>, x: int, y: int) -> bool {
        &&& self.spec_width() == other.spec_width()
        &&& self.spec_height() == other.spec_height()
        &&& forall|i: int, j: int|
            self.has(i, j) && !(i == x && j == y) ==> #[trigger] self.cell_at(i, j)
                == other.cell_at(i, j)
    }

    /// A grid of `width` columns of `height` cells, each cell with a set of
    /// its own that holds the tiles of `possible_tiles`.
    pub fn new(width: usize, height: usize, possible_tiles: PossibleValues<T>) -> (grid: Self)
        requires
            possible_tiles.wf(),
        ensures
            grid.wf(),
            grid.spec_width() == width,
            grid.spec_height() == height,
            forall|x: int, y: int|
                grid.has(x, y) ==> (#[trigger] grid.cell_at(x, y)).possible_values.order()
                    == possible_tiles.order(),
    {
        let mut cells: Vec<Vec<Cell<T>>> = Vec::new();
        let mut x: usize = 0;
        while x < width
            invariant
                x <= width,
                cells@.len() == x,
                forall|i: int| 0 <= i < x ==> (#[trigger] cells@[i])@.len() == height,
                forall|i: int, j: int|
                    0 <= i < x && 0 <= j < height ==> (
                    #[trigger] cells@[i]@[j]).possible_values.order()
                        == possible_tiles.order(),
            decreases width - x,
        {
            let mut column: Vec<Cell<T>> = Vec::new();
            let mut y: usize = 0;
            while y < height
                invariant
                    y <= height,
                    column@.len() == y,
                    forall|j: int|
                        0 <= j < y ==> (#[trigger] column@[j]).possible_values.order()
                            == possible_tiles.order(),
                decreases height - y,
            {
                column.push(Cell::new(possible_tiles.clone()));
                y += 1;
            }
            cells.push(column);
            x += 1;
        }
        Grid { width, height, cells }
    }

    /// The number of columns.
    #[verifier::when_used_as_spec(spec_width)]
    pub fn width(&self) -> (width: usize)
        ensures
            width == self.spec_width(),
    {
        self.width
    }

    /// The number of cells in each column.
    #[verifier::when_used_as_spec(spec_height)]
    pub fn height(&self) -> (height: usize)
        ensures
            height == self.spec_height(),
    {
        self.height
    }

    /// The columns of the grid.
    pub fn get_cells(&self) -> (cells: &Vec<Vec<Cell<T>>>)
        requires
            self.wf(),
        ensures
            cells@.len() == self.spec_width(),
            forall|x: int|
                0 <= x < cells@.len() ==> (#[trigger] cells@[x])@.len() == self.spec_height(),
            forall|x: int, y: int|
                self.has(x, y) ==> #[trigger] cells@[x]@[y] == self.cell_at(x, y),
    {
        &self.cells
    }

    /// The cell at `(x, y)`, if the grid has such a place.
    pub fn get_cell(&self, x: usize, y: usize) -> (cell: Option<&Cell<T>>)
        requires
            self.wf(),
        ensures
            cell is Some <==> self.has(x as int, y as int),
            cell matches Some(c) ==> *c == self.cell_at(x as int, y as int),
    {
        if x < self.cells.len() {
            let column = &self.cells[x];
            if y < column.len() {
                return Some(&column[y]);
            }
        }
        None
    }

    /// The cell at `(x, y)` to change, if the grid has such a place. The
    /// other cells stay as they are.
    pub fn get_cell_mut(&mut self, x: usize, y: usize) -> (cell: Option<&mut Cell<T>>)
        requires
            old(self).wf(),
        ensures
            cell is Some <==> old(self).has(x as int, y as int),
            match cell {
                Some(c) => {
                    &&& *c == old(self).cell_at(x as int, y as int)
                    &&& final(self).cell_at(x as int, y as int) == *final(c)
                    &&& final(self).same_but_at(old(self), x as int, y as int)
                    &&& final(self).rectangular()
                },
                None => *final(self) == *old(self),
            },
    {
        if x < self.cells.len() && y < self.cells[x].len() {
            let column = &mut self.cells[x];
            Some(&mut column[y])
        } else {
            None
        }
    }

    /// The same cells stand at every place of both grids.
    pub open spec fn same_cells(&self, other: &Grid<T>) -> bool {
        &&& self.spec_width() == other.spec_width()
        &&& self.spec_height() == other.spec_height()
        &&& forall|i: int, j: int|
            self.has(i, j) ==> #[trigger] self.cell_at(i, j) == other.cell_at(i, j)
    }

    /// The places beside `(x, y)`: left, right, up, down, as far as they
    /// lie in the grid.
    pub fn get_valid_coordinates(&self, x: usize, y: usize) -> (places: Vec<(usize, usize)>)
        ensures
            as_places(places@) == neighbors(
                self.spec_width() as int,
                self.spec_height() as int,
                x as int,
                y as int,
            ),
    {
        let mut places: Vec<(usize, usize)> = Vec::new();
        if x > 0 && x - 1 < self.width && y < self.height {
            places.push((x - 1, y));
        }
        if self.width > 0 && x < self.width - 1 && y < self.height {
            places.push((x + 1, y));
        }
        if y > 0 && y - 1 < self.height && x < self.width {
            places.push((x, y - 1));
        }
        if self.height > 0 && y < self.height - 1 && x < self.width {
            places.push((x, y + 1));
        }
        proof {
            assert(as_places(places@) =~= neighbors(
                self.spec_width() as int,
                self.spec_height() as int,
                x as int,
                y as int,
            ));
        }
        places
    }

    /// The cells beside `(x, y)`, in the order of `get_valid_coordinates`.
    pub fn get_adjacent_cells(&self, x: usize, y: usize) -> (cells: Vec<&Cell<T>>)
        requires
            self.wf(),
        ensures
            cells@.len() == neighbors(
                self.spec_width() as int,
                self.spec_height() as int,
                x as int,
                y as int,
            ).len(),
            forall|i: int|
                0 <= i < cells@.len() ==> {
                    let p = neighbors(
                        self.spec_width() as int,
                        self.spec_height() as int,
                        x as int,
                        y as int,
                    )[i];
                    *#[trigger] cells@[i] == self.cell_at(p.0, p.1)
                },
    {
        let places = self.get_valid_coordinates(x, y);
        let ghost beside = neighbors(
            self.spec_width() as int,
            self.spec_height() as int,
            x as int,
            y as int,
        );
        proof {
            lemma_neighbors(
                self.spec_width() as int,
                self.spec_height() as int,
                x as int,
                y as int,
            );
        }
        let mut cells: Vec<&Cell<T>> = Vec::new();
        let mut i: usize = 0;
        while i < places.len()
            invariant
                i <= places.len(),
                self.wf(),
                cells@.len() == i,
                as_places(places@) == beside,
                forall|k: int|
                    0 <= k < beside.len() ==> self.has((#[trigger] beside[k]).0, beside[k].1),
                forall|k: int|
                    0 <= k < i ==> *#[trigger] cells@[k] == self.cell_at(beside[k].0, beside[k].1),
            decreases places.len() - i,
        {
            let (nx, ny) = places[i];
            proof {
                assert(beside[i as int] == (nx as int, ny as int));
            }
            match self.get_cell(nx, ny) {
                Some(cell) => {
                    cells.push(cell);
                },
                None => {
                    proof {
                        assert(false);
                    }
                },
            }
            i += 1;
        }
        cells
    }

    /// Commits the cell at `(x, y)` to one of its tiles, drawn from `source`
    /// with a chance in proportion to its weight, and hands that tile out.
    /// The other cells stay as they are.
    pub fn collapse_cell(&mut self, x: usize, y: usize, source: &mut RandomSource) -> (chosen:
        Result<PossibleValue<T>, WfcError>)
        requires
            old(self).wf(),
        ensures
            final(self).wf(),
            final(self).narrowed_from(old(self)),
            final(source).seeded_by() == old(source).seeded_by(),
            chosen is Ok <==> {
                &&& old(self).has(x as int, y as int)
                &&& !old(self).cell_at(x as int, y as int).collapsed()
                &&& samplable(old(self).cell_at(x as int, y as int).possible_values.spec_weights())
            },
            match chosen {
                Ok(tile) => {
                    &&& old(self).cell_at(x as int, y as int)@.contains(tile@)
                    &&& tile@.weight > 0
                    &&& final(self).cell_at(x as int, y as int)@ == set![tile@]
                    &&& final(self).cell_at(x as int, y as int).possible_values.order()
                        == seq![tile@]
                    &&& final(self).same_but_at(old(self), x as int, y as int)
                },
                Err(e) => {
                    &&& final(self).same_cells(old(self))
                    &&& e == if !old(self).has(x as int, y as int) {
                        WfcError::InvalidCoordinate
                    } else if old(self).cell_at(x as int, y as int).collapsed() {
                        WfcError::AlreadyCollapsed
                    } else if old(self).cell_at(x as int, y as int).possible_values.order().len()
                        == 0 {
                        WfcError::EmptyCandidateSet
                    } else {
                        WfcError::InvalidWeight
                    }
                },
            },
    {
        let chosen = match self.get_cell_mut(x, y) {
            Some(cell) => cell.collapse(source),
            None => Err(WfcError::InvalidCoordinate),
        };
        proof {
            if old(self).has(x as int, y as int) {
                if chosen is Ok {
                    lemma_single_keeps_order(
                        self.cell_at(x as int, y as int),
                        old(self).cell_at(x as int, y as int),
                        chosen->Ok_0@,
                    );
                } else {
                    lemma_keeps_order_same(self.cell_at(x as int, y as int));
                }
                self.lemma_narrowed_from_but_at(old(self), x as int, y as int);
            } else {
                self.lemma_narrowed_from_self();
            }
        }
        chosen
    }

    /// The view of a well formed grid shows its width, its height and, at
    /// each place, the finite set of tiles of the cell there.
    pub proof fn lemma_view(&self)
        requires
            self.wf(),
        ensures
            self@.len() == self.spec_width(),
            is_rectangular(self@),
            self.spec_width() > 0 ==> view_height(self@) == self.spec_height(),
            forall|x: int, y: int| in_bounds(self@, x, y) <==> self.has(x, y),
            forall|x: int, y: int|
                self.has(x, y) ==> {
                    &&& (#[trigger] self@[x][y]) == self.cell_at(x, y)@
                    &&& self@[x][y].finite()
                    &&& self@[x][y].len() == self.cell_at(x, y).possible_values.order().len()
                },
    {
        assert forall|x: int, y: int| self.has(x, y) implies {
            &&& (#[trigger] self@[x][y]) == self.cell_at(x, y)@
            &&& self@[x][y].finite()
            &&& self@[x][y].len() == self.cell_at(x, y).possible_values.order().len()
        } by {
            assert(self.cell_at(x, y).wf());
            self.cell_at(x, y).possible_values.lemma_len();
        }
    }

    /// A grid that differs from another at one place only shows the view of
    /// the other with the tiles of its own cell at that place.
    pub proof fn lemma_view_with_cell(&self, before: &Grid<T>, x: int, y: int)
        requires
            before.has(x, y),
            self.same_but_at(before, x, y),
        ensures
            self@ == with_cell(before@, x, y, self.cell_at(x, y)@),
    {
        let changed = with_cell(before@, x, y, self.cell_at(x, y)@);
        assert(self@.len() == changed.len());
        assert forall|i: int| 0 <= i < self@.len() implies #[trigger] self@[i] == changed[i] by {
            assert(self@[i].len() == changed[i].len());
            assert forall|j: int| 0 <= j < self@[i].len() implies #[trigger] self@[i][j]
                == changed[i][j] by {
                if !(i == x && j == y) {
                    assert(self.has(i, j));
                    assert(self.cell_at(i, j) == before.cell_at(i, j));
                }
            }
            assert(self@[i] =~= changed[i]);
        }
        assert(self@ =~= changed);
    }

    /// Whether the grid came from `before` by taking tiles away: the same
    /// places, and at each place tiles of the cell of `before`, in the order
    /// that they have there.
    pub open spec fn narrowed_from(&self, before: &Grid<T>) -> bool {
        &&& self.spec_width() == before.spec_width()
        &&& self.spec_height() == before.spec_height()
        &&& forall|x: int, y: int|
            self.has(x, y) ==> keeps_order(#[trigger] self.cell_at(x, y), before.cell_at(x, y))
    }

    /// A grid came from itself.
    pub proof fn lemma_narrowed_from_self(&self)
        ensures
            self.narrowed_from(self),
    {
        assert forall|x: int, y: int| self.has(x, y) implies keeps_order(
            #[trigger] self.cell_at(x, y),
            self.cell_at(x, y),
        ) by {
            lemma_keeps_order_same(self.cell_at(x, y));
        }
    }

    /// A grid that came from a grid that came from `first` came from
    /// `first`.
    pub proof fn lemma_narrowed_from_twice(&self, middle: &Grid<T>, first: &Grid<T>)
        requires
            self.narrowed_from(middle),
            middle.narrowed_from(first),
        ensures
            self.narrowed_from(first),
    {
        assert forall|x: int, y: int| self.has(x, y) implies keeps_order(
            #[trigger] self.cell_at(x, y),
            first.cell_at(x, y),
        ) by {
            assert(keeps_order(middle.cell_at(x, y), first.cell_at(x, y)));
            lemma_keeps_order_twice(self.cell_at(x, y), middle.cell_at(x, y), first.cell_at(x, y));
        }
    }

    /// A grid that differs from `before` at one place only, where its cell
    /// keeps the order of the cell of `before`, came from `before`.
    pub proof fn lemma_narrowed_from_but_at(&self, before: &Grid<T>, x: int, y: int)
        requires
            self.same_but_at(before, x, y),
            before.has(x, y) ==> keeps_order(self.cell_at(x, y), before.cell_at(x, y)),
        ensures
            self.narrowed_from(before),
    {
        assert forall|i: int, j: int| self.has(i, j) implies keeps_order(
            #[trigger] self.cell_at(i, j),
            before.cell_at(i, j),
        ) by {
            if !(i == x && j == y) {
                assert(self.cell_at(i, j) == before.cell_at(i, j));
                lemma_keeps_order_same(self.cell_at(i, j));
            }
        }
    }

    /// The order of the tiles in the cells of a grid that came from
    /// `before` is fixed by the tiles that the cells hold: two such grids
    /// that hold the same tiles hold them in the same order.
    pub proof fn lemma_order_is_fixed(&self, other: &Grid<T>, before: &Grid<T>, x: int, y: int)
        requires
            self.narrowed_from(before),
            other.narrowed_from(before),
            self.has(x, y),
            self.cell_at(x, y)@ == other.cell_at(x, y)@,
        ensures
            self.cell_at(x, y).possible_values.order() == other.cell_at(
                x,
                y,
            ).possible_values.order(),
    {
        let order = before.cell_at(x, y).possible_values.order();
        let in_self = |tile: TileView<T>| self.cell_at(x, y)@.contains(tile);
        let in_other = |tile: TileView<T>| other.cell_at(x, y)@.contains(tile);
        assert(keeps_order(self.cell_at(x, y), before.cell_at(x, y)));
        assert(keeps_order(other.cell_at(x, y), before.cell_at(x, y)));
        crate::types::lemma_filter_agree(order, in_self, in_other);
    }
}

} // verus!
