//! The solver: collapse the least uncertain cell, let the rules narrow the
//! rest, and go on until every cell holds one tile.

use crate::adjacency_graph::{permits, permitted_around, Adjacency};
use crate::grid::{
    adjacent, as_places, candidates, collapsed_at, in_bounds, is_rectangular,
    lemma_adjacent_is_neighbor, lemma_keeps_order_len, lemma_keeps_order_same,
    lemma_single_keeps_order, with_cell,
    lemma_narrower_grid, lemma_narrows_twice, lemma_neighbors, lemma_with_cell, narrows,
    view_height, Cell, Grid, GridView,
};
use crate::possible_values::PossibleValues;
use crate::propagation::{
    all_exact, applied, as_failure, ends_within, finished, lemma_propagation_is,
    lemma_well_played_before, propagated, propagation_gives, replayed, well_played, Collapse,
    Outcome,
};
use crate::random::RandomSource;
use crate::rules::adjacency_rule::{beside_permitted, follows_table, places_beside};
use crate::rules::{lemma_lists_add, lemma_lists_push, lists, Rule};
use crate::traits::Renderer;
use crate::types::{as_ints, samplable, PossibleValue, TileType, TileView, WfcError};
use vstd::prelude::*;

verus! {

/// Whether the rule at place `r` of `rules` was settled at `(x, y)` in a
/// grid from which `grid` came by taking tiles away, the cell at `(x, y)`
/// being the same then as now.
pub open spec fn settled_since<T: TileType, Ru: Rule<T>>(
    rules: Seq<Ru>,
    r: int,
    grid: GridView<T>,
    x: int,
    y: int,
) -> bool {
    exists|wider: GridView<T>|
        {
            &&& narrows(grid, wider)
            &&& wider[x][y] == grid[x][y]
            &&& #[trigger] rules[r].settled_at(wider, x, y)
        }
}

/// Whether every rule is settled at every collapsed cell of `grid` that is
/// not among `pending`.
pub open spec fn all_settled<T: TileType, Ru: Rule<T>>(
    rules: Seq<Ru>,
    grid: GridView<T>,
    pending: Seq<(usize, usize)>,
) -> bool {
    forall|r: int, x: int, y: int|
        0 <= r < rules.len() && in_bounds(grid, x, y) && collapsed_at(grid, x, y) && !lists(
            pending,
            x,
            y,
        ) ==> #[trigger] settled_since(rules, r, grid, x, y)
}

/// Whether every rule of `rules` is settled at `(x, y)`.
pub open spec fn settled_by_all<T: TileType, Ru: Rule<T>>(
    rules: Seq<Ru>,
    grid: GridView<T>,
    x: int,
    y: int,
) -> bool {
    forall|r: int| 0 <= r < rules.len() ==> #[trigger] settled_since(rules, r, grid, x, y)
}

/// Whether a propagation that started at `start` and led from `before` to
/// `now` answers for the place `(x, y)`: it started there, it changed the
/// cell there, or every rule was settled there before.
pub open spec fn to_settle<T: TileType, Ru: Rule<T>>(
    rules: Seq<Ru>,
    before: GridView<T>,
    now: GridView<T>,
    start: Seq<(usize, usize)>,
    x: int,
    y: int,
) -> bool {
    lists(start, x, y) || now[x][y] != before[x][y] || settled_by_all(rules, before, x, y)
}

/// A rule that is settled at a cell now has been settled there since.
pub proof fn lemma_settled_now<T: TileType, Ru: Rule<T>>(
    rules: Seq<Ru>,
    r: int,
    grid: GridView<T>,
    x: int,
    y: int,
)
    requires
        rules[r].settled_at(grid, x, y),
    ensures
        settled_since(rules, r, grid, x, y),
{
    assert(narrows(grid, grid));
}

/// A rule that was settled at a cell stays settled there while tiles are
/// taken away from other cells only.
pub proof fn lemma_settled_persists<T: TileType, Ru: Rule<T>>(
    rules: Seq<Ru>,
    r: int,
    before: GridView<T>,
    after: GridView<T>,
    x: int,
    y: int,
)
    requires
        settled_since(rules, r, before, x, y),
        narrows(after, before),
        after[x][y] == before[x][y],
    ensures
        settled_since(rules, r, after, x, y),
{
    let wider = choose|wider: GridView<T>|
        {
            &&& narrows(before, wider)
            &&& wider[x][y] == before[x][y]
            &&& #[trigger] rules[r].settled_at(wider, x, y)
        };
    lemma_narrows_twice(after, before, wider);
}

/// Whether every place of `places` is a place of `grid`.
pub open spec fn all_inside<T: TileType>(grid: Grid<T>, places: Seq<(usize, usize)>) -> bool {
    forall|i: int|
        0 <= i < places.len() ==> grid.has((#[trigger] places[i]).0 as int, places[i].1 as int)
}

/// Whether the cell can be collapsed or is collapsed: it holds one tile, or
/// the weights of its tiles can be sampled.
pub open spec fn can_settle<T: TileType>(cell: Cell<T>) -> bool {
    cell.collapsed() || samplable(cell.possible_values.spec_weights())
}

/// Whether every cell of `now` is the cell of `before` at its place, or is
/// collapsed where the cell of `before` could be collapsed.
pub open spec fn collapsed_from<T: TileType>(now: Grid<T>, before: Grid<T>) -> bool {
    forall|x: int, y: int|
        now.has(x, y) ==> {
            ||| #[trigger] now.cell_at(x, y) == before.cell_at(x, y)
            ||| now.cell_at(x, y).collapsed() && can_settle(before.cell_at(x, y))
        }
}

/// Whether `entropy` gave `key` for the weights of the tiles of `cell`.
pub open spec fn is_key_of<T: TileType, F: Fn(&Vec<i32>) -> u64>(
    entropy: &F,
    cell: Cell<T>,
    key: u64,
) -> bool {
    exists|weights: Vec<i32>|
        {
            &&& as_ints(weights@) == cell.possible_values.spec_weights()
            &&& #[trigger] entropy.ensures((&weights,), key)
        }
}

/// Whether `key` fits `cell`: nothing for a collapsed cell, and for any
/// other cell a key that `entropy` gave for the weights of its tiles.
pub open spec fn key_fits<T: TileType, F: Fn(&Vec<i32>) -> u64>(
    entropy: &F,
    cell: Cell<T>,
    key: Option<u64>,
) -> bool {
    if key is None {
        cell.collapsed()
    } else {
        !cell.collapsed() && is_key_of(entropy, cell, key->0)
    }
}

/// Whether `keys` holds a key that fits at every place of `grid`.
pub open spec fn keyed_by<T: TileType, F: Fn(&Vec<i32>) -> u64>(
    entropy: &F,
    grid: Grid<T>,
    keys: Seq<Vec<Option<u64>>>,
) -> bool {
    &&& keys.len() == grid.spec_width()
    &&& forall|x: int| 0 <= x < keys.len() ==> (#[trigger] keys[x])@.len() == grid.spec_height()
    &&& forall|x: int, y: int|
        grid.has(x, y) ==> key_fits(entropy, grid.cell_at(x, y), #[trigger] keys[x]@[y])
}

/// Whether the place `(x, y)` is met before `(i, j)` when the grid is gone
/// through column by column.
pub open spec fn comes_before(x: int, y: int, i: int, j: int) -> bool {
    x < i || (x == i && y < j)
}

/// Whether `(x, y)` holds the least key of `keys` and is the first place
/// that holds it.
pub open spec fn is_first_minimum(keys: Seq<Vec<Option<u64>>>, x: int, y: int) -> bool {
    &&& 0 <= x < keys.len()
    &&& 0 <= y < keys[x]@.len()
    &&& keys[x]@[y] is Some
    &&& forall|i: int, j: int|
        0 <= i < keys.len() && 0 <= j < keys[i]@.len() && (#[trigger] keys[i]@[j]) is Some ==> {
            &&& keys[x]@[y]->0 <= keys[i]@[j]->0
            &&& comes_before(i, j, x, y) ==> keys[x]@[y]->0 < keys[i]@[j]->0
        }
}

/// The keys fix the choice of the next cell: only one place is the first to
/// hold the least key.
pub proof fn lemma_first_minimum_is_unique(
    keys: Seq<Vec<Option<u64>>>,
    x: int,
    y: int,
    i: int,
    j: int,
)
    requires
        is_first_minimum(keys, x, y),
        is_first_minimum(keys, i, j),
    ensures
        x == i,
        y == j,
{
    assert(keys[x]@[y] is Some);
    assert(keys[i]@[j] is Some);
    if comes_before(x, y, i, j) {
        assert(keys[i]@[j]->0 < keys[x]@[y]->0);
    }
    if comes_before(i, j, x, y) {
        assert(keys[x]@[y]->0 < keys[i]@[j]->0);
    }
}

/// Whether `entropy` gives one key for one list of weights.
pub open spec fn gives_one_key<F: Fn(&Vec<i32>) -> u64>(entropy: &F) -> bool {
    forall|one: Vec<i32>, other: Vec<i32>, a: u64, b: u64|
        #[trigger] entropy.ensures((&one,), a) && #[trigger] entropy.ensures((&other,), b) && one@
            == other@ ==> a == b
}

/// Whether `grid` is the grid that the first `i` steps of `steps` left, and
/// the place of the step after them is the first place of least key in it,
/// where the cell can be collapsed.
pub open spec fn placing<T: TileType, Ru: Rule<T>, F: Fn(&Vec<i32>) -> u64>(
    entropy: &F,
    first: Grid<T>,
    rules: Seq<Ru>,
    steps: Seq<Collapse<T>>,
    i: int,
    grid: Grid<T>,
    keys: Seq<Vec<Option<u64>>>,
) -> bool {
    &&& grid.wf()
    &&& grid.narrowed_from(&first)
    &&& grid@ == replayed(rules, first@, steps.take(i)).grid
    &&& keyed_by(entropy, grid, keys)
    &&& is_first_minimum(keys, steps[i].x, steps[i].y)
    &&& can_settle(grid.cell_at(steps[i].x, steps[i].y))
}

/// Whether the step at place `i` of `steps` collapses the first cell of
/// least key in the grid that the steps before it left.
pub open spec fn placed_by<T: TileType, Ru: Rule<T>, F: Fn(&Vec<i32>) -> u64>(
    entropy: &F,
    first: Grid<T>,
    rules: Seq<Ru>,
    steps: Seq<Collapse<T>>,
    i: int,
) -> bool {
    exists|grid: Grid<T>, keys: Seq<Vec<Option<u64>>>| #[trigger]
        placing(entropy, first, rules, steps, i, grid, keys)
}

/// Whether every step of `steps` collapses the first cell of least key in
/// the grid that the steps before it left.
pub open spec fn well_placed<T: TileType, Ru: Rule<T>, F: Fn(&Vec<i32>) -> u64>(
    entropy: &F,
    first: Grid<T>,
    rules: Seq<Ru>,
    steps: Seq<Collapse<T>>,
) -> bool {
    forall|i: int|
        0 <= i < steps.len() ==> #[trigger] placed_by(entropy, first, rules, steps, i)
}

/// The error with which a cell that cannot be collapsed refuses: it holds
/// no tile, or the weights of its tiles cannot be sampled.
pub open spec fn refusal_of<T: TileType>(cell: Cell<T>) -> WfcError {
    if cell.possible_values.order().len() == 0 {
        WfcError::EmptyCandidateSet
    } else {
        WfcError::InvalidWeight
    }
}

/// Whether a run stops on `grid` with `done` before it collapses a cell:
/// the first cell of least key cannot be collapsed, and `done` is the error
/// with which it refuses.
pub open spec fn stuck<T: TileType, F: Fn(&Vec<i32>) -> u64>(
    entropy: &F,
    grid: Grid<T>,
    done: Result<(), WfcError>,
) -> bool {
    exists|keys: Seq<Vec<Option<u64>>>, x: int, y: int|
        {
            &&& keyed_by(entropy, grid, keys)
            &&& #[trigger] is_first_minimum(keys, x, y)
            &&& !can_settle(grid.cell_at(x, y))
            &&& done == Err::<(), WfcError>(refusal_of(grid.cell_at(x, y)))
        }
}

/// Whether a run from the grid `first` that collapsed the cells of `steps`
/// in turn has left the grid `left` and ended with `done`. Every step
/// collapses the first cell of least key to one of its tiles. The run ends
/// well on a solved grid, or with the failure of a rule at the last step,
/// or because the first cell of least key cannot be collapsed.
pub open spec fn run_comes_to<T: TileType, Ru: Rule<T>, F: Fn(&Vec<i32>) -> u64>(
    entropy: &F,
    rules: Seq<Ru>,
    first: Grid<T>,
    steps: Seq<Collapse<T>>,
    left: Grid<T>,
    done: Result<(), WfcError>,
) -> bool {
    &&& well_played(rules, first@, steps)
    &&& well_placed(entropy, first, rules, steps)
    &&& left.wf()
    &&& left.narrowed_from(&first)
    &&& replayed(rules, first@, steps).grid == left@
    &&& if replayed(rules, first@, steps).failure is Some {
        as_failure(done) == replayed(rules, first@, steps).failure
    } else if done is Ok {
        left.solved()
    } else {
        stuck(entropy, left, done)
    }
}

/// The first place that holds the least key of `keys`, if any place holds a
/// key.
pub fn first_minimum(keys: &Vec<Vec<Option<u64>>>) -> (place: Option<(usize, usize)>)
    ensures
        place is None <==> forall|i: int, j: int|
            0 <= i < keys@.len() && 0 <= j < keys@[i]@.len() ==> (#[trigger] keys@[i]@[j]) is None,
        place matches Some((x, y)) ==> is_first_minimum(keys@, x as int, y as int),
{
    let mut best: Option<(usize, usize, u64)> = None;
    let mut x: usize = 0;
    while x < keys.len()
        invariant
            x <= keys.len(),
            best is None <==> forall|i: int, j: int|
                0 <= i < x && 0 <= j < keys@[i]@.len() ==> (#[trigger] keys@[i]@[j]) is None,
            best matches Some((bx, by, least)) ==> {
                &&& bx < x
                &&& by < keys@[bx as int]@.len()
                &&& keys@[bx as int]@[by as int] == Some(least)
                &&& forall|i: int, j: int|
                    0 <= i < x && 0 <= j < keys@[i]@.len() && (#[trigger] keys@[i]@[j]) is Some
                        ==> {
                        &&& least <= keys@[i]@[j]->0
                        &&& comes_before(i, j, bx as int, by as int) ==> least < keys@[i]@[j]->0
                    }
            },
        decreases keys.len() - x,
    {
        let mut y: usize = 0;
        while y < keys[x].len()
            invariant
                x < keys.len(),
                y <= keys@[x as int]@.len(),
                best is None <==> forall|i: int, j: int|
                    0 <= i < keys@.len() && 0 <= j < keys@[i]@.len() && comes_before(
                        i,
                        j,
                        x as int,
                        y as int,
                    ) ==> (#[trigger] keys@[i]@[j]) is None,
                best matches Some((bx, by, least)) ==> {
                    &&& comes_before(bx as int, by as int, x as int, y as int)
                    &&& bx < keys@.len()
                    &&& by < keys@[bx as int]@.len()
                    &&& keys@[bx as int]@[by as int] == Some(least)
                    &&& forall|i: int, j: int|
                        0 <= i < keys@.len() && 0 <= j < keys@[i]@.len() && comes_before(
                            i,
                            j,
                            x as int,
                            y as int,
                        ) && (#[trigger] keys@[i]@[j]) is Some ==> {
                            &&& least <= keys@[i]@[j]->0
                            &&& comes_before(i, j, bx as int, by as int) ==> least < keys@[i]@[j]->0
                        }
                },
            decreases keys@[x as int]@.len() - y,
        {
            match keys[x][y] {
                Some(key) => {
                    let better = match best {
                        Some((_, _, least)) => key < least,
                        None => true,
                    };
                    if better {
                        best = Some((x, y, key));
                    }
                },
                None => {},
            }
            y += 1;
        }
        x += 1;
    }
    match best {
        Some((bx, by, _)) => Some((bx, by)),
        None => None,
    }
}

/// The solver. It owns the grid, the rules in the order in which they run,
/// the renderer if there is one, and the random source of its draws. Once a
/// step has failed the solver stays failed.
pub struct WFC<T: TileType, Ru: Rule<T>, R: Renderer<T>> {
    grid: Grid<T>,
    rules: Vec<Ru>,
    renderer: Option<R>,
    source: RandomSource,
    failed: bool,
}

impl<T: TileType, Ru: Rule<T>, R: Renderer<T>> WFC<T, Ru, R> {
    /// The grid of the solver.
    pub closed spec fn spec_grid(&self) -> Grid<T> {
        self.grid
    }

    /// The rules of the solver, in the order in which they run.
    pub closed spec fn rules(&self) -> Seq<Ru> {
        self.rules@
    }

    /// Whether a step of the solver has failed.
    pub closed spec fn has_failed(&self) -> bool {
        self.failed
    }

    /// Whether the solver has a renderer.
    pub closed spec fn has_renderer(&self) -> bool {
        self.renderer is Some
    }

    /// The seed of the random source of the solver, if the source was made
    /// from one.
    pub closed spec fn source_seed(&self) -> Option<u64> {
        self.source.seeded_by()
    }

    /// The solver is well formed: its grid is.
    pub open spec fn wf(&self) -> bool {
        self.spec_grid().wf()
    }

    /// No step has failed, and every rule is settled at every collapsed
    /// cell.
    pub open spec fn settled(&self) -> bool {
        &&& !self.has_failed()
        &&& all_settled(self.rules(), self.spec_grid()@, Seq::empty())
    }

    /// What a step leaves as it was: the rules, the size of the grid,
    /// whether there is a renderer, and the seed of the random source.
    pub open spec fn same_frame(&self, other: &Self) -> bool {
        &&& self.rules() == other.rules()
        &&& self.spec_grid().spec_width() == other.spec_grid().spec_width()
        &&& self.spec_grid().spec_height() == other.spec_grid().spec_height()
        &&& self.has_renderer() == other.has_renderer()
        &&& self.source_seed() == other.source_seed()
    }

    /// Whether the solver is a new one for a grid of `width` columns of
    /// `height` cells, each of which may take the tiles of `possible_values`:
    /// no step has failed, it has the rules `rules`, a renderer if `rendered`,
    /// and a random source of the seed `seed`.
    pub open spec fn made_from(
        &self,
        width: usize,
        height: usize,
        possible_values: PossibleValues<T>,
        rules: Seq<Ru>,
        rendered: bool,
        seed: Option<u64>,
    ) -> bool {
        &&& self.wf()
        &&& !self.has_failed()
        &&& self.rules() == rules
        &&& self.has_renderer() == rendered
        &&& self.source_seed() == seed
        &&& self.spec_grid().spec_width() == width
        &&& self.spec_grid().spec_height() == height
        &&& forall|x: int, y: int|
            self.spec_grid().has(x, y) ==> (#[trigger] self.spec_grid().cell_at(
                x,
                y,
            )).possible_values.order() == possible_values.order()
        &&& possible_values.order().len() != 1 ==> self.settled()
    }

    /// A solver for a grid of `width` columns of `height` cells, each of
    /// which may take the tiles of `possible_values`. Its draws come from
    /// `source`.
    pub fn with_source(
        width: usize,
        height: usize,
        possible_values: PossibleValues<T>,
        rules: Vec<Ru>,
        renderer: Option<R>,
        source: RandomSource,
    ) -> (solver: Self)
        requires
            possible_values.wf(),
        ensures
            solver.made_from(
                width,
                height,
                possible_values,
                rules@,
                renderer is Some,
                source.seeded_by(),
            ),
    {
        let solver = WFC {
            grid: Grid::new(width, height, possible_values),
            rules,
            renderer,
            source,
            failed: false,
        };
        proof {
            solver.grid.lemma_view();
        }
        solver
    }

    /// A solver for a grid of `width` columns of `height` cells, each of
    /// which may take the tiles of `possible_values`. Its draws are seeded by
    /// the operating system; where the operating system has no random bytes
    /// to give there is no solver.
    pub fn new(
        width: usize,
        height: usize,
        possible_values: PossibleValues<T>,
        rules: Vec<Ru>,
        renderer: Option<R>,
    ) -> (made: Result<Self, WfcError>)
        requires
            possible_values.wf(),
        ensures
            match made {
                Ok(solver) => solver.made_from(
                    width,
                    height,
                    possible_values,
                    rules@,
                    renderer is Some,
                    None,
                ),
                Err(e) => e == WfcError::EntropyUnavailable,
            },
    {
        match RandomSource::from_entropy() {
            Ok(source) => Ok(WFC::with_source(
                width,
                height,
                possible_values,
                rules,
                renderer,
                source,
            )),
            Err(e) => Err(e),
        }
    }

    /// Makes the draws of the solver repeat: its random source is from now
    /// on one that was made from `seed`. The grid, the rules and the
    /// renderer stay as they are.
    pub fn reseed(&mut self, seed: u64)
        ensures
            final(self).source_seed() == Some(seed),
            final(self).spec_grid() == old(self).spec_grid(),
            final(self).rules() == old(self).rules(),
            final(self).has_failed() == old(self).has_failed(),
            final(self).has_renderer() == old(self).has_renderer(),
    {
        self.source = RandomSource::from_seed(seed);
    }

    /// The seed of the random source of the solver, if the source was made
    /// from one.
    pub fn seed(&self) -> (seed: Option<u64>)
        ensures
            seed == self.source_seed(),
    {
        self.source.seed()
    }

    /// The grid of the solver.
    pub fn grid(&self) -> (grid: &Grid<T>)
        ensures
            *grid == self.spec_grid(),
    {
        &self.grid
    }

    /// Whether a step of the solver has failed.
    pub fn is_failed(&self) -> (failed: bool)
        ensures
            failed == self.has_failed(),
    {
        self.failed
    }

    /// Runs every rule at each of `start_cells` and at every place that a
    /// rule reports as changed, until none is left: every rule is then
    /// settled at each of these places, and stays settled where it was.
    /// The first failure of a rule ends it and leaves the solver failed,
    /// with the grid as the rules left it. A start cell outside the grid is
    /// refused before any rule runs.
    pub fn propagate_all_constraints(&mut self, start_cells: Vec<(usize, usize)>) -> (done: Result<
        (),
        WfcError,
    >)
        requires
            old(self).wf(),
        ensures
            final(self).wf(),
            final(self).same_frame(old(self)),
            final(self).spec_grid().narrowed_from(&old(self).spec_grid()),
            narrows(final(self).spec_grid()@, old(self).spec_grid()@),
            old(self).has_failed() ==> done == Err::<(), WfcError>(WfcError::ContradictionError)
                && final(self).has_failed() && final(self).spec_grid() == old(self).spec_grid(),
            !old(self).has_failed() && !all_inside(old(self).spec_grid(), start_cells@) ==> done
                == Err::<(), WfcError>(WfcError::InvalidCoordinate) && !final(self).has_failed()
                && final(self).spec_grid() == old(self).spec_grid(),
            !old(self).has_failed() && all_inside(old(self).spec_grid(), start_cells@) && (
            start_cells@.len() == 0 || old(self).rules().len() == 0) ==> done is Ok
                && final(self).spec_grid() == old(self).spec_grid(),
            !old(self).has_failed() && all_inside(old(self).spec_grid(), start_cells@) && all_exact(
                old(self).rules(),
            ) ==> propagation_gives(
                old(self).rules(),
                old(self).spec_grid()@,
                as_places(start_cells@),
                (Outcome { grid: final(self).spec_grid()@, failure: as_failure(done) }),
            ),
            done is Ok ==> !final(self).has_failed(),
            done is Ok ==> forall|x: int, y: int|
                in_bounds(final(self).spec_grid()@, x, y) && to_settle(
                    old(self).rules(),
                    old(self).spec_grid()@,
                    final(self).spec_grid()@,
                    start_cells@,
                    x,
                    y,
                ) ==> #[trigger] settled_by_all(
                    final(self).rules(),
                    final(self).spec_grid()@,
                    x,
                    y,
                ),
            done is Ok && all_settled(old(self).rules(), old(self).spec_grid()@, start_cells@)
                ==> final(self).settled(),
            done is Err && !old(self).has_failed() && all_inside(
                old(self).spec_grid(),
                start_cells@,
            ) ==> final(self).has_failed(),
    {
        proof {
            self.grid.lemma_narrowed_from_self();
        }
        if self.failed {
            return Err(WfcError::ContradictionError);
        }
        if start_cells.len() == 0 {
            proof {
                assert(as_places(start_cells@) =~= Seq::<(int, int)>::empty());
                assert(ends_within(
                    self.rules(),
                    self.grid@,
                    as_places(start_cells@),
                    (Outcome { grid: self.grid@, failure: None }),
                    0,
                ));
            }
            return Ok(());
        }
        let mut k: usize = 0;
        while k < start_cells.len()
            invariant
                k <= start_cells.len(),
                forall|i: int|
                    0 <= i < k ==> self.spec_grid().has(
                        (#[trigger] start_cells@[i]).0 as int,
                        start_cells@[i].1 as int,
                    ),
                *self == *old(self),
                old(self).wf(),
                !old(self).has_failed(),
                self.spec_grid().narrowed_from(&old(self).spec_grid()),
            decreases start_cells.len() - k,
        {
            let (sx, sy) = start_cells[k];
            if sx >= self.grid.width() || sy >= self.grid.height() {
                return Err(WfcError::InvalidCoordinate);
            }
            k += 1;
        }
        let ghost g0 = self.grid@;
        let ghost starts = start_cells@;
        let ghost mut seen: nat = 0;
        let mut pending = start_cells;
        proof {
            self.grid.lemma_view();
        }
        while pending.len() > 0
            invariant
                all_exact(self.rules()) ==> forall|fuel: nat|
                    fuel >= seen ==> #[trigger] propagated(
                        self.rules(),
                        g0,
                        as_places(starts),
                        fuel,
                    ) == propagated(
                        self.rules(),
                        self.grid@,
                        as_places(pending@),
                        (fuel - seen) as nat,
                    ),
                self.wf(),
                self.same_frame(old(self)),
                self.spec_grid().narrowed_from(&old(self).spec_grid()),
                !self.failed,
                g0 == old(self).spec_grid()@,
                narrows(self.grid@, g0),
                forall|i: int|
                    0 <= i < pending@.len() ==> self.spec_grid().has(
                        (#[trigger] pending@[i]).0 as int,
                        pending@[i].1 as int,
                    ),
                forall|ri: int, x: int, y: int|
                    0 <= ri < self.rules().len() && in_bounds(self.grid@, x, y) && to_settle(
                        self.rules(),
                        g0,
                        self.grid@,
                        starts,
                        x,
                        y,
                    ) && !lists(pending@, x, y) ==> #[trigger] settled_since(
                        self.rules(),
                        ri,
                        self.grid@,
                        x,
                        y,
                    ),
                !old(self).has_failed(),
                starts.len() > 0,
                starts == start_cells@,
                all_inside(old(self).spec_grid(), starts),
                self.rules().len() == 0 ==> self.spec_grid() == old(self).spec_grid(),
            decreases candidates(self.grid@) + pending@.len(),
        {
            let ghost measure = candidates(self.grid@) + pending@.len();
            let ghost waiting = pending@;
            let (cx, cy) = pending.pop().unwrap();
            proof {
                assert(waiting =~= pending@.push((cx, cy)));
                assert forall|x: int, y: int| lists(waiting, x, y) <==> lists(pending@, x, y) || (cx
                    == x && cy == y) by {
                    lemma_lists_push(pending@, (cx, cy), x, y);
                }
            }
            proof {
                if all_exact(self.rules()) {
                    assert(as_places(waiting).last() == (cx as int, cy as int));
                    assert(as_places(waiting).drop_last() =~= as_places(pending@));
                    assert forall|fuel: nat| fuel >= seen + 1 implies #[trigger] propagated(
                        self.rules(),
                        g0,
                        as_places(starts),
                        fuel,
                    ) == finished(
                        self.rules(),
                        applied(
                            self.rules(),
                            0,
                            self.grid@,
                            cx as int,
                            cy as int,
                            as_places(pending@),
                        ),
                        (fuel - seen - 1) as nat,
                    ) by {
                        assert(propagated(self.rules(), g0, as_places(starts), fuel) == propagated(
                            self.rules(),
                            self.grid@,
                            as_places(waiting),
                            (fuel - seen) as nat,
                        ));
                    }
                }
            }
            let mut r: usize = 0;
            while r < self.rules.len()
                invariant
                    all_exact(self.rules()) ==> forall|fuel: nat|
                        fuel >= seen + 1 ==> #[trigger] propagated(
                            self.rules(),
                            g0,
                            as_places(starts),
                            fuel,
                        ) == finished(
                            self.rules(),
                            applied(
                                self.rules(),
                                r as int,
                                self.grid@,
                                cx as int,
                                cy as int,
                                as_places(pending@),
                            ),
                            (fuel - seen - 1) as nat,
                        ),
                    r <= self.rules.len(),
                    self.wf(),
                    self.same_frame(old(self)),
                    self.spec_grid().narrowed_from(&old(self).spec_grid()),
                    !self.failed,
                    g0 == old(self).spec_grid()@,
                    narrows(self.grid@, g0),
                    self.spec_grid().has(cx as int, cy as int),
                    forall|i: int|
                        0 <= i < pending@.len() ==> self.spec_grid().has(
                            (#[trigger] pending@[i]).0 as int,
                            pending@[i].1 as int,
                        ),
                    candidates(self.grid@) + pending@.len() < measure,
                    !old(self).has_failed(),
                    starts.len() > 0,
                    starts == start_cells@,
                    all_inside(old(self).spec_grid(), starts),
                    self.rules().len() == 0 ==> self.spec_grid() == old(self).spec_grid(),
                    forall|ri: int, x: int, y: int|
                        0 <= ri < self.rules().len() && in_bounds(self.grid@, x, y) && to_settle(
                            self.rules(),
                            g0,
                            self.grid@,
                            starts,
                            x,
                            y,
                        ) && !lists(pending@, x, y) && (!(x == cx && y == cy) || ri < r)
                            ==> #[trigger] settled_since(self.rules(), ri, self.grid@, x, y),
                decreases self.rules.len() - r,
            {
                let ghost before = self.grid@;
                let ghost prior = self.grid;
                let ghost queued = pending@;
                proof {
                    self.grid.lemma_view();
                }
                let affected = self.rules[r].propagate_constraints(&mut self.grid, cx, cy);
                proof {
                    self.grid.lemma_narrowed_from_twice(&prior, &old(self).spec_grid());
                }
                match affected {
                    Ok(mut affected) => {
                        let ghost reported = affected@;
                        pending.append(&mut affected);
                        proof {
                            let after = self.grid@;
                            self.grid.lemma_view();
                            lemma_narrows_twice(after, before, g0);
                            assert(pending@ == queued + reported);
                            if all_exact(self.rules()) {
                                assert(self.rules()[r as int].exact());
                                assert(as_places(pending@) =~= as_places(queued) + as_places(
                                    reported,
                                ));
                                assert(applied(
                                    self.rules(),
                                    r as int,
                                    before,
                                    cx as int,
                                    cy as int,
                                    as_places(queued),
                                ) == applied(
                                    self.rules(),
                                    r as int + 1,
                                    after,
                                    cx as int,
                                    cy as int,
                                    as_places(pending@),
                                ));
                            }
                            assert forall|ri: int, x: int, y: int|
                                0 <= ri < self.rules().len() && in_bounds(after, x, y) && to_settle(
                                    self.rules(),
                                    g0,
                                    after,
                                    starts,
                                    x,
                                    y,
                                ) && !lists(pending@, x, y) && (!(x == cx && y == cy) || ri < r + 1)
                                implies #[trigger] settled_since(self.rules(), ri, after, x, y) by {
                                lemma_lists_add(queued, reported, x, y);
                                assert(in_bounds(before, x, y));
                                assert(after[x][y] == before[x][y]);
                                assert(to_settle(self.rules(), g0, before, starts, x, y));
                                if x == cx && y == cy && ri == r {
                                    lemma_settled_now(self.rules(), ri, after, x, y);
                                } else {
                                    lemma_settled_persists(self.rules(), ri, before, after, x, y);
                                }
                            }
                        }
                    },
                    Err(e) => {
                        self.failed = true;
                        proof {
                            lemma_narrows_twice(self.grid@, before, g0);
                            if all_exact(self.rules()) {
                                assert(self.rules()[r as int].exact());
                                let outcome = Outcome { grid: self.grid@, failure: Some(e) };
                                assert(applied(
                                    self.rules(),
                                    r as int,
                                    before,
                                    cx as int,
                                    cy as int,
                                    as_places(queued),
                                ).failure == Some(e));
                                assert(ends_within(
                                    self.rules(),
                                    g0,
                                    as_places(starts),
                                    outcome,
                                    seen + 1,
                                ));
                            }
                        }
                        return Err(e);
                    },
                }
                r += 1;
            }
            proof {
                seen = seen + 1;
            }
        }
        proof {
            if all_exact(self.rules()) {
                assert(as_places(pending@) =~= Seq::<(int, int)>::empty());
                assert(ends_within(
                    self.rules(),
                    g0,
                    as_places(starts),
                    (Outcome { grid: self.grid@, failure: None }),
                    seen,
                ));
            }
            let last = self.grid@;
            self.grid.lemma_view();
            assert forall|x: int, y: int|
                in_bounds(last, x, y) && to_settle(
                    self.rules(),
                    g0,
                    last,
                    starts,
                    x,
                    y,
                ) implies #[trigger] settled_by_all(self.rules(), last, x, y) by {
                assert(!lists(pending@, x, y));
            }
            if all_settled(self.rules(), g0, starts) {
                assert forall|ri: int, x: int, y: int|
                    0 <= ri < self.rules().len() && in_bounds(last, x, y) && collapsed_at(
                        last,
                        x,
                        y,
                    ) && !lists(Seq::<(usize, usize)>::empty(), x, y)
                    implies #[trigger] settled_since(
                    self.rules(),
                    ri,
                    last,
                    x,
                    y,
                ) by {
                    assert(in_bounds(g0, x, y));
                    if last[x][y] == g0[x][y] && !lists(starts, x, y) {
                        assert(collapsed_at(g0, x, y));
                        assert(settled_by_all(self.rules(), g0, x, y));
                    }
                    assert(to_settle(self.rules(), g0, last, starts, x, y));
                    assert(settled_by_all(self.rules(), last, x, y));
                }
            }
        }
        Ok(())
    }

    /// For every cell that is not collapsed, the key that `entropy` gives
    /// for the weights of its tiles.
    pub fn entropy_keys<F: Fn(&Vec<i32>) -> u64>(&self, entropy: &F) -> (keys: Vec<
        Vec<Option<u64>>,
    >)
        requires
            self.wf(),
            forall|weights: &Vec<i32>| entropy.requires((weights,)),
        ensures
            keyed_by(entropy, self.spec_grid(), keys@),
    {
        let cells = self.grid.get_cells();
        let mut keys: Vec<Vec<Option<u64>>> = Vec::new();
        let mut x: usize = 0;
        while x < cells.len()
            invariant
                x <= cells.len(),
                self.wf(),
                forall|weights: &Vec<i32>| entropy.requires((weights,)),
                cells@.len() == self.spec_grid().spec_width(),
                forall|i: int|
                    0 <= i < cells@.len() ==> (#[trigger] cells@[i])@.len()
                        == self.spec_grid().spec_height(),
                forall|i: int, j: int|
                    self.spec_grid().has(i, j) ==> #[trigger] cells@[i]@[j]
                        == self.spec_grid().cell_at(i, j),
                keys@.len() == x,
                forall|i: int|
                    0 <= i < x ==> (#[trigger] keys@[i])@.len() == self.spec_grid().spec_height(),
                forall|i: int, j: int|
                    0 <= i < x && 0 <= j < self.spec_grid().spec_height() ==> key_fits(
                        entropy,
                        self.spec_grid().cell_at(i, j),
                        #[trigger] keys@[i]@[j],
                    ),
            decreases cells.len() - x,
        {
            let mut column: Vec<Option<u64>> = Vec::new();
            let mut y: usize = 0;
            while y < cells[x].len()
                invariant
                    x < cells.len(),
                    y <= cells@[x as int]@.len(),
                    self.wf(),
                    forall|weights: &Vec<i32>| entropy.requires((weights,)),
                    cells@.len() == self.spec_grid().spec_width(),
                    cells@[x as int]@.len() == self.spec_grid().spec_height(),
                    forall|i: int, j: int|
                        self.spec_grid().has(i, j) ==> #[trigger] cells@[i]@[j]
                            == self.spec_grid().cell_at(i, j),
                    column@.len() == y,
                    forall|j: int|
                        0 <= j < y ==> key_fits(
                            entropy,
                            self.spec_grid().cell_at(x as int, j),
                            #[trigger] column@[j],
                        ),
                decreases cells@[x as int]@.len() - y,
            {
                let cell = &cells[x][y];
                proof {
                    assert(self.spec_grid().has(x as int, y as int));
                    assert(*cell == self.spec_grid().cell_at(x as int, y as int));
                }
                let ghost listed = column@;
                if cell.is_collapsed() {
                    column.push(None);
                } else {
                    let weights = cell.possible_values.weights();
                    let key = entropy(&weights);
                    column.push(Some(key));
                    proof {
                        assert(entropy.ensures((&weights,), key));
                        assert(is_key_of(entropy, *cell, key));
                    }
                }
                proof {
                    assert forall|j: int| 0 <= j < y implies #[trigger] column@[j]
                        == listed[j] by {}
                }
                y += 1;
            }
            keys.push(column);
            x += 1;
        }
        keys
    }

    /// The cell to collapse next: of the cells that are not collapsed, the
    /// first one with the least key, where `entropy` gives the key of a cell
    /// from the weights of its tiles. There is none when every cell is
    /// collapsed.
    pub fn find_lowest_entropy_cell<F: Fn(&Vec<i32>) -> u64>(&self, entropy: &F) -> (place: Option<
        (usize, usize),
    >)
        requires
            self.wf(),
            forall|weights: &Vec<i32>| entropy.requires((weights,)),
        ensures
            place is None <==> self.spec_grid().solved(),
            place matches Some((x, y)) ==> {
                &&& self.spec_grid().has(x as int, y as int)
                &&& !self.spec_grid().cell_at(x as int, y as int).collapsed()
                &&& exists|keys: Seq<Vec<Option<u64>>>|
                    keyed_by(entropy, self.spec_grid(), keys) && #[trigger] is_first_minimum(
                        keys,
                        x as int,
                        y as int,
                    )
            },
    {
        let keys = self.entropy_keys(entropy);
        let place = first_minimum(&keys);
        proof {
            if place is None {
                assert forall|x: int, y: int| self.spec_grid().has(x, y) implies (
                #[trigger] self.spec_grid().cell_at(x, y)).collapsed() by {
                    assert(keys@[x]@[y] is None);
                }
            } else {
                let (x, y) = place->0;
                assert(is_first_minimum(keys@, x as int, y as int));
                assert(keys@[x as int]@[y as int] is Some);
            }
            if self.spec_grid().solved() {
                assert forall|i: int, j: int|
                    0 <= i < keys@.len() && 0 <= j < keys@[i]@.len() implies (
                #[trigger] keys@[i]@[j]) is None by {
                    assert(self.spec_grid().has(i, j));
                    assert(self.spec_grid().cell_at(i, j).collapsed());
                }
            }
        }
        place
    }

    /// After the cell at `(x, y)` alone has lost tiles, every rule is still
    /// settled at every collapsed cell but that one.
    proof fn lemma_settled_but_at(&self, before: &Self, x: usize, y: usize)
        requires
            before.wf(),
            self.wf(),
            self.rules() == before.rules(),
            before.spec_grid().has(x as int, y as int),
            self.spec_grid().same_but_at(&before.spec_grid(), x as int, y as int),
            self.spec_grid().cell_at(x as int, y as int)@.subset_of(
                before.spec_grid().cell_at(x as int, y as int)@,
            ),
        ensures
            narrows(self.spec_grid()@, before.spec_grid()@),
            all_settled(before.rules(), before.spec_grid()@, Seq::empty()) ==> all_settled(
                self.rules(),
                self.spec_grid()@,
                seq![(x, y)],
            ),
    {
        let old_view = before.spec_grid()@;
        let new_view = self.spec_grid()@;
        before.spec_grid().lemma_view();
        self.spec_grid().lemma_view();
        assert forall|i: int, j: int| in_bounds(old_view, i, j) implies (
        #[trigger] new_view[i][j]).subset_of(
            old_view[i][j],
        ) by {
            if !(i == x && j == y) {
                assert(self.spec_grid().cell_at(i, j) == before.spec_grid().cell_at(i, j));
            }
        }
        assert(narrows(new_view, old_view));
        if all_settled(before.rules(), old_view, Seq::empty()) {
            assert forall|r: int, i: int, j: int|
                0 <= r < self.rules().len() && in_bounds(new_view, i, j) && collapsed_at(
                    new_view,
                    i,
                    j,
                ) && !lists(seq![(x, y)], i, j) implies #[trigger] settled_since(
                self.rules(),
                r,
                new_view,
                i,
                j,
            ) by {
                if i == x && j == y {
                    assert(seq![(x, y)][0] == (x, y));
                    assert(lists(seq![(x, y)], i, j));
                }
                assert(self.spec_grid().cell_at(i, j) == before.spec_grid().cell_at(i, j));
                assert(!lists(Seq::<(usize, usize)>::empty(), i, j));
                lemma_settled_persists(self.rules(), r, old_view, new_view, i, j);
            }
        }
    }

    /// Solves the grid: as long as a cell is not collapsed, it collapses the
    /// first cell with the least key, where `entropy` gives the key of a cell
    /// from the weights of its tiles, lets the rules narrow the cells from
    /// there, and shows the grid to the renderer. The first failure ends the
    /// run and leaves the solver failed, with the grid as it then stood: the
    /// failure of a rule, or the refusal of the cell to collapse next, which
    /// holds no tile or tiles whose weights cannot be sampled.
    pub fn run<F: Fn(&Vec<i32>) -> u64>(&mut self, entropy: F) -> (done: Result<(), WfcError>)
        requires
            old(self).wf(),
            forall|weights: &Vec<i32>| entropy.requires((weights,)),
        ensures
            final(self).wf(),
            final(self).same_frame(old(self)),
            final(self).spec_grid().narrowed_from(&old(self).spec_grid()),
            narrows(final(self).spec_grid()@, old(self).spec_grid()@),
            old(self).has_failed() ==> done == Err::<(), WfcError>(WfcError::ContradictionError)
                && final(self).spec_grid() == old(self).spec_grid(),
            !old(self).has_failed() && old(self).spec_grid().solved() ==> done is Ok
                && final(self).spec_grid() == old(self).spec_grid(),
            !old(self).has_failed() && old(self).rules().len() == 0 ==> (done is Ok <==> forall|
                x: int,
                y: int,
            |
                old(self).spec_grid().has(x, y) ==> can_settle(
                    #[trigger] old(self).spec_grid().cell_at(x, y),
                )),
            !old(self).has_failed() && done is Err && final(self).spec_grid().same_cells(
                &old(self).spec_grid(),
            ) ==> stuck(&entropy, old(self).spec_grid(), done),
            !old(self).has_failed() && all_exact(old(self).rules()) ==> exists|
                steps: Seq<Collapse<T>>,
            | #[trigger]
                run_comes_to(
                    &entropy,
                    old(self).rules(),
                    old(self).spec_grid(),
                    steps,
                    final(self).spec_grid(),
                    done,
                ),
            done is Ok ==> final(self).spec_grid().solved(),
            done is Ok <==> !final(self).has_failed(),
            done is Ok && old(self).settled() ==> final(self).settled(),
    {
        proof {
            self.grid.lemma_narrowed_from_self();
        }
        if self.failed {
            proof {
                self.grid.lemma_view();
            }
            return Err(WfcError::ContradictionError);
        }
        let ghost g0 = self.grid@;
        let ghost first = self.grid;
        let ghost promised = self.settled();
        let ghost mut steps: Seq<Collapse<T>> = Seq::empty();
        let ghost mut moved: Option<(int, int)> = None;
        proof {
            self.grid.lemma_view();
        }
        loop
            invariant
                all_exact(self.rules()) ==> well_played(self.rules(), g0, steps) && replayed(
                    self.rules(),
                    g0,
                    steps,
                ) == (Outcome { grid: self.grid@, failure: None }),
                all_exact(self.rules()) ==> well_placed(&entropy, first, self.rules(), steps),
                self.wf(),
                self.same_frame(old(self)),
                self.spec_grid().narrowed_from(&first),
                !self.failed,
                !old(self).has_failed(),
                first == old(self).spec_grid(),
                g0 == first@,
                narrows(self.grid@, g0),
                forall|weights: &Vec<i32>| entropy.requires((weights,)),
                promised == old(self).settled(),
                promised ==> self.settled(),
                first.solved() ==> self.spec_grid() == first,
                self.rules().len() == 0 ==> collapsed_from(self.spec_grid(), first),
                moved is None ==> self.spec_grid() == first,
                moved matches Some(place) ==> {
                    &&& first.has(place.0, place.1)
                    &&& first.cell_at(place.0, place.1).possible_values.order().len() >= 2
                    &&& self.spec_grid().cell_at(place.0, place.1).possible_values.order().len()
                        <= 1
                },
            decreases candidates(self.grid@),
        {
            let ghost before = *self;
            let (x, y) = match self.find_lowest_entropy_cell(&entropy) {
                Some(place) => place,
                None => {
                    proof {
                        if self.rules().len() == 0 {
                            assert forall|i: int, j: int| first.has(i, j) implies can_settle(
                                #[trigger] first.cell_at(i, j),
                            ) by {
                                assert(self.spec_grid().cell_at(i, j).collapsed());
                            }
                        }
                        if all_exact(self.rules()) {
                            assert(run_comes_to(
                                &entropy,
                                old(self).rules(),
                                first,
                                steps,
                                self.spec_grid(),
                                Ok::<(), WfcError>(()),
                            ));
                        }
                    }
                    return Ok(());
                },
            };
            let ghost keys = choose|keys: Seq<Vec<Option<u64>>>|
                keyed_by(&entropy, before.spec_grid(), keys) && #[trigger] is_first_minimum(
                    keys,
                    x as int,
                    y as int,
                );
            let chosen = match self.grid.collapse_cell(x, y, &mut self.source) {
                Ok(tile) => tile,
                Err(e) => {
                    self.failed = true;
                    proof {
                        let left = self.spec_grid();
                        let done = Err::<(), WfcError>(e);
                        assert(self.grid@ =~~= before.grid@);
                        assert(left.same_cells(&before.spec_grid()));
                        assert(keyed_by(&entropy, left, keys));
                        assert(!can_settle(left.cell_at(x as int, y as int)));
                        assert(e == refusal_of(left.cell_at(x as int, y as int)));
                        assert(stuck(&entropy, left, done));
                        if all_exact(self.rules()) {
                            self.grid.lemma_narrowed_from_twice(&before.grid, &first);
                            assert(run_comes_to(
                                &entropy,
                                old(self).rules(),
                                first,
                                steps,
                                left,
                                done,
                            ));
                        }
                        if moved is None {
                            assert(keyed_by(&entropy, first, keys));
                            assert(stuck(&entropy, first, done));
                        } else {
                            let place = moved->0;
                            assert(left.cell_at(place.0, place.1) != first.cell_at(
                                place.0,
                                place.1,
                            ));
                        }
                        if self.rules().len() == 0 {
                            assert(before.spec_grid().cell_at(x as int, y as int) == first.cell_at(
                                x as int,
                                y as int,
                            ));
                            assert(!can_settle(first.cell_at(x as int, y as int)));
                        }
                    }
                    return Err(e);
                },
            };
            let ghost collapsed = *self;
            let ghost longer = steps.push(Collapse { x: x as int, y: y as int, tile: chosen@ });
            proof {
                collapsed.grid.lemma_narrowed_from_twice(&before.grid, &first);
                collapsed.lemma_settled_but_at(&before, x, y);
                lemma_narrows_twice(collapsed.grid@, before.grid@, g0);
                before.grid.lemma_view();
                collapsed.grid.lemma_view();
                collapsed.grid.lemma_view_with_cell(&before.grid, x as int, y as int);
                lemma_with_cell(
                    before.grid@,
                    x as int,
                    y as int,
                    collapsed.grid.cell_at(x as int, y as int)@,
                );
                assert(candidates(collapsed.grid@) < candidates(before.grid@));
                if moved is None {
                    moved = Some((x as int, y as int));
                } else {
                    let place = moved->0;
                    lemma_keeps_order_len(
                        collapsed.grid.cell_at(place.0, place.1),
                        before.grid.cell_at(place.0, place.1),
                    );
                }
            }
            let start: Vec<(usize, usize)> = vec![(x, y)];
            proof {
                assert(start@ =~= seq![(x, y)]);
                assert(start@[0] == (x, y));
                assert(as_places(start@) =~= seq![(x as int, y as int)]);
                assert(longer.drop_last() =~= steps);
                if all_exact(self.rules()) {
                    assert(before.grid@[x as int][y as int].contains(chosen@));
                    assert(!collapsed_at(before.grid@, x as int, y as int));
                    assert(well_played(self.rules(), g0, longer));
                    assert forall|i: int| 0 <= i < longer.len() implies #[trigger] placed_by(
                        &entropy,
                        first,
                        self.rules(),
                        longer,
                        i,
                    ) by {
                        if i < steps.len() {
                            assert(placed_by(&entropy, first, self.rules(), steps, i));
                            let (grid, held) = choose|grid: Grid<T>, held: Seq<Vec<Option<u64>>>|
                             #[trigger]
                                placing(&entropy, first, self.rules(), steps, i, grid, held);
                            assert(longer.take(i) =~= steps.take(i));
                            assert(placing(&entropy, first, self.rules(), longer, i, grid, held));
                        } else {
                            assert(longer.take(i) =~= steps);
                            assert(placing(
                                &entropy,
                                first,
                                self.rules(),
                                longer,
                                i,
                                before.spec_grid(),
                                keys,
                            ));
                        }
                    }
                }
            }
            let spread = self.propagate_all_constraints(start);
            proof {
                lemma_narrows_twice(self.grid@, collapsed.grid@, g0);
                self.grid.lemma_narrowed_from_twice(&collapsed.grid, &first);
                let place = moved->0;
                lemma_keeps_order_len(
                    self.grid.cell_at(place.0, place.1),
                    collapsed.grid.cell_at(place.0, place.1),
                );
                if all_exact(self.rules()) {
                    lemma_propagation_is(
                        self.rules(),
                        collapsed.grid@,
                        seq![(x as int, y as int)],
                        (Outcome { grid: self.grid@, failure: as_failure(spread) }),
                    );
                    assert(replayed(self.rules(), g0, longer) == (Outcome {
                        grid: self.grid@,
                        failure: as_failure(spread),
                    }));
                    steps = longer;
                }
            }
            match spread {
                Ok(()) => {},
                Err(e) => {
                    proof {
                        let left = self.spec_grid();
                        assert(left.cell_at((moved->0).0, (moved->0).1) != first.cell_at(
                            (moved->0).0,
                            (moved->0).1,
                        ));
                        if all_exact(self.rules()) {
                            assert(run_comes_to(
                                &entropy,
                                old(self).rules(),
                                first,
                                steps,
                                left,
                                Err::<(), WfcError>(e),
                            ));
                        }
                    }
                    return Err(e);
                },
            }
            proof {
                collapsed.grid.lemma_view();
                lemma_narrower_grid(self.grid@, collapsed.grid@);
            }
            match &self.renderer {
                Some(renderer) => {
                    renderer.render(&self.grid);
                },
                None => {},
            }
        }
    }

    /// Why `preset_tile` refuses `value` at `(x, y)` before it changes
    /// anything, if it does: the solver has failed, the place lies outside
    /// the grid, the cell is collapsed, or the cell may not take the tile.
    pub open spec fn preset_refusal(&self, value: TileView<T>, x: int, y: int) -> Option<
        WfcError,
    > {
        if self.has_failed() {
            Some(WfcError::ContradictionError)
        } else if !self.spec_grid().has(x, y) {
            Some(WfcError::InvalidCoordinate)
        } else if self.spec_grid().cell_at(x, y).collapsed() {
            Some(WfcError::AlreadyCollapsed)
        } else if !self.spec_grid().cell_at(x, y)@.contains(value) {
            Some(WfcError::ContradictionError)
        } else {
            None
        }
    }

    /// Commits the cell at `(x, y)` to `value`, one of its tiles, and lets
    /// the rules narrow the cells from there; the cell then holds no tile
    /// but `value`. A place outside the grid, a collapsed cell and a tile
    /// that the cell may not take are refused and change nothing. A failure
    /// of a rule leaves the solver failed.
    pub fn preset_tile(&mut self, value: PossibleValue<T>, x: usize, y: usize) -> (done: Result<
        (),
        WfcError,
    >)
        requires
            old(self).wf(),
        ensures
            final(self).wf(),
            final(self).same_frame(old(self)),
            final(self).spec_grid().narrowed_from(&old(self).spec_grid()),
            narrows(final(self).spec_grid()@, old(self).spec_grid()@),
            match old(self).preset_refusal(value@, x as int, y as int) {
                Some(e) => {
                    &&& done == Err::<(), WfcError>(e)
                    &&& final(self).has_failed() == old(self).has_failed()
                    &&& final(self).spec_grid().same_cells(&old(self).spec_grid())
                },
                None => {
                    &&& done is Ok <==> !final(self).has_failed()
                    &&& final(self).spec_grid().cell_at(x as int, y as int)@.subset_of(
                        set![value@],
                    )
                    &&& all_exact(old(self).rules()) ==> propagation_gives(
                        old(self).rules(),
                        with_cell(old(self).spec_grid()@, x as int, y as int, set![value@]),
                        seq![(x as int, y as int)],
                        (Outcome { grid: final(self).spec_grid()@, failure: as_failure(done) }),
                    )
                },
            },
            done is Ok && old(self).settled() ==> final(self).settled(),
    {
        proof {
            self.grid.lemma_view();
            self.grid.lemma_narrowed_from_self();
        }
        if self.failed {
            return Err(WfcError::ContradictionError);
        }
        let ghost before = *self;
        match self.grid.get_cell_mut(x, y) {
            Some(cell) => {
                match cell.collapse_to(&value) {
                    Ok(()) => {},
                    Err(e) => {
                        proof {
                            assert(self.grid@ =~~= before.grid@);
                            lemma_keeps_order_same(self.grid.cell_at(x as int, y as int));
                            self.grid.lemma_narrowed_from_but_at(&before.grid, x as int, y as int);
                        }
                        return Err(e);
                    },
                }
            },
            None => {
                return Err(WfcError::InvalidCoordinate);
            },
        }
        let ghost collapsed = *self;
        let start: Vec<(usize, usize)> = vec![(x, y)];
        proof {
            lemma_single_keeps_order(
                collapsed.grid.cell_at(x as int, y as int),
                before.grid.cell_at(x as int, y as int),
                value@,
            );
            collapsed.grid.lemma_narrowed_from_but_at(&before.grid, x as int, y as int);
            collapsed.lemma_settled_but_at(&before, x, y);
            assert(start@ =~= seq![(x, y)]);
            assert(start@[0] == (x, y));
            assert(as_places(start@) =~= seq![(x as int, y as int)]);
            before.grid.lemma_view();
            collapsed.grid.lemma_view_with_cell(&before.grid, x as int, y as int);
        }
        let spread = self.propagate_all_constraints(start);
        proof {
            lemma_narrows_twice(self.grid@, collapsed.grid@, before.grid@);
            self.grid.lemma_narrowed_from_twice(&collapsed.grid, &before.grid);
            self.grid.lemma_view();
            collapsed.grid.lemma_view();
            assert(in_bounds(collapsed.grid@, x as int, y as int));
            assert(self.grid@[x as int][y as int].subset_of(collapsed.grid@[x as int][y as int]));
        }
        spread
    }

    /// Shows the grid to the renderer, if there is one. Says whether there
    /// is one.
    pub fn debug_render(&self) -> (shown: bool)
        requires
            self.wf(),
        ensures
            shown == self.has_renderer(),
    {
        match &self.renderer {
            Some(renderer) => {
                renderer.render(&self.grid);
                true
            },
            None => false,
        }
    }
}

/// Where a rule that follows the table `graph` has been settled at a place,
/// every cell beside the place holds only tiles that the table permits
/// beside a tile of the place.
pub proof fn lemma_settled_means_permitted<T: TileType, Ru: Rule<T>>(
    rules: Seq<Ru>,
    r: int,
    graph: Adjacency<T>,
    grid: GridView<T>,
    x: int,
    y: int,
)
    requires
        follows_table(rules, r, graph),
        is_rectangular(grid),
        in_bounds(grid, x, y),
        settled_since(rules, r, grid, x, y),
    ensures
        beside_permitted(graph, grid, x, y),
{
    let wider = choose|wider: GridView<T>|
        {
            &&& narrows(grid, wider)
            &&& wider[x][y] == grid[x][y]
            &&& #[trigger] rules[r].settled_at(wider, x, y)
        };
    assert(beside_permitted(graph, wider, x, y));
    assert(wider[0].len() == grid[0].len());
    assert(places_beside(wider, x, y) == places_beside(grid, x, y));
    lemma_neighbors(grid.len() as int, view_height(grid), x, y);
    assert forall|i: int| 0 <= i < places_beside(grid, x, y).len() implies {
        let p = #[trigger] places_beside(grid, x, y)[i];
        grid[p.0][p.1].subset_of(permitted_around(graph, grid[x][y]))
    } by {
        let p = places_beside(wider, x, y)[i];
        assert(wider[p.0][p.1].subset_of(permitted_around(graph, wider[x][y])));
        assert(in_bounds(grid, p.0, p.1)) by {
            assert(grid[p.0].len() == view_height(grid));
        }
        assert(in_bounds(wider, p.0, p.1)) by {
            assert(wider[p.0].len() == grid[p.0].len());
        }
        assert(grid[p.0][p.1].subset_of(wider[p.0][p.1]));
    }
}

/// Adjacency is satisfied: where a solver is settled and one of its rules
/// follows the table `graph`, as every adjacency rule follows its own, two
/// collapsed cells side by side hold tiles `a` and `b` such that the table
/// permits `b` beside `a`.
pub proof fn lemma_settled_neighbors_are_permitted<T: TileType, Ru: Rule<T>, R: Renderer<T>>(
    solver: &WFC<T, Ru, R>,
    r: int,
    graph: Adjacency<T>,
    x: int,
    y: int,
    nx: int,
    ny: int,
    a: TileView<T>,
    b: TileView<T>,
)
    requires
        solver.wf(),
        solver.settled(),
        follows_table(solver.rules(), r, graph),
        solver.spec_grid().has(x, y),
        solver.spec_grid().has(nx, ny),
        adjacent(x, y, nx, ny),
        solver.spec_grid().cell_at(x, y)@ == set![a],
        solver.spec_grid().cell_at(nx, ny)@ == set![b],
    ensures
        permits(graph, a, b),
{
    let grid = solver.spec_grid()@;
    solver.spec_grid().lemma_view();
    assert(grid[x][y] == set![a]);
    assert(grid[nx][ny] == set![b]);
    assert(collapsed_at(grid, x, y));
    assert(!lists(Seq::<(usize, usize)>::empty(), x, y));
    lemma_settled_means_permitted(solver.rules(), r, graph, grid, x, y);
    lemma_adjacent_is_neighbor(grid.len() as int, view_height(grid), x, y, nx, ny);
    let beside = places_beside(grid, x, y);
    let i = choose|i: int| 0 <= i < beside.len() && beside[i] == (nx, ny);
    assert(grid[beside[i].0][beside[i].1].subset_of(permitted_around(graph, grid[x][y])));
    assert(grid[nx][ny].contains(b));
    assert(permitted_around(graph, set![a]).contains(b));
}

/// Keys that fit the cells of two grids that came from one grid and hold
/// the same tiles are the same keys, where `entropy` gives one key for one
/// list of weights.
proof fn lemma_same_keys<T: TileType, F: Fn(&Vec<i32>) -> u64>(
    entropy: &F,
    first: Grid<T>,
    one: Grid<T>,
    keys: Seq<Vec<Option<u64>>>,
    other: Grid<T>,
    held: Seq<Vec<Option<u64>>>,
    x: int,
    y: int,
)
    requires
        gives_one_key(entropy),
        one.wf(),
        other.wf(),
        one.narrowed_from(&first),
        other.narrowed_from(&first),
        one@ == other@,
        keyed_by(entropy, one, keys),
        keyed_by(entropy, other, held),
        one.has(x, y),
    ensures
        keys[x]@[y] == held[x]@[y],
{
    one.lemma_view();
    other.lemma_view();
    assert(one.cell_at(x, y)@ == other.cell_at(x, y)@) by {
        assert(one@[x][y] == other@[x][y]);
    }
    one.lemma_order_is_fixed(&other, &first, x, y);
    assert(key_fits(entropy, one.cell_at(x, y), keys[x]@[y]));
    assert(key_fits(entropy, other.cell_at(x, y), held[x]@[y]));
    if keys[x]@[y] is Some {
        let a = keys[x]@[y]->0;
        let b = held[x]@[y]->0;
        let w1 = choose|weights: Vec<i32>|
            {
                &&& as_ints(weights@) == one.cell_at(x, y).possible_values.spec_weights()
                &&& #[trigger] entropy.ensures((&weights,), a)
            };
        let w2 = choose|weights: Vec<i32>|
            {
                &&& as_ints(weights@) == other.cell_at(x, y).possible_values.spec_weights()
                &&& #[trigger] entropy.ensures((&weights,), b)
            };
        assert(w1@ =~= w2@) by {
            assert(as_ints(w1@).len() == as_ints(w2@).len());
            assert forall|i: int| 0 <= i < w1@.len() implies w1@[i] == w2@[i] by {
                assert(as_ints(w1@)[i] == as_ints(w2@)[i]);
            }
        }
    }
}

/// In two grids that came from one grid and hold the same tiles, the first
/// cell of least key stands at the same place and holds its tiles in the
/// same order, where `entropy` gives one key for one list of weights.
proof fn lemma_same_place<T: TileType, F: Fn(&Vec<i32>) -> u64>(
    entropy: &F,
    first: Grid<T>,
    one: Grid<T>,
    keys: Seq<Vec<Option<u64>>>,
    x: int,
    y: int,
    other: Grid<T>,
    held: Seq<Vec<Option<u64>>>,
    i: int,
    j: int,
)
    requires
        gives_one_key(entropy),
        one.wf(),
        other.wf(),
        one.narrowed_from(&first),
        other.narrowed_from(&first),
        one@ == other@,
        keyed_by(entropy, one, keys),
        keyed_by(entropy, other, held),
        is_first_minimum(keys, x, y),
        is_first_minimum(held, i, j),
    ensures
        x == i,
        y == j,
        one.has(x, y),
        one.cell_at(x, y).possible_values.order() == other.cell_at(x, y).possible_values.order(),
{
    one.lemma_view();
    other.lemma_view();
    assert(one.spec_width() == other.spec_width());
    assert(one.spec_height() == other.spec_height());
    assert forall|a: int, b: int| 0 <= a < keys.len() && 0 <= b < keys[a]@.len() implies (
    #[trigger] keys[a]@[b]) == held[a]@[b] by {
        lemma_same_keys(entropy, first, one, keys, other, held, a, b);
    }
    assert(is_first_minimum(keys, i, j));
    lemma_first_minimum_is_unique(keys, x, y, i, j);
    assert(one.cell_at(x, y)@ == other.cell_at(x, y)@) by {
        assert(one@[x][y] == other@[x][y]);
    }
    one.lemma_order_is_fixed(&other, &first, x, y);
}

/// The tiles that are drawn fix the steps: two runs from one grid under
/// the same rules, each of which collapses the first cell of least key at
/// every step, and which draw the same tiles at their first `n` steps,
/// collapse the same cells at these steps.
pub proof fn lemma_draws_fix_the_steps<T: TileType, Ru: Rule<T>, F: Fn(&Vec<i32>) -> u64>(
    entropy: &F,
    first: Grid<T>,
    rules: Seq<Ru>,
    one: Seq<Collapse<T>>,
    other: Seq<Collapse<T>>,
    n: int,
)
    requires
        gives_one_key(entropy),
        well_placed(entropy, first, rules, one),
        well_placed(entropy, first, rules, other),
        0 <= n <= one.len(),
        n <= other.len(),
        forall|i: int| 0 <= i < n ==> (#[trigger] one[i]).tile == other[i].tile,
    ensures
        one.take(n) == other.take(n),
    decreases n,
{
    if n == 0 {
        assert(one.take(0) =~= other.take(0));
    } else {
        lemma_draws_fix_the_steps(entropy, first, rules, one, other, n - 1);
        let i = n - 1;
        assert(placed_by(entropy, first, rules, one, i));
        assert(placed_by(entropy, first, rules, other, i));
        let (g1, k1) = choose|grid: Grid<T>, keys: Seq<Vec<Option<u64>>>| #[trigger]
            placing(entropy, first, rules, one, i, grid, keys);
        let (g2, k2) = choose|grid: Grid<T>, keys: Seq<Vec<Option<u64>>>| #[trigger]
            placing(entropy, first, rules, other, i, grid, keys);
        lemma_same_place(
            entropy,
            first,
            g1,
            k1,
            one[i].x,
            one[i].y,
            g2,
            k2,
            other[i].x,
            other[i].y,
        );
        assert(one[i] == other[i]);
        assert(one.take(n) =~= one.take(n - 1).push(one[i]));
        assert(other.take(n) =~= other.take(n - 1).push(other[i]));
    }
}

/// Of two runs from one grid under the same rules that draw the same tiles
/// as far as both draw, the second takes no more steps than the first.
proof fn lemma_not_longer<T: TileType, Ru: Rule<T>, F: Fn(&Vec<i32>) -> u64>(
    entropy: &F,
    rules: Seq<Ru>,
    first: Grid<T>,
    one: Seq<Collapse<T>>,
    left_one: Grid<T>,
    done_one: Result<(), WfcError>,
    other: Seq<Collapse<T>>,
    left_other: Grid<T>,
    done_other: Result<(), WfcError>,
)
    requires
        gives_one_key(entropy),
        run_comes_to(entropy, rules, first, one, left_one, done_one),
        run_comes_to(entropy, rules, first, other, left_other, done_other),
        forall|i: int|
            0 <= i < one.len() && i < other.len() ==> (#[trigger] one[i]).tile == other[i].tile,
    ensures
        other.len() <= one.len(),
{
    if one.len() < other.len() {
        let n = one.len() as int;
        lemma_draws_fix_the_steps(entropy, first, rules, one, other, n);
        assert(one.take(n) =~= one);
        lemma_well_played_before(rules, first@, other, n);
        assert(placed_by(entropy, first, rules, other, n));
        let (grid, held) = choose|grid: Grid<T>, held: Seq<Vec<Option<u64>>>| #[trigger]
            placing(entropy, first, rules, other, n, grid, held);
        let x = other[n].x;
        let y = other[n].y;
        assert(grid@ == left_one@);
        assert(key_fits(entropy, grid.cell_at(x, y), held[x]@[y]));
        if done_one is Ok {
            grid.lemma_view();
            left_one.lemma_view();
            assert(left_one.cell_at(x, y)@ == grid.cell_at(x, y)@) by {
                assert(left_one@[x][y] == grid@[x][y]);
            }
            left_one.lemma_order_is_fixed(&grid, &first, x, y);
            assert(left_one.cell_at(x, y).collapsed());
        } else {
            let (keys, i, j) = choose|keys: Seq<Vec<Option<u64>>>, i: int, j: int|
                {
                    &&& keyed_by(entropy, left_one, keys)
                    &&& #[trigger] is_first_minimum(keys, i, j)
                    &&& !can_settle(left_one.cell_at(i, j))
                    &&& done_one == Err::<(), WfcError>(refusal_of(left_one.cell_at(i, j)))
                };
            lemma_same_place(entropy, first, left_one, keys, i, j, grid, held, x, y);
        }
    }
}

/// A run is fixed by its draws: two runs from one grid under the same
/// rules that draw the same tiles as far as both draw take the same steps,
/// leave the same tiles in the same order in every cell, and end alike.
pub proof fn lemma_same_draws_same_run<T: TileType, Ru: Rule<T>, F: Fn(&Vec<i32>) -> u64>(
    entropy: &F,
    rules: Seq<Ru>,
    first: Grid<T>,
    one: Seq<Collapse<T>>,
    left_one: Grid<T>,
    done_one: Result<(), WfcError>,
    other: Seq<Collapse<T>>,
    left_other: Grid<T>,
    done_other: Result<(), WfcError>,
)
    requires
        gives_one_key(entropy),
        run_comes_to(entropy, rules, first, one, left_one, done_one),
        run_comes_to(entropy, rules, first, other, left_other, done_other),
        forall|i: int|
            0 <= i < one.len() && i < other.len() ==> (#[trigger] one[i]).tile == other[i].tile,
    ensures
        one == other,
        done_one == done_other,
        left_one@ == left_other@,
        forall|x: int, y: int|
            left_one.has(x, y) ==> (#[trigger] left_one.cell_at(x, y)).possible_values.order()
                == left_other.cell_at(x, y).possible_values.order(),
{
    lemma_not_longer(
        entropy,
        rules,
        first,
        one,
        left_one,
        done_one,
        other,
        left_other,
        done_other,
    );
    lemma_not_longer(
        entropy,
        rules,
        first,
        other,
        left_other,
        done_other,
        one,
        left_one,
        done_one,
    );
    lemma_draws_fix_the_steps(entropy, first, rules, one, other, one.len() as int);
    assert(one.take(one.len() as int) =~= one);
    assert(other.take(other.len() as int) =~= other);
    left_one.lemma_view();
    left_other.lemma_view();
    assert forall|x: int, y: int| left_one.has(x, y) implies (#[trigger] left_one.cell_at(
        x,
        y,
    )).possible_values.order() == left_other.cell_at(x, y).possible_values.order() by {
        assert(left_one.cell_at(x, y)@ == left_other.cell_at(x, y)@) by {
            assert(left_one@[x][y] == left_other@[x][y]);
        }
        left_one.lemma_order_is_fixed(&left_other, &first, x, y);
    }
    if replayed(rules, first@, one).failure is Some {
        assert(as_failure(done_one) == as_failure(done_other));
        assert(done_one is Err && done_other is Err);
        assert(done_one->Err_0 == done_other->Err_0);
    } else {
        if done_one is Ok && done_other is Ok {
            assert(done_one->Ok_0 == done_other->Ok_0);
        }
        if done_one is Ok && done_other is Err {
            let (keys, i, j) = choose|keys: Seq<Vec<Option<u64>>>, i: int, j: int|
                {
                    &&& keyed_by(entropy, left_other, keys)
                    &&& #[trigger] is_first_minimum(keys, i, j)
                    &&& !can_settle(left_other.cell_at(i, j))
                    &&& done_other == Err::<(), WfcError>(refusal_of(left_other.cell_at(i, j)))
                };
            assert(left_other.has(i, j));
            assert(key_fits(entropy, left_other.cell_at(i, j), keys[i]@[j]));
            assert(left_one.cell_at(i, j).collapsed());
        }
        if done_one is Err && done_other is Ok {
            let (keys, i, j) = choose|keys: Seq<Vec<Option<u64>>>, i: int, j: int|
                {
                    &&& keyed_by(entropy, left_one, keys)
                    &&& #[trigger] is_first_minimum(keys, i, j)
                    &&& !can_settle(left_one.cell_at(i, j))
                    &&& done_one == Err::<(), WfcError>(refusal_of(left_one.cell_at(i, j)))
                };
            assert(left_one.has(i, j));
            assert(key_fits(entropy, left_one.cell_at(i, j), keys[i]@[j]));
            assert(left_other.cell_at(i, j).collapsed());
        }
        if done_one is Err && done_other is Err {
            let (keys, i, j) = choose|keys: Seq<Vec<Option<u64>>>, i: int, j: int|
                {
                    &&& keyed_by(entropy, left_one, keys)
                    &&& #[trigger] is_first_minimum(keys, i, j)
                    &&& !can_settle(left_one.cell_at(i, j))
                    &&& done_one == Err::<(), WfcError>(refusal_of(left_one.cell_at(i, j)))
                };
            let (held, x, y) = choose|held: Seq<Vec<Option<u64>>>, x: int, y: int|
                {
                    &&& keyed_by(entropy, left_other, held)
                    &&& #[trigger] is_first_minimum(held, x, y)
                    &&& !can_settle(left_other.cell_at(x, y))
                    &&& done_other == Err::<(), WfcError>(refusal_of(left_other.cell_at(x, y)))
                };
            lemma_same_place(entropy, first, left_one, keys, i, j, left_other, held, x, y);
        }
    }
}

} // verus!
