//! The rule that keeps beside each cell only what the adjacency table permits.

use crate::adjacency_graph::{permitted_around, permits, Adjacency, AdjacencyGraph};
use crate::grid::{
    as_places, candidates, in_bounds, lemma_filtered_keeps_order, lemma_keeps_order_same,
    lemma_neighbors, lemma_with_cell, narrows, neighbors, view_height, with_cell, Grid, GridView,
};
use crate::possible_values::PossibleValues;
use crate::rules::{as_report, lists, Rule};
use crate::types::{views_of, TileType, TileView, WfcError};
use vstd::prelude::*;

verus! {

/// The places beside `(x, y)` in `grid`.
pub open spec fn places_beside<T>(grid: GridView<T>, x: int, y: int) -> Seq<(int, int)> {
    neighbors(grid.len() as int, view_height(grid), x, y)
}

/// Whether every cell beside `(x, y)` holds only tiles that `graph` permits
/// beside at least one tile of the cell at `(x, y)`.
pub open spec fn beside_permitted<T>(graph: Adjacency<T>, grid: GridView<T>, x: int, y: int)
    -> bool {
    forall|i: int|
        0 <= i < places_beside(grid, x, y).len() ==> {
            let p = #[trigger] places_beside(grid, x, y)[i];
            grid[p.0][p.1].subset_of(permitted_around(graph, grid[x][y]))
        }
}

/// Whether no tile of the cell at `place` is in `allowed`.
pub open spec fn blocked<T>(grid: GridView<T>, place: (int, int), allowed: Set<TileView<T>>)
    -> bool {
    grid[place.0][place.1].intersect(allowed) == Set::<TileView<T>>::empty()
}

/// Whether the cell at `place` holds a tile that is not in `allowed`.
pub open spec fn shrinks<T>(grid: GridView<T>, place: (int, int), allowed: Set<TileView<T>>)
    -> bool {
    grid[place.0][place.1].intersect(allowed) != grid[place.0][place.1]
}

/// `grid` with the cells at the first `n` of `places` narrowed to `allowed`.
pub open spec fn narrowed_beside<T>(
    grid: GridView<T>,
    places: Seq<(int, int)>,
    allowed: Set<TileView<T>>,
    n: int,
) -> GridView<T>
    decreases n,
{
    if n <= 0 {
        grid
    } else {
        let before = narrowed_beside(grid, places, allowed, n - 1);
        let p = places[n - 1];
        with_cell(before, p.0, p.1, before[p.0][p.1].intersect(allowed))
    }
}

/// The first of the first `n` places whose cell is blocked, and `n` where
/// none of them is.
pub open spec fn first_blocked<T>(
    grid: GridView<T>,
    places: Seq<(int, int)>,
    allowed: Set<TileView<T>>,
    n: int,
) -> int
    decreases n,
{
    if n <= 0 {
        0
    } else {
        let before = first_blocked(grid, places, allowed, n - 1);
        if before < n - 1 || blocked(grid, places[n - 1], allowed) {
            before
        } else {
            n
        }
    }
}

/// `k` is the first blocked place of the first `n` where the place `k` is
/// blocked or `k` is `n`, and no place before `k` is blocked.
pub proof fn lemma_first_blocked<T>(
    grid: GridView<T>,
    places: Seq<(int, int)>,
    allowed: Set<TileView<T>>,
    n: int,
    k: int,
)
    requires
        0 <= k <= n,
        k < n ==> blocked(grid, places[k], allowed),
        forall|j: int| 0 <= j < k ==> !blocked(grid, #[trigger] places[j], allowed),
    ensures
        first_blocked(grid, places, allowed, n) == k,
    decreases n,
{
    if n > 0 {
        if k < n {
            lemma_first_blocked(grid, places, allowed, n - 1, k);
        } else {
            lemma_first_blocked(grid, places, allowed, n - 1, n - 1);
        }
    }
}

/// What the adjacency rule of the table `graph` makes of `grid` at
/// `(x, y)`: the cells beside the place are narrowed, in their order, to
/// what the table permits beside a tile of the place, up to the first cell
/// that would be left without a tile. A place outside the grid changes
/// nothing.
pub open spec fn narrowed_by_table<T>(graph: Adjacency<T>, grid: GridView<T>, x: int, y: int)
    -> GridView<T> {
    if in_bounds(grid, x, y) {
        let beside = places_beside(grid, x, y);
        let allowed = permitted_around(graph, grid[x][y]);
        narrowed_beside(
            grid,
            beside,
            allowed,
            first_blocked(grid, beside, allowed, beside.len() as int),
        )
    } else {
        grid
    }
}

/// What the adjacency rule of the table `graph` reports for `grid` at
/// `(x, y)`: the cells beside the place that lose a tile, in their order;
/// a contradiction where one of them would be left without a tile; and an
/// invalid coordinate for a place outside the grid.
pub open spec fn reported_by_table<T>(graph: Adjacency<T>, grid: GridView<T>, x: int, y: int)
    -> Result<Seq<(int, int)>, WfcError> {
    if in_bounds(grid, x, y) {
        let beside = places_beside(grid, x, y);
        let allowed = permitted_around(graph, grid[x][y]);
        if first_blocked(grid, beside, allowed, beside.len() as int) < beside.len() {
            Err(WfcError::ContradictionError)
        } else {
            Ok(beside.filter(|p: (int, int)| shrinks(grid, p, allowed)))
        }
    } else {
        Err(WfcError::InvalidCoordinate)
    }
}

/// Whether the rule at place `r` of `rules`, where it is settled at a
/// place, has left beside that place only what the table `graph` permits.
pub open spec fn follows_table<T: TileType, Ru: Rule<T>>(
    rules: Seq<Ru>,
    r: int,
    graph: Adjacency<T>,
) -> bool {
    &&& 0 <= r < rules.len()
    &&& forall|grid: GridView<T>, x: int, y: int| #[trigger]
        rules[r].settled_at(grid, x, y) ==> beside_permitted(graph, grid, x, y)
}

/// An adjacency rule follows its own table.
pub proof fn lemma_adjacency_rule_follows_its_table<T: TileType>(
    rules: Seq<AdjacencyRule<T>>,
    r: int,
)
    requires
        0 <= r < rules.len(),
    ensures
        follows_table(rules, r, rules[r].graph()),
{
}

/// Narrowing cells to what they hold already leaves the grid as it is.
pub proof fn lemma_narrowed_beside_same<T>(
    grid: GridView<T>,
    places: Seq<(int, int)>,
    allowed: Set<TileView<T>>,
    n: int,
)
    requires
        0 <= n <= places.len(),
        forall|i: int|
            0 <= i < places.len() ==> in_bounds(grid, (#[trigger] places[i]).0, places[i].1)
                && !shrinks(grid, places[i], allowed),
    ensures
        narrowed_beside(grid, places, allowed, n) == grid,
    decreases n,
{
    if n > 0 {
        lemma_narrowed_beside_same(grid, places, allowed, n - 1);
        let p = places[n - 1];
        assert(with_cell(grid, p.0, p.1, grid[p.0][p.1].intersect(allowed)) =~~= grid);
    }
}

/// No further narrowing occurs where the rule is settled: at a place
/// beside which every cell holds a tile, and only tiles that the table
/// permits, the rule changes nothing and reports nothing.
pub proof fn lemma_permitted_is_fixed<T>(graph: Adjacency<T>, grid: GridView<T>, x: int, y: int)
    requires
        in_bounds(grid, x, y),
        beside_permitted(graph, grid, x, y),
        forall|i: int|
            0 <= i < places_beside(grid, x, y).len() ==> {
                let p = #[trigger] places_beside(grid, x, y)[i];
                in_bounds(grid, p.0, p.1) && grid[p.0][p.1] != Set::<TileView<T>>::empty()
            },
    ensures
        narrowed_by_table(graph, grid, x, y) == grid,
        reported_by_table(graph, grid, x, y) == Ok::<Seq<(int, int)>, WfcError>(Seq::empty()),
{
    let beside = places_beside(grid, x, y);
    let allowed = permitted_around(graph, grid[x][y]);
    let keep = |p: (int, int)| shrinks(grid, p, allowed);
    assert forall|i: int| 0 <= i < beside.len() implies in_bounds(
        grid,
        (#[trigger] beside[i]).0,
        beside[i].1,
    ) && !shrinks(grid, beside[i], allowed) && !blocked(grid, beside[i], allowed) by {
        let p = beside[i];
        assert(grid[p.0][p.1].subset_of(allowed));
        assert(grid[p.0][p.1].intersect(allowed) =~= grid[p.0][p.1]);
    }
    lemma_first_blocked(grid, beside, allowed, beside.len() as int, beside.len() as int);
    lemma_narrowed_beside_same(grid, beside, allowed, beside.len() as int);
    crate::types::lemma_filter(beside, keep);
    if beside.filter(keep).len() > 0 {
        let p = beside.filter(keep)[0];
        assert(beside.filter(keep).contains(p));
        let i = choose|i: int| 0 <= i < beside.len() && beside[i] == p;
        assert(!shrinks(grid, beside[i], allowed));
    }
    assert(beside.filter(keep) =~= Seq::<(int, int)>::empty());
}

/// The rule of the adjacency table.
pub struct AdjacencyRule<T: TileType> {
    adjacency_graph: AdjacencyGraph<T>,
}

impl<T: TileType> AdjacencyRule<T> {
    #[verifier::type_invariant]
    spec fn graph_is_wf(self) -> bool {
        self.adjacency_graph.wf()
    }

    /// The table of the rule.
    pub closed spec fn graph(&self) -> Adjacency<T> {
        self.adjacency_graph@
    }

    /// The rule of the table `adjacency_graph`.
    pub fn new(adjacency_graph: AdjacencyGraph<T>) -> (rule: Self)
        requires
            adjacency_graph.wf(),
        ensures
            rule.graph() == adjacency_graph@,
    {
        AdjacencyRule { adjacency_graph }
    }

    /// The table of the rule.
    pub fn adjacency_graph(&self) -> (graph: &AdjacencyGraph<T>)
        ensures
            graph.wf(),
            graph@ == self.graph(),
    {
        proof {
            use_type_invariant(self);
        }
        &self.adjacency_graph
    }

    /// The tiles that the table permits beside at least one tile of `domain`.
    pub fn allowed_beside(&self, domain: &PossibleValues<T>) -> (allowed: PossibleValues<T>)
        ensures
            allowed.wf(),
            allowed@ == permitted_around(self.graph(), domain@),
    {
        proof {
            use_type_invariant(self);
            self.adjacency_graph.lemma_wf_compares_by_value();
        }
        let mut allowed = PossibleValues::new();
        let values = domain.values();
        let mut i: usize = 0;
        while i < values.len()
            invariant
                i <= values.len(),
                self.adjacency_graph.wf(),
                allowed.wf(),
                views_of(values@) == domain.order(),
                allowed@ == permitted_around(self.graph(), domain.order().take(i as int).to_set()),
            decreases values.len() - i,
        {
            let ghost seen = domain.order().take(i as int).to_set();
            let ghost tile = domain.order()[i as int];
            proof {
                assert(values@[i as int]@ == tile);
                assert(domain.order().take(i as int + 1) =~= domain.order().take(i as int).push(
                    tile,
                ));
                domain.order().take(i as int).lemma_push_to_set_commute(tile);
            }
            match self.adjacency_graph.get_valid_neighbors(&values[i]) {
                Some(beside) => {
                    let ghost before = allowed@;
                    allowed.extend(beside);
                    proof {
                        assert(allowed@ =~= permitted_around(self.graph(), seen.insert(tile))) by {
                            assert forall|other: TileView<T>| allowed@.contains(other)
                                <==> permitted_around(self.graph(), seen.insert(tile)).contains(
                                other,
                            ) by {
                                if before.contains(other) {
                                    let from = choose|from: TileView<T>|
                                        seen.contains(from) && permits(self.graph(), from, other);
                                    assert(seen.insert(tile).contains(from));
                                }
                                if beside@.contains(other) {
                                    assert(seen.insert(tile).contains(tile) && permits(
                                        self.graph(),
                                        tile,
                                        other,
                                    ));
                                }
                            }
                        }
                    }
                },
                None => {
                    proof {
                        assert(allowed@ =~= permitted_around(self.graph(), seen.insert(tile))) by {
                            assert forall|other: TileView<T>| allowed@.contains(other)
                                <==> permitted_around(self.graph(), seen.insert(tile)).contains(
                                other,
                            ) by {
                                if allowed@.contains(other) {
                                    let from = choose|from: TileView<T>|
                                        seen.contains(from) && permits(self.graph(), from, other);
                                    assert(seen.insert(tile).contains(from));
                                }
                            }
                        }
                    }
                },
            }
            i += 1;
        }
        proof {
            assert(domain.order().take(i as int) =~= domain.order());
        }
        allowed
    }
}

impl<T: TileType> Rule<T> for AdjacencyRule<T> {
    /// Around a place where the rule has run, every cell beside it holds
    /// only tiles that the table permits beside a tile of the place.
    open spec fn settled_at(&self, grid: GridView<T>, x: int, y: int) -> bool {
        beside_permitted(self.graph(), grid, x, y)
    }

    /// The rule says exactly what it does.
    open spec fn exact(&self) -> bool {
        true
    }

    open spec fn narrowed(&self, grid: GridView<T>, x: int, y: int) -> GridView<T> {
        narrowed_by_table(self.graph(), grid, x, y)
    }

    open spec fn reported(&self, grid: GridView<T>, x: int, y: int) -> Result<
        Seq<(int, int)>,
        WfcError,
    > {
        reported_by_table(self.graph(), grid, x, y)
    }

    /// Narrows each cell beside `(x, y)`, in the order left, right, up,
    /// down, to the tiles that the table permits beside at least one tile of
    /// the cell at `(x, y)`, and reports the cells that lost a tile. It
    /// stops at the first cell that would be left without a tile: that is a
    /// contradiction, and the cells narrowed before it stay narrowed.
    fn propagate_constraints(&self, grid: &mut Grid<T>, x: usize, y: usize) -> (affected: Result<
        Vec<(usize, usize)>,
        WfcError,
    >)
        ensures
            !old(grid).has(x as int, y as int) ==> final(grid).same_cells(old(grid)),
    {
        let ghost g0 = grid@;
        proof {
            grid.lemma_view();
            grid.lemma_narrowed_from_self();
        }
        let allowed = match grid.get_cell(x, y) {
            Some(cell) => self.allowed_beside(&cell.possible_values),
            None => {
                return Err(WfcError::InvalidCoordinate);
            },
        };
        let places = grid.get_valid_coordinates(x, y);
        let ghost beside = places_beside(g0, x as int, y as int);
        let ghost keep = |p: (int, int)| shrinks(g0, p, allowed@);
        proof {
            grid.lemma_narrowed_from_self();
            grid.lemma_view();
            lemma_neighbors(g0.len() as int, view_height(g0), x as int, y as int);
            reveal(Seq::filter);
            assert(beside.take(0) =~= Seq::<(int, int)>::empty());
            assert(as_places(Seq::<(usize, usize)>::empty()) =~= Seq::<(int, int)>::empty());
        }
        let mut affected: Vec<(usize, usize)> = Vec::new();
        let mut i: usize = 0;
        while i < places.len()
            invariant
                i <= places.len(),
                old(grid).wf(),
                old(grid).has(x as int, y as int),
                g0 == old(grid)@,
                beside == places_beside(g0, x as int, y as int),
                as_places(places@) == beside,
                keep == |p: (int, int)| shrinks(g0, p, allowed@),
                allowed.wf(),
                allowed@ == permitted_around(self.graph(), g0[x as int][y as int]),
                beside.no_duplicates(),
                forall|j: int|
                    0 <= j < beside.len() ==> in_bounds(g0, (#[trigger] beside[j]).0, beside[j].1)
                        && beside[j] != (x as int, y as int),
                grid.wf(),
                grid.spec_width() == old(grid).spec_width(),
                grid.spec_height() == old(grid).spec_height(),
                grid.narrowed_from(old(grid)),
                grid@ == narrowed_beside(g0, beside, allowed@, i as int),
                forall|j: int| 0 <= j < i ==> !blocked(g0, #[trigger] beside[j], allowed@),
                as_places(affected@) == beside.take(i as int).filter(keep),
                affected@.len() + candidates(grid@) <= candidates(g0),
                narrows(grid@, g0),
                forall|cx: int, cy: int|
                    in_bounds(g0, cx, cy) && (forall|j: int| 0 <= j < i ==> beside[j] != (cx, cy))
                        ==> #[trigger] grid@[cx][cy] == g0[cx][cy],
                forall|cx: int, cy: int|
                    in_bounds(g0, cx, cy) && #[trigger] grid@[cx][cy] != g0[cx][cy] ==> lists(
                        affected@,
                        cx,
                        cy,
                    ),
                forall|j: int|
                    0 <= j < i ==> grid@[(#[trigger] beside[j]).0][beside[j].1].subset_of(allowed@),
                forall|k: int|
                    0 <= k < affected@.len() ==> in_bounds(
                        g0,
                        (#[trigger] affected@[k]).0 as int,
                        affected@[k].1 as int,
                    ),
            decreases places.len() - i,
        {
            let (nx, ny) = places[i];
            let ghost before = *grid;
            let ghost listed = affected@;
            proof {
                before.lemma_view();
                assert(beside[i as int] == (nx as int, ny as int));
                assert(before@[nx as int][ny as int] == g0[nx as int][ny as int]);
                assert(beside.take(i as int + 1) =~= beside.take(i as int).push(beside[i as int]));
                beside.take(i as int).lemma_filter_push(beside[i as int], keep);
            }
            match grid.get_cell_mut(nx, ny) {
                Some(cell) => {
                    match cell.constrain(&allowed) {
                        Ok(went) => {
                            if went {
                                affected.push((nx, ny));
                            }
                        },
                        Err(e) => {
                            proof {
                                assert(grid.same_cells(&before));
                                assert(grid@ =~~= before@);
                                lemma_keeps_order_same(grid.cell_at(nx as int, ny as int));
                                grid.lemma_narrowed_from_but_at(&before, nx as int, ny as int);
                                grid.lemma_narrowed_from_twice(&before, old(grid));
                                assert(blocked(g0, beside[i as int], allowed@));
                                lemma_first_blocked(
                                    g0,
                                    beside,
                                    allowed@,
                                    beside.len() as int,
                                    i as int,
                                );
                            }
                            return Err(e);
                        },
                    }
                },
                None => {
                    return Err(WfcError::InvalidCoordinate);
                },
            }
            proof {
                let kept = g0[nx as int][ny as int].intersect(allowed@);
                assert(grid.cell_at(nx as int, ny as int)@ == kept);
                lemma_filtered_keeps_order(
                    grid.cell_at(nx as int, ny as int),
                    before.cell_at(nx as int, ny as int),
                    |tile: TileView<T>| allowed@.contains(tile),
                );
                grid.lemma_narrowed_from_but_at(&before, nx as int, ny as int);
                grid.lemma_narrowed_from_twice(&before, old(grid));
                grid.lemma_view_with_cell(&before, nx as int, ny as int);
                lemma_with_cell(before@, nx as int, ny as int, kept);
                vstd::set_lib::lemma_len_intersect(g0[nx as int][ny as int], allowed@);
                if kept != g0[nx as int][ny as int] {
                    if kept.len() == g0[nx as int][ny as int].len() {
                        vstd::set_lib::lemma_subset_equality(kept, g0[nx as int][ny as int]);
                    }
                    assert(affected@ =~= listed.push((nx, ny)));
                    assert(as_places(affected@) =~= as_places(listed).push((nx as int, ny as int)));
                }
                assert(kept.subset_of(g0[nx as int][ny as int]));
                assert forall|cx: int, cy: int|
                    in_bounds(g0, cx, cy) && #[trigger] grid@[cx][cy] != g0[cx][cy] implies lists(
                    affected@,
                    cx,
                    cy,
                ) by {
                    if cx == nx && cy == ny {
                        assert(affected@[affected@.len() - 1] == (nx, ny));
                    } else {
                        assert(before@[cx][cy] != g0[cx][cy]);
                        let k = choose|k: int|
                            0 <= k < listed.len() && (#[trigger] listed[k]).0 == cx && listed[k].1
                                == cy;
                        assert(affected@[k] == listed[k]);
                    }
                }
                assert forall|j: int| 0 <= j < i + 1 implies grid@[(
                #[trigger] beside[j]).0][beside[j].1].subset_of(
                    allowed@,
                ) by {
                    if j < i {
                        assert(beside[j] != beside[i as int]);
                        assert(grid@[beside[j].0][beside[j].1]
                            == before@[beside[j].0][beside[j].1]);
                    }
                }
            }
            i += 1;
        }
        proof {
            assert(beside.take(i as int) =~= beside);
            grid.lemma_view();
            assert(places_beside(grid@, x as int, y as int) == beside);
            assert(grid@[x as int][y as int] == g0[x as int][y as int]);
            lemma_first_blocked(g0, beside, allowed@, beside.len() as int, beside.len() as int);
        }
        Ok(affected)
    }
}

} // verus!
