//! What propagation comes to, as a function of the grid, the rules and the
//! places where it starts.

use crate::grid::{collapsed_at, in_bounds, with_cell, GridView};
use crate::rules::Rule;
use crate::types::{TileType, TileView, WfcError};
use vstd::prelude::*;

verus! {

/// Whether every rule of `rules` says exactly what it does.
pub open spec fn all_exact<T: TileType, Ru: Rule<T>>(rules: Seq<Ru>) -> bool {
    forall|r: int| 0 <= r < rules.len() ==> (#[trigger] rules[r]).exact()
}

/// What the rules have come to at one place: the grid they left, the
/// places that wait to be looked at, and the failure of a rule if one failed.
#[verifier::reject_recursive_types(T)]
pub ghost struct Pass<T> {
    pub grid: GridView<T>,
    pub pending: Seq<(int, int)>,
    pub failure: Option<WfcError>,
}

/// What a propagation has come to: the grid it left, and the failure of a
/// rule if one failed.
#[verifier::reject_recursive_types(T)]
pub ghost struct Outcome<T> {
    pub grid: GridView<T>,
    pub failure: Option<WfcError>,
}

/// What the rules from place `r` of `rules` on come to when they run in
/// turn at `(x, y)`: each narrows the grid that the one before it left and
/// puts what it reports behind `pending`; the first failure ends it.
pub open spec fn applied<T: TileType, Ru: Rule<T>>(
    rules: Seq<Ru>,
    r: int,
    grid: GridView<T>,
    x: int,
    y: int,
    pending: Seq<(int, int)>,
) -> Pass<T>
    decreases rules.len() - r,
{
    if r < 0 || r >= rules.len() {
        Pass { grid, pending, failure: None }
    } else {
        let left = rules[r].narrowed(grid, x, y);
        match rules[r].reported(grid, x, y) {
            Ok(places) => applied(rules, r + 1, left, x, y, pending + places),
            Err(e) => Pass { grid: left, pending, failure: Some(e) },
        }
    }
}

/// What propagation comes to within `fuel` places: as long as a place
/// waits, the last one of `pending` is taken and every rule runs there.
pub open spec fn propagated<T: TileType, Ru: Rule<T>>(
    rules: Seq<Ru>,
    grid: GridView<T>,
    pending: Seq<(int, int)>,
    fuel: nat,
) -> Outcome<T>
    decreases fuel, 0int,
{
    if pending.len() == 0 || fuel == 0 {
        Outcome { grid, failure: None }
    } else {
        finished(
            rules,
            applied(rules, 0, grid, pending.last().0, pending.last().1, pending.drop_last()),
            (fuel - 1) as nat,
        )
    }
}

/// What propagation comes to within `fuel` places after the rules have
/// come to `pass` at one place: nothing more after a failure.
pub open spec fn finished<T: TileType, Ru: Rule<T>>(rules: Seq<Ru>, pass: Pass<T>, fuel: nat)
    -> Outcome<T>
    decreases fuel, 1int,
{
    if pass.failure is Some {
        Outcome { grid: pass.grid, failure: pass.failure }
    } else {
        propagated(rules, pass.grid, pass.pending, fuel)
    }
}

/// Whether propagation from the places `start` has come to `outcome`
/// within `enough` places, and stays there however many more it may take.
pub open spec fn ends_within<T: TileType, Ru: Rule<T>>(
    rules: Seq<Ru>,
    grid: GridView<T>,
    start: Seq<(int, int)>,
    outcome: Outcome<T>,
    enough: nat,
) -> bool {
    forall|fuel: nat| fuel >= enough ==> #[trigger] propagated(rules, grid, start, fuel) == outcome
}

/// Whether propagation from the places `start` comes to `outcome`.
pub open spec fn propagation_gives<T: TileType, Ru: Rule<T>>(
    rules: Seq<Ru>,
    grid: GridView<T>,
    start: Seq<(int, int)>,
    outcome: Outcome<T>,
) -> bool {
    exists|enough: nat| #[trigger] ends_within(rules, grid, start, outcome, enough)
}

/// Propagation comes to one outcome only.
pub proof fn lemma_propagation_is_unique<T: TileType, Ru: Rule<T>>(
    rules: Seq<Ru>,
    grid: GridView<T>,
    start: Seq<(int, int)>,
    one: Outcome<T>,
    other: Outcome<T>,
)
    requires
        propagation_gives(rules, grid, start, one),
        propagation_gives(rules, grid, start, other),
    ensures
        one == other,
{
    let n1 = choose|enough: nat| #[trigger] ends_within(rules, grid, start, one, enough);
    let n2 = choose|enough: nat| #[trigger] ends_within(rules, grid, start, other, enough);
    let most = if n1 >= n2 {
        n1
    } else {
        n2
    };
    assert(propagated(rules, grid, start, most) == one);
    assert(propagated(rules, grid, start, most) == other);
}

/// What propagation from the places `start` comes to.
pub open spec fn propagation<T: TileType, Ru: Rule<T>>(
    rules: Seq<Ru>,
    grid: GridView<T>,
    start: Seq<(int, int)>,
) -> Outcome<T> {
    choose|outcome: Outcome<T>| propagation_gives(rules, grid, start, outcome)
}

/// What propagation is seen to come to is what it comes to.
pub proof fn lemma_propagation_is<T: TileType, Ru: Rule<T>>(
    rules: Seq<Ru>,
    grid: GridView<T>,
    start: Seq<(int, int)>,
    outcome: Outcome<T>,
)
    requires
        propagation_gives(rules, grid, start, outcome),
    ensures
        propagation(rules, grid, start) == outcome,
{
    lemma_propagation_is_unique(rules, grid, start, propagation(rules, grid, start), outcome);
}

/// The failure of a step that failed, and nothing for a step that did not.
pub open spec fn as_failure(done: Result<(), WfcError>) -> Option<WfcError> {
    match done {
        Ok(_) => None,
        Err(e) => Some(e),
    }
}

/// One step of a run: the place of the cell that was collapsed, and the
/// tile to which it was collapsed.
pub ghost struct Collapse<T> {
    pub x: int,
    pub y: int,
    pub tile: TileView<T>,
}

/// What a run comes to that collapses the cells of `steps` in turn and
/// propagates from each: the first failure of a rule ends it.
pub open spec fn replayed<T: TileType, Ru: Rule<T>>(
    rules: Seq<Ru>,
    grid: GridView<T>,
    steps: Seq<Collapse<T>>,
) -> Outcome<T>
    decreases steps.len(),
{
    if steps.len() == 0 {
        Outcome { grid, failure: None }
    } else {
        let before = replayed(rules, grid, steps.drop_last());
        if before.failure is Some {
            before
        } else {
            propagation(
                rules,
                with_cell(before.grid, steps.last().x, steps.last().y, set![steps.last().tile]),
                seq![(steps.last().x, steps.last().y)],
            )
        }
    }
}

/// Whether each step of `steps` collapses a cell of the grid that is not
/// collapsed to one of its tiles, no rule having failed before it.
pub open spec fn well_played<T: TileType, Ru: Rule<T>>(
    rules: Seq<Ru>,
    grid: GridView<T>,
    steps: Seq<Collapse<T>>,
) -> bool
    decreases steps.len(),
{
    if steps.len() == 0 {
        true
    } else {
        let before = replayed(rules, grid, steps.drop_last());
        let step = steps.last();
        &&& well_played(rules, grid, steps.drop_last())
        &&& before.failure is None
        &&& in_bounds(before.grid, step.x, step.y)
        &&& before.grid[step.x][step.y].contains(step.tile)
        &&& !collapsed_at(before.grid, step.x, step.y)
    }
}

/// No rule has failed before a step of a run that is well played.
pub proof fn lemma_well_played_before<T: TileType, Ru: Rule<T>>(
    rules: Seq<Ru>,
    grid: GridView<T>,
    steps: Seq<Collapse<T>>,
    i: int,
)
    requires
        well_played(rules, grid, steps),
        0 <= i < steps.len(),
    ensures
        replayed(rules, grid, steps.take(i)).failure is None,
    decreases steps.len(),
{
    if i == steps.len() - 1 {
        assert(steps.take(i) =~= steps.drop_last());
    } else {
        lemma_well_played_before(rules, grid, steps.drop_last(), i);
        assert(steps.drop_last().take(i) =~= steps.take(i));
    }
}

} // verus!
