//! Tiles, the errors of the engine, and the set of tiles a cell may take.

pub use crate::possible_values::PossibleValues;
use std::fmt::Debug;
use std::hash::Hash;
use std::sync::Arc;
use vstd::laws_eq::obeys_concrete_eq;
use vstd::prelude::*;

verus! {

/// What the engine asks of the caller's tile identity: it can be compared,
/// hashed, cloned and printed. The engine's proofs hold for types whose `==`
/// is equality of values (`obeys_concrete_eq`).
pub trait TileType: Eq + Hash + Clone + Debug {

}

/// A tile as the cells share it.
pub type PossibleValue<T> = Arc<Tile<T>>;

/// Why an operation of the engine was refused.
#[derive(Debug, Clone, Copy, PartialEq, Eq, Structural, Hash)]
pub enum WfcError {
    /// A coordinate lies outside the grid.
    InvalidCoordinate,
    /// The cell already holds exactly one tile.
    AlreadyCollapsed,
    /// A cell would be left without any tile.
    ContradictionError,
    /// A cell without tiles was asked to collapse.
    EmptyCandidateSet,
    /// A weight is not positive, or the weights of a cell sum up beyond `i32::MAX`.
    InvalidWeight,
    /// The operating system gave no random bytes to seed the draws.
    EntropyUnavailable,
}

impl WfcError {
    /// A sentence for the error, for messages and logs.
    pub fn message(&self) -> (text: &'static str)
        ensures
            text@ == (match *self {
                WfcError::InvalidCoordinate => "coordinate outside the grid"@,
                WfcError::AlreadyCollapsed => "cell is already collapsed"@,
                WfcError::ContradictionError => "a cell would be left without candidates"@,
                WfcError::EmptyCandidateSet => "no candidates to collapse"@,
                WfcError::InvalidWeight => "weights cannot be sampled"@,
                WfcError::EntropyUnavailable => "no random bytes to seed the draws"@,
            }),
    {
        match self {
            WfcError::InvalidCoordinate => "coordinate outside the grid",
            WfcError::AlreadyCollapsed => "cell is already collapsed",
            WfcError::ContradictionError => "a cell would be left without candidates",
            WfcError::EmptyCandidateSet => "no candidates to collapse",
            WfcError::InvalidWeight => "weights cannot be sampled",
            WfcError::EntropyUnavailable => "no random bytes to seed the draws",
        }
    }
}

/// A tile: the caller's identity for it, a label, and the weight by which it
/// is drawn. The weight of every tile is positive.
#[derive(Debug, PartialEq, Eq, Hash)]
pub struct Tile<T: TileType> {
    id: T,
    name: String,
    weight: i32,
}

/// The mathematical value of a tile.
pub ghost struct TileView<T> {
    pub id: T,
    pub name: Seq<char>,
    pub weight: int,
}

impl<T: TileType> View for Tile<T> {
    type V = TileView<T>;

    closed spec fn view(&self) -> TileView<T> {
        TileView { id: self.id, name: self.name@, weight: self.weight as int }
    }
}

impl<T: TileType> Clone for Tile<T> {
    /// A tile with the same label and weight, and a clone of the identity.
    fn clone(&self) -> (copy: Self)
        ensures
            cloned(self@.id, copy@.id),
            copy@.name == self@.name,
            copy@.weight == self@.weight,
    {
        proof {
            use_type_invariant(self);
        }
        Tile { id: self.id.clone(), name: self.name.clone(), weight: self.weight }
    }
}

impl<T: TileType> Tile<T> {
    #[verifier::type_invariant]
    spec fn weight_is_positive(self) -> bool {
        self.weight > 0
    }

    /// Makes a tile; a weight that is not positive is rejected.
    pub fn new(id: T, name: &str, weight: i32) -> (made: Result<PossibleValue<T>, WfcError>)
        ensures
            match made {
                Ok(tile) => weight > 0 && tile@ == (TileView {
                    id,
                    name: name@,
                    weight: weight as int,
                }),
                Err(e) => weight <= 0 && e == WfcError::InvalidWeight,
            },
    {
        if weight <= 0 {
            return Err(WfcError::InvalidWeight);
        }
        Ok(Arc::new(Tile { id, name: name.to_owned(), weight }))
    }

    /// The caller's identity of the tile.
    pub fn id(&self) -> (id: &T)
        ensures
            *id == self@.id,
    {
        &self.id
    }

    /// The label of the tile.
    pub fn name(&self) -> (name: &String)
        ensures
            name@ == self@.name,
    {
        &self.name
    }

    /// The weight of the tile, which is positive.
    pub fn weight(&self) -> (weight: i32)
        ensures
            weight == self@.weight,
            weight > 0,
    {
        proof {
            use_type_invariant(self);
        }
        self.weight
    }

    /// Whether two tiles have the same identity, label and weight.
    pub fn same(&self, other: &Tile<T>) -> (same: bool)
        requires
            obeys_concrete_eq::<T>(),
        ensures
            same == (self@ == other@),
    {
        proof {
            reveal(obeys_concrete_eq);
        }
        self.weight == other.weight && self.name == other.name && self.id == other.id
    }

    /// Whether the tile carries the label `name`.
    pub fn is_named(&self, name: &str) -> (named: bool)
        ensures
            named == (self@.name == name@),
    {
        let wanted = name.to_owned();
        self.name == wanted
    }
}

/// The mathematical values of a list of tiles.
pub open spec fn views_of<T: TileType>(tiles: Seq<PossibleValue<T>>) -> Seq<TileView<T>> {
    tiles.map_values(|tile: PossibleValue<T>| tile@)
}

/// The weights of a list of tiles.
pub open spec fn weights_of<T>(tiles: Seq<TileView<T>>) -> Seq<int> {
    tiles.map_values(|tile: TileView<T>| tile.weight)
}

/// A list of weights as integers.
pub open spec fn as_ints(weights: Seq<i32>) -> Seq<int> {
    weights.map_values(|w: i32| w as int)
}

/// The sum of a list of weights.
pub open spec fn total_weight(weights: Seq<int>) -> int
    decreases weights.len(),
{
    if weights.len() == 0 {
        0
    } else {
        total_weight(weights.drop_last()) + weights.last()
    }
}

/// Whether a tile can be drawn by weight from `weights`: there is a weight,
/// none is negative, and their sum is positive and fits in an `i32`.
pub open spec fn samplable(weights: Seq<int>) -> bool {
    &&& weights.len() > 0
    &&& forall|i: int| 0 <= i < weights.len() ==> weights[i] >= 0
    &&& 0 < total_weight(weights) <= i32::MAX
}

/// `values` without the later occurrences of a value that it holds twice.
pub open spec fn distinct<A>(values: Seq<A>) -> Seq<A>
    decreases values.len(),
{
    if values.len() == 0 {
        values
    } else {
        let before = distinct(values.drop_last());
        if before.contains(values.last()) {
            before
        } else {
            before.push(values.last())
        }
    }
}

/// `distinct` keeps every value once.
pub proof fn lemma_distinct<A>(values: Seq<A>)
    ensures
        distinct(values).no_duplicates(),
        distinct(values).to_set() == values.to_set(),
        distinct(values).len() <= values.len(),
        values.no_duplicates() ==> distinct(values) == values,
    decreases values.len(),
{
    if values.len() > 0 {
        let rest = values.drop_last();
        let last = values.last();
        lemma_distinct(rest);
        let before = distinct(rest);
        let after = distinct(values);
        assert forall|a: A| after.to_set().contains(a) <==> values.to_set().contains(a) by {
            if after.contains(a) {
                let k = choose|k: int| 0 <= k < after.len() && after[k] == a;
                if k < before.len() {
                    assert(before.contains(a));
                    assert(rest.to_set().contains(a));
                    let j = choose|j: int| 0 <= j < rest.len() && rest[j] == a;
                    assert(values[j] == a);
                } else {
                    assert(values[values.len() - 1] == a);
                }
            }
            if values.contains(a) {
                let j = choose|j: int| 0 <= j < values.len() && values[j] == a;
                if j < rest.len() {
                    assert(rest[j] == a);
                    assert(rest.to_set().contains(a));
                    assert(before.to_set().contains(a));
                    let k = choose|k: int| 0 <= k < before.len() && before[k] == a;
                    assert(after[k] == a);
                } else if !before.contains(last) {
                    assert(after[after.len() - 1] == a);
                }
            }
        }
        assert(after.to_set() =~= values.to_set());
        if values.no_duplicates() {
            assert(rest.no_duplicates());
            if before.contains(last) {
                let j = choose|j: int| 0 <= j < rest.len() && rest[j] == last;
                assert(values[j] == values[values.len() - 1]);
            }
            assert(after =~= values);
        }
    } else {
        assert(distinct(values).to_set() =~= values.to_set());
    }
}

/// What a filter keeps: the values that pass, in their order, none twice
/// where none stood twice, and everything exactly when nothing fails.
pub proof fn lemma_filter<A>(values: Seq<A>, keep: spec_fn(A) -> bool)
    ensures
        forall|a: A| #[trigger] values.filter(keep).contains(a) <==> values.contains(a) && keep(a),
        values.no_duplicates() ==> values.filter(keep).no_duplicates(),
        values.filter(keep).len() <= values.len(),
        values.filter(keep).len() == values.len() ==> values.filter(keep) == values,
    decreases values.len(),
{
    reveal(Seq::filter);
    if values.len() > 0 {
        let rest = values.drop_last();
        let last = values.last();
        lemma_filter(rest, keep);
        let before = rest.filter(keep);
        let after = values.filter(keep);
        assert forall|a: A| #[trigger] after.contains(a) <==> values.contains(a) && keep(a) by {
            if after.contains(a) {
                let k = choose|k: int| 0 <= k < after.len() && after[k] == a;
                if k < before.len() {
                    assert(before.contains(a));
                    let j = choose|j: int| 0 <= j < rest.len() && rest[j] == a;
                    assert(values[j] == a);
                } else {
                    assert(values[values.len() - 1] == a);
                }
            }
            if values.contains(a) && keep(a) {
                let j = choose|j: int| 0 <= j < values.len() && values[j] == a;
                if j < rest.len() {
                    assert(rest[j] == a);
                    assert(before.contains(a));
                    let k = choose|k: int| 0 <= k < before.len() && before[k] == a;
                    assert(after[k] == a);
                } else {
                    assert(after[after.len() - 1] == a);
                }
            }
        }
        if values.no_duplicates() {
            assert(rest.no_duplicates());
            if keep(last) && before.contains(last) {
                let j = choose|j: int| 0 <= j < rest.len() && rest[j] == last;
                assert(values[j] == values[values.len() - 1]);
            }
        }
        if after.len() == values.len() {
            assert(after =~= values);
        }
    }
}

/// A filter that every value passes keeps the whole list.
pub proof fn lemma_all_pass<A>(values: Seq<A>, keep: spec_fn(A) -> bool)
    requires
        forall|i: int| 0 <= i < values.len() ==> keep(#[trigger] values[i]),
    ensures
        values.filter(keep) == values,
    decreases values.len(),
{
    reveal(Seq::filter);
    if values.len() > 0 {
        let rest = values.drop_last();
        assert forall|i: int| 0 <= i < rest.len() implies keep(#[trigger] rest[i]) by {
            assert(rest[i] == values[i]);
        }
        lemma_all_pass(rest, keep);
        assert(keep(values[values.len() - 1]));
        assert(rest.push(values.last()) =~= values);
    }
}

/// Two filters that agree on the values of a list keep the same.
pub proof fn lemma_filter_agree<A>(
    values: Seq<A>,
    keep: spec_fn(A) -> bool,
    other: spec_fn(A) -> bool,
)
    requires
        forall|i: int| 0 <= i < values.len() ==> keep(#[trigger] values[i]) == other(values[i]),
    ensures
        values.filter(keep) == values.filter(other),
    decreases values.len(),
{
    reveal(Seq::filter);
    if values.len() > 0 {
        let rest = values.drop_last();
        assert forall|i: int| 0 <= i < rest.len() implies keep(#[trigger] rest[i]) == other(
            rest[i],
        ) by {
            assert(rest[i] == values[i]);
        }
        lemma_filter_agree(rest, keep, other);
        assert(keep(values[values.len() - 1]) == other(values[values.len() - 1]));
    }
}

/// Filtering what a filter kept keeps what passes both.
pub proof fn lemma_filter_twice<A>(
    values: Seq<A>,
    keep: spec_fn(A) -> bool,
    then: spec_fn(A) -> bool,
)
    ensures
        values.filter(keep).filter(then) == values.filter(|a: A| keep(a) && then(a)),
    decreases values.len(),
{
    reveal(Seq::filter);
    let both = |a: A| keep(a) && then(a);
    if values.len() > 0 {
        let rest = values.drop_last();
        let last = values.last();
        lemma_filter_twice(rest, keep, then);
        if keep(last) {
            rest.filter(keep).lemma_filter_push(last, then);
            assert(values.filter(keep) == rest.filter(keep).push(last));
        }
        assert(values.filter(both) == if both(last) {
            rest.filter(both).push(last)
        } else {
            rest.filter(both)
        });
    } else {
        assert(values.filter(keep) =~= values);
    }
}

/// Of a list without duplicates that holds `value`, a filter that only
/// `value` passes keeps `value` alone.
pub proof fn lemma_filter_one<A>(values: Seq<A>, keep: spec_fn(A) -> bool, value: A)
    requires
        values.no_duplicates(),
        values.contains(value),
        forall|a: A| #[trigger] keep(a) <==> a == value,
    ensures
        values.filter(keep) == seq![value],
    decreases values.len(),
{
    reveal(Seq::filter);
    let rest = values.drop_last();
    let last = values.last();
    assert(rest.no_duplicates());
    if last == value {
        assert forall|i: int| 0 <= i < rest.len() implies !keep(#[trigger] rest[i]) by {
            assert(rest[i] == values[i]);
            assert(values[values.len() - 1] == value);
        }
        lemma_filter(rest, keep);
        if rest.filter(keep).len() > 0 {
            let a = rest.filter(keep)[0];
            assert(rest.filter(keep).contains(a));
            let i = choose|i: int| 0 <= i < rest.len() && rest[i] == a;
            assert(!keep(rest[i]));
        }
        assert(rest.filter(keep) =~= Seq::<A>::empty());
        assert(values.filter(keep) =~= seq![value]);
    } else {
        let i = choose|i: int| 0 <= i < values.len() && values[i] == value;
        assert(rest[i] == value);
        lemma_filter_one(rest, keep, value);
    }
}

} // verus!
