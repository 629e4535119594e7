//! The set of tiles that a cell may still take.

use crate::types::{
    as_ints, distinct, lemma_distinct, lemma_filter, views_of, weights_of, PossibleValue, TileType,
    TileView,
};
use vstd::laws_eq::obeys_concrete_eq;
use vstd::prelude::*;

verus! {

/// Whether a tile of `tiles` carries the label `name`.
pub open spec fn has_label<T>(tiles: Set<TileView<T>>, name: Seq<char>) -> bool {
    exists|tile: TileView<T>| tiles.contains(tile) && tile.name == name
}

/// A set of tiles. No tile occurs twice in it; two tiles are the same tile
/// when identity, label and weight agree. The tiles keep the order in which
/// they came in.
#[derive(Debug)]
pub struct PossibleValues<T: TileType> {
    items: Vec<PossibleValue<T>>,
}

impl<T: TileType> View for PossibleValues<T> {
    type V = Set<TileView<T>>;

    open spec fn view(&self) -> Set<TileView<T>> {
        self.order().to_set()
    }
}

impl<T: TileType> PossibleValues<T> {
    /// The tiles of the set in their order.
    pub closed spec fn order(&self) -> Seq<TileView<T>> {
        views_of(self.items@)
    }

    /// The set is well formed: no tile occurs twice, and `==` on the tile
    /// identities is equality of values.
    pub open spec fn wf(&self) -> bool {
        &&& obeys_concrete_eq::<T>()
        &&& self.order().no_duplicates()
    }

    /// The weights of the tiles, in the order of the tiles.
    pub open spec fn spec_weights(&self) -> Seq<int> {
        weights_of(self.order())
    }

    /// The set has as many tiles as its order shows.
    pub proof fn lemma_len(&self)
        requires
            self.order().no_duplicates(),
        ensures
            self@.finite(),
            self@.len() == self.order().len(),
    {
        self.order().unique_seq_to_set();
        vstd::seq_lib::seq_to_set_is_finite(self.order());
    }

    /// The empty set.
    pub fn new() -> (made: Self)
        ensures
            made.order() == Seq::<TileView<T>>::empty(),
            made@ == Set::<TileView<T>>::empty(),
            obeys_concrete_eq::<T>() ==> made.wf(),
    {
        let made = PossibleValues { items: Vec::new() };
        proof {
            assert(made.order() =~= Seq::<TileView<T>>::empty());
            assert(made@ =~= Set::<TileView<T>>::empty());
        }
        made
    }

    /// The set that holds `value` alone.
    pub fn singleton(value: PossibleValue<T>) -> (made: Self)
        ensures
            made.order() == seq![value@],
            made@ == set![value@],
            obeys_concrete_eq::<T>() ==> made.wf(),
    {
        let mut items = Vec::new();
        items.push(value);
        let made = PossibleValues { items };
        proof {
            assert(made.order() =~= seq![value@]);
            assert(made.order()[0] == value@);
            assert(made@ =~= set![value@]);
        }
        made
    }

    /// The set of the tiles in `values`, each once, in the order of their
    /// first occurrence.
    pub fn from_vec(values: Vec<PossibleValue<T>>) -> (made: Self)
        requires
            obeys_concrete_eq::<T>(),
        ensures
            made.wf(),
            made.order() == distinct(views_of(values@)),
            made@ == views_of(values@).to_set(),
    {
        let ghost views = views_of(values@);
        let mut made = PossibleValues::new();
        let mut i: usize = 0;
        while i < values.len()
            invariant
                i <= values.len(),
                obeys_concrete_eq::<T>(),
                views == views_of(values@),
                made.wf(),
                made.order() == distinct(views.take(i as int)),
            decreases values.len() - i,
        {
            proof {
                assert(views.take(i as int + 1).drop_last() =~= views.take(i as int));
                assert(views.take(i as int + 1).last() == values@[i as int]@);
            }
            made.insert(values[i].clone());
            i += 1;
        }
        proof {
            assert(views.take(i as int) =~= views);
            lemma_distinct(views);
        }
        made
    }

    /// The number of tiles in the set.
    pub fn len(&self) -> (n: usize)
        ensures
            n == self.order().len(),
            self.wf() ==> n == self@.len(),
    {
        proof {
            if self.wf() {
                self.lemma_len();
            }
        }
        self.items.len()
    }

    /// Whether the set holds no tile.
    pub fn is_empty(&self) -> (empty: bool)
        ensures
            empty == (self.order().len() == 0),
            empty == (self@ == Set::<TileView<T>>::empty()),
    {
        proof {
            if self.order().len() == 0 {
                assert(self@ =~= Set::<TileView<T>>::empty());
            } else {
                assert(self@.contains(self.order()[0]));
            }
        }
        self.items.len() == 0
    }

    /// Whether `value` is in the set.
    pub fn contains(&self, value: &PossibleValue<T>) -> (found: bool)
        requires
            obeys_concrete_eq::<T>(),
        ensures
            found == self@.contains(value@),
    {
        let mut i: usize = 0;
        while i < self.items.len()
            invariant
                i <= self.items.len(),
                obeys_concrete_eq::<T>(),
                forall|j: int| 0 <= j < i ==> self.order()[j] != value@,
            decreases self.items.len() - i,
        {
            if self.items[i].same(value) {
                proof {
                    assert(self.order()[i as int] == value@);
                }
                return true;
            }
            i += 1;
        }
        false
    }

    /// The place of `value` in the order of the set, if it is in the set.
    pub fn position(&self, value: &PossibleValue<T>) -> (place: Option<usize>)
        requires
            obeys_concrete_eq::<T>(),
        ensures
            place is Some <==> self@.contains(value@),
            place matches Some(i) ==> i < self.order().len() && self.order()[i as int] == value@,
    {
        let mut i: usize = 0;
        while i < self.items.len()
            invariant
                i <= self.items.len(),
                obeys_concrete_eq::<T>(),
                forall|j: int| 0 <= j < i ==> self.order()[j] != value@,
            decreases self.items.len() - i,
        {
            if self.items[i].same(value) {
                proof {
                    assert(self.order()[i as int] == value@);
                }
                return Some(i);
            }
            i += 1;
        }
        None
    }

    /// Whether a tile of the set carries the label `name`.
    pub fn contains_name(&self, name: &str) -> (found: bool)
        ensures
            found == has_label(self@, name@),
    {
        let mut i: usize = 0;
        while i < self.items.len()
            invariant
                i <= self.items.len(),
                forall|j: int| 0 <= j < i ==> self.order()[j].name != name@,
            decreases self.items.len() - i,
        {
            if self.items[i].is_named(name) {
                proof {
                    assert(self@.contains(self.order()[i as int]));
                }
                return true;
            }
            i += 1;
        }
        proof {
            if has_label(self@, name@) {
                let tile = choose|tile: TileView<T>| self@.contains(tile) && tile.name == name@;
                let j = choose|j: int| 0 <= j < self.order().len() && self.order()[j] == tile;
                assert(self.order()[j].name != name@);
            }
        }
        false
    }

    /// Puts `value` into the set, behind the others, unless it is there.
    /// Says whether it was put in.
    pub fn insert(&mut self, value: PossibleValue<T>) -> (inserted: bool)
        requires
            old(self).wf(),
        ensures
            final(self).wf(),
            inserted == !old(self)@.contains(value@),
            final(self)@ == old(self)@.insert(value@),
            final(self).order() == if inserted {
                old(self).order().push(value@)
            } else {
                old(self).order()
            },
    {
        if self.contains(&value) {
            proof {
                assert(self@ =~= self@.insert(value@));
            }
            false
        } else {
            self.items.push(value);
            proof {
                assert(self.order() =~= old(self).order().push(value@));
                old(self).order().lemma_push_to_set_commute(value@);
            }
            true
        }
    }

    /// The tile at place `i` of the order.
    pub fn get(&self, i: usize) -> (value: &PossibleValue<T>)
        requires
            i < self.order().len(),
        ensures
            value@ == self.order()[i as int],
    {
        &self.items[i]
    }

    /// The tiles of the set, in their order.
    pub fn values(&self) -> (values: &Vec<PossibleValue<T>>)
        ensures
            views_of(values@) == self.order(),
    {
        &self.items
    }

    /// The weights of the tiles, in the order of the tiles. Each is positive.
    pub fn weights(&self) -> (weights: Vec<i32>)
        ensures
            as_ints(weights@) == self.spec_weights(),
            forall|i: int| 0 <= i < weights@.len() ==> weights@[i] > 0,
    {
        let mut weights: Vec<i32> = Vec::new();
        let mut i: usize = 0;
        while i < self.items.len()
            invariant
                i <= self.items.len(),
                weights@.len() == i,
                forall|j: int| 0 <= j < i ==> weights@[j] == self.order()[j].weight,
                forall|j: int| 0 <= j < i ==> weights@[j] > 0,
            decreases self.items.len() - i,
        {
            let w = self.items[i].weight();
            weights.push(w);
            i += 1;
        }
        proof {
            assert(as_ints(weights@) =~= self.spec_weights());
        }
        weights
    }

    /// The tiles of the set that `allowed` holds too, in their order.
    pub fn intersection(&self, allowed: &PossibleValues<T>) -> (kept: Self)
        requires
            self.wf(),
        ensures
            kept.wf(),
            kept.order() == self.order().filter(|tile: TileView<T>| allowed@.contains(tile)),
            kept@ == self@.intersect(allowed@),
    {
        let ghost keep = |tile: TileView<T>| allowed@.contains(tile);
        let mut kept = PossibleValues { items: Vec::new() };
        let mut i: usize = 0;
        proof {
            reveal(Seq::filter);
            assert(self.order().take(0) =~= Seq::<TileView<T>>::empty());
            assert(kept.order() =~= Seq::<TileView<T>>::empty());
        }
        while i < self.items.len()
            invariant
                i <= self.items.len(),
                obeys_concrete_eq::<T>(),
                keep == |tile: TileView<T>| allowed@.contains(tile),
                kept.order() == self.order().take(i as int).filter(keep),
            decreases self.items.len() - i,
        {
            proof {
                assert(self.order().take(i as int + 1) =~= self.order().take(i as int).push(
                    self.order()[i as int],
                ));
                self.order().take(i as int).lemma_filter_push(self.order()[i as int], keep);
            }
            let ghost before = kept.order();
            if allowed.contains(&self.items[i]) {
                kept.items.push(self.items[i].clone());
                proof {
                    assert(kept.order() =~= before.push(self.order()[i as int]));
                }
            }
            i += 1;
        }
        proof {
            assert(self.order().take(i as int) =~= self.order());
            lemma_filter(self.order(), keep);
            assert(kept@ =~= self@.intersect(allowed@));
        }
        kept
    }

    /// The tiles of the set whose label is none of `names`, in their order.
    pub fn without_names(&self, names: &Vec<&str>) -> (kept: Self)
        requires
            self.wf(),
        ensures
            kept.wf(),
            kept.order() == self.order().filter(
                |tile: TileView<T>| !names@.map_values(|n: &str| n@).contains(tile.name),
            ),
            kept@ == self@.filter(
                |tile: TileView<T>| !names@.map_values(|n: &str| n@).contains(tile.name),
            ),
    {
        let ghost labels = names@.map_values(|n: &str| n@);
        let ghost keep = |tile: TileView<T>| !labels.contains(tile.name);
        let mut kept = PossibleValues { items: Vec::new() };
        let mut i: usize = 0;
        proof {
            reveal(Seq::filter);
            assert(self.order().take(0) =~= Seq::<TileView<T>>::empty());
            assert(kept.order() =~= Seq::<TileView<T>>::empty());
        }
        while i < self.items.len()
            invariant
                i <= self.items.len(),
                labels == names@.map_values(|n: &str| n@),
                keep == |tile: TileView<T>| !labels.contains(tile.name),
                kept.order() == self.order().take(i as int).filter(keep),
            decreases self.items.len() - i,
        {
            proof {
                assert(self.order().take(i as int + 1) =~= self.order().take(i as int).push(
                    self.order()[i as int],
                ));
                self.order().take(i as int).lemma_filter_push(self.order()[i as int], keep);
            }
            let ghost before = kept.order();
            let mut named = false;
            let mut k: usize = 0;
            while k < names.len()
                invariant
                    k <= names.len(),
                    i < self.items.len(),
                    labels == names@.map_values(|n: &str| n@),
                    named == labels.take(k as int).contains(self.order()[i as int].name),
                decreases names.len() - k,
            {
                proof {
                    assert(labels.take(k as int + 1) =~= labels.take(k as int).push(
                        labels[k as int],
                    ));
                    let longer = labels.take(k as int + 1);
                    let shorter = labels.take(k as int);
                    let label = self.order()[i as int].name;
                    if shorter.contains(label) {
                        let j = choose|j: int| 0 <= j < shorter.len() && shorter[j] == label;
                        assert(longer[j] == label);
                    }
                    if longer.contains(label) && labels[k as int] != label {
                        let j = choose|j: int| 0 <= j < longer.len() && longer[j] == label;
                        assert(shorter[j] == label);
                    }
                    if labels[k as int] == label {
                        assert(longer[k as int] == label);
                    }
                }
                if self.items[i].is_named(names[k]) {
                    named = true;
                }
                k += 1;
            }
            proof {
                assert(labels.take(k as int) =~= labels);
            }
            if !named {
                kept.items.push(self.items[i].clone());
                proof {
                    assert(kept.order() =~= before.push(self.order()[i as int]));
                }
            }
            i += 1;
        }
        proof {
            assert(self.order().take(i as int) =~= self.order());
            lemma_filter(self.order(), keep);
            assert(kept@ =~= self@.filter(keep));
        }
        kept
    }

    /// Puts every tile of `other` into the set, behind the tiles it holds.
    pub fn extend(&mut self, other: &PossibleValues<T>)
        requires
            old(self).wf(),
        ensures
            final(self).wf(),
            final(self)@ == old(self)@.union(other@),
            final(self).order() == distinct(old(self).order() + other.order()),
    {
        let mut i: usize = 0;
        proof {
            assert(old(self).order() + other.order().take(0) =~= old(self).order());
            lemma_distinct(old(self).order());
        }
        while i < other.items.len()
            invariant
                i <= other.items.len(),
                self.wf(),
                self.order() == distinct(old(self).order() + other.order().take(i as int)),
            decreases other.items.len() - i,
        {
            proof {
                let shorter = old(self).order() + other.order().take(i as int);
                let longer = old(self).order() + other.order().take(i as int + 1);
                assert(longer.drop_last() =~= shorter);
                assert(longer.last() == other.order()[i as int]);
            }
            self.insert(other.items[i].clone());
            i += 1;
        }
        proof {
            assert(other.order().take(i as int) =~= other.order());
            let all = old(self).order() + other.order();
            lemma_distinct(all);
            vstd::seq_lib::seq_to_set_distributes_over_add(old(self).order(), other.order());
        }
    }
}

impl<T: TileType> Clone for PossibleValues<T> {
    /// A set of its own with the same tiles in the same order.
    fn clone(&self) -> (copy: Self)
        ensures
            copy.order() == self.order(),
            copy@ == self@,
            copy.wf() == self.wf(),
    {
        let mut items: Vec<PossibleValue<T>> = Vec::new();
        let mut i: usize = 0;
        while i < self.items.len()
            invariant
                i <= self.items.len(),
                items@.len() == i,
                forall|j: int| 0 <= j < i ==> items@[j] == self.items@[j],
            decreases self.items.len() - i,
        {
            items.push(self.items[i].clone());
            i += 1;
        }
        let copy = PossibleValues { items };
        proof {
            assert(copy.order() =~= self.order());
        }
        copy
    }
}

} // verus!
