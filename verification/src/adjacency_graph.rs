//! Which tiles may stand beside which.

use crate::possible_values::PossibleValues;
use crate::types::{PossibleValue, TileType, TileView};
use vstd::laws_eq::obeys_concrete_eq;
use vstd::prelude::*;

verus! {

/// For each tile that has an entry, the tiles that may stand beside it.
pub type Adjacency<T> = Map<TileView<T>, Set<TileView<T>>>;

/// The tiles that may stand beside `tile`: those of its entry, and none
/// where it has no entry.
pub open spec fn permitted<T>(graph: Adjacency<T>, tile: TileView<T>) -> Set<TileView<T>> {
    if graph.dom().contains(tile) {
        graph[tile]
    } else {
        Set::empty()
    }
}

/// Whether `other` may stand beside `tile`.
pub open spec fn permits<T>(graph: Adjacency<T>, tile: TileView<T>, other: TileView<T>) -> bool {
    graph.dom().contains(tile) && graph[tile].contains(other)
}

/// `graph` with `to` added to what may stand beside `from`.
pub open spec fn linked<T>(graph: Adjacency<T>, from: TileView<T>, to: TileView<T>) -> Adjacency<
    T,
> {
    graph.insert(from, permitted(graph, from).insert(to))
}

/// `graph` with every tile of `tiles` allowed beside itself.
pub open spec fn self_linked<T>(graph: Adjacency<T>, tiles: Seq<TileView<T>>) -> Adjacency<T>
    decreases tiles.len(),
{
    if tiles.len() == 0 {
        graph
    } else {
        linked(self_linked(graph, tiles.drop_last()), tiles.last(), tiles.last())
    }
}

/// After `to` was allowed beside `from`, a tile may stand beside another
/// exactly when it might before or the two are `to` and `from`.
pub proof fn lemma_linked<T>(
    graph: Adjacency<T>,
    from: TileView<T>,
    to: TileView<T>,
    tile: TileView<T>,
    other: TileView<T>,
)
    ensures
        permits(linked(graph, from, to), tile, other) <==> permits(graph, tile, other) || (tile
            == from && other == to),
{
}

/// After every tile of `tiles` was allowed beside itself, a tile may stand
/// beside another exactly when it might before or the two are one tile of
/// `tiles`.
pub proof fn lemma_self_linked<T>(
    graph: Adjacency<T>,
    tiles: Seq<TileView<T>>,
    tile: TileView<T>,
    other: TileView<T>,
)
    ensures
        permits(self_linked(graph, tiles), tile, other) <==> permits(graph, tile, other) || (tile
            == other && tiles.contains(tile)),
    decreases tiles.len(),
{
    if tiles.len() > 0 {
        let rest = tiles.drop_last();
        lemma_self_linked(graph, rest, tile, other);
        lemma_linked(self_linked(graph, rest), tiles.last(), tiles.last(), tile, other);
        if rest.contains(tile) {
            let i = choose|i: int| 0 <= i < rest.len() && rest[i] == tile;
            assert(tiles[i] == tile);
        }
        if tiles.contains(tile) && tile != tiles.last() {
            let i = choose|i: int| 0 <= i < tiles.len() && tiles[i] == tile;
            assert(rest[i] == tile);
        }
        if tile == tiles.last() {
            assert(tiles[tiles.len() - 1] == tile);
        }
    }
}

/// The tiles that may stand beside at least one tile of `domain`.
pub open spec fn permitted_around<T>(graph: Adjacency<T>, domain: Set<TileView<T>>) -> Set<
    TileView<T>,
> {
    Set::new(
        |other: TileView<T>|
            exists|tile: TileView<T>| domain.contains(tile) && permits(graph, tile, other),
    )
}

/// The table of the tiles that may stand side by side.
#[derive(Debug)]
pub struct AdjacencyGraph<T: TileType> {
    keys: PossibleValues<T>,
    beside: Vec<PossibleValues<T>>,
}

impl<T: TileType> View for AdjacencyGraph<T> {
    type V = Adjacency<T>;

    closed spec fn view(&self) -> Adjacency<T> {
        Map::new(
            |tile: TileView<T>| self.keys@.contains(tile),
            |tile: TileView<T>| self.beside@[self.keys.order().index_of(tile)]@,
        )
    }
}

impl<T: TileType> Clone for AdjacencyGraph<T> {
    /// A table of its own with the same entries.
    fn clone(&self) -> (copy: Self)
        ensures
            self.wf() ==> copy.wf() && copy@ == self@,
    {
        let mut beside: Vec<PossibleValues<T>> = Vec::new();
        let mut i: usize = 0;
        while i < self.beside.len()
            invariant
                i <= self.beside.len(),
                beside@.len() == i,
                forall|j: int|
                    0 <= j < i ==> (#[trigger] beside@[j]).order() == self.beside@[j].order(),
            decreases self.beside.len() - i,
        {
            beside.push(self.beside[i].clone());
            i += 1;
        }
        let copy = AdjacencyGraph { keys: self.keys.clone(), beside };
        proof {
            if self.wf() {
                assert(copy@ =~= self@);
            }
        }
        copy
    }
}

impl<T: TileType> AdjacencyGraph<T> {
    /// The table is well formed: every tile has at most one entry, the
    /// entries are well formed sets, and `==` on the tile identities is
    /// equality of values.
    pub closed spec fn wf(&self) -> bool {
        &&& self.keys.wf()
        &&& self.beside@.len() == self.keys.order().len()
        &&& forall|i: int| 0 <= i < self.beside@.len() ==> (#[trigger] self.beside@[i]).wf()
    }

    /// A well formed table compares tile identities by value.
    pub proof fn lemma_wf_compares_by_value(&self)
        requires
            self.wf(),
        ensures
            obeys_concrete_eq::<T>(),
    {
    }

    /// A table without entries.
    pub fn new() -> (graph: Self)
        ensures
            graph@ == Map::<TileView<T>, Set<TileView<T>>>::empty(),
            obeys_concrete_eq::<T>() ==> graph.wf(),
    {
        let graph = AdjacencyGraph { keys: PossibleValues::new(), beside: Vec::new() };
        proof {
            assert(graph@ =~= Map::<TileView<T>, Set<TileView<T>>>::empty());
        }
        graph
    }

    /// Allows `to` beside `from`.
    fn link(&mut self, from: &PossibleValue<T>, to: &PossibleValue<T>)
        requires
            old(self).wf(),
        ensures
            final(self).wf(),
            final(self)@ == linked(old(self)@, from@, to@),
    {
        match self.keys.position(from) {
            Some(i) => {
                let ghost before = self.beside@[i as int]@;
                proof {
                    assert(self.keys.order().index_of(from@) == i);
                    assert(old(self)@[from@] == before);
                }
                let entry = &mut self.beside[i];
                entry.insert(to.clone());
                proof {
                    assert forall|tile: TileView<T>|
                        self.keys@.contains(tile) implies #[trigger] self@[tile]
                        == linked(old(self)@, from@, to@)[tile] by {
                        let k = self.keys.order().index_of(tile);
                        if tile != from@ {
                            assert(k != i);
                        }
                    }
                    assert(self@ =~= linked(old(self)@, from@, to@));
                }
            },
            None => {
                let ghost n = self.keys.order().len() as int;
                self.keys.insert(from.clone());
                self.beside.push(PossibleValues::singleton(to.clone()));
                proof {
                    assert(self.keys.order()[n] == from@);
                    assert forall|tile: TileView<T>|
                        self.keys@.contains(tile) implies #[trigger] self@[tile]
                        == linked(old(self)@, from@, to@)[tile] by {
                        let k = self.keys.order().index_of(tile);
                        if tile != from@ {
                            assert(old(self).keys@.contains(tile));
                            let k0 = old(self).keys.order().index_of(tile);
                            assert(self.keys.order()[k0] == tile);
                            assert(k == k0);
                        } else {
                            assert(k == n);
                            assert(set![to@] =~= Set::<TileView<T>>::empty().insert(to@));
                        }
                    }
                    assert(self@ =~= linked(old(self)@, from@, to@));
                }
            },
        }
    }

    /// Allows `a` beside itself.
    pub fn add_self_adjacency(&mut self, a: &PossibleValue<T>)
        requires
            old(self).wf(),
        ensures
            final(self).wf(),
            final(self)@ == linked(old(self)@, a@, a@),
    {
        self.link(a, a);
    }

    /// Allows each tile of `a` beside itself.
    pub fn add_self_adjacencies(&mut self, a: Vec<&PossibleValue<T>>)
        requires
            old(self).wf(),
        ensures
            final(self).wf(),
            final(self)@ == self_linked(old(self)@, a@.map_values(|tile: &PossibleValue<T>| tile@)),
    {
        let ghost tiles = a@.map_values(|tile: &PossibleValue<T>| tile@);
        let mut i: usize = 0;
        while i < a.len()
            invariant
                i <= a.len(),
                self.wf(),
                tiles == a@.map_values(|tile: &PossibleValue<T>| tile@),
                self@ == self_linked(old(self)@, tiles.take(i as int)),
            decreases a.len() - i,
        {
            proof {
                assert(tiles.take(i as int + 1).drop_last() =~= tiles.take(i as int));
                assert(tiles.take(i as int + 1).last() == a@[i as int]@);
            }
            self.add_self_adjacency(a[i]);
            i += 1;
        }
        proof {
            assert(tiles.take(i as int) =~= tiles);
        }
    }

    /// Allows `b` beside `a` and `a` beside `b`.
    pub fn add_adjacency(&mut self, a: &PossibleValue<T>, b: &PossibleValue<T>)
        requires
            old(self).wf(),
        ensures
            final(self).wf(),
            final(self)@ == linked(linked(old(self)@, a@, b@), b@, a@),
    {
        self.link(a, b);
        self.link(b, a);
    }

    /// Whether `b` may stand beside `a`. A tile without an entry has no
    /// tile that may stand beside it.
    pub fn is_valid_neighbor(&self, a: &PossibleValue<T>, b: &PossibleValue<T>) -> (valid: bool)
        requires
            self.wf(),
        ensures
            valid == permits(self@, a@, b@),
    {
        match self.get_valid_neighbors(a) {
            Some(beside) => beside.contains(b),
            None => false,
        }
    }

    /// The tiles that may stand beside `tile`, if it has an entry.
    pub fn get_valid_neighbors(&self, tile: &PossibleValue<T>) -> (beside: Option<
        &PossibleValues<T>,
    >)
        requires
            self.wf(),
        ensures
            beside is Some <==> self@.dom().contains(tile@),
            beside matches Some(tiles) ==> tiles.wf() && tiles@ == self@[tile@],
    {
        match self.keys.position(tile) {
            Some(i) => {
                proof {
                    assert(self.keys.order().index_of(tile@) == i);
                }
                Some(&self.beside[i])
            },
            None => None,
        }
    }
}

} // verus!
