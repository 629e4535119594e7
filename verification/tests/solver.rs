use std::cell::Cell as Counter;
use wfc_too::adjacency_graph::AdjacencyGraph;
use wfc_too::grid::Grid;
use wfc_too::possible_values::PossibleValues;
use wfc_too::random::RandomSource;
use wfc_too::rules::adjacency_rule::AdjacencyRule;
use wfc_too::rules::beach_cleanup::BeachCleanupRule;
use wfc_too::rules::Rule;
use wfc_too::traits::{AsciiRenderable, Renderer};
use wfc_too::types::{PossibleValue, Tile, TileType, WfcError};
use wfc_too::wfc::{first_minimum, WFC};

#[derive(Debug, Clone, PartialEq, Eq, Hash)]
enum Terrain {
    Grass,
    Water,
    Beach,
    Hill,
}

impl TileType for Terrain {}

impl AsciiRenderable for Terrain {
    fn get_ascii_representation(&self) -> char {
        match self {
            Terrain::Grass => 'g',
            Terrain::Water => '~',
            Terrain::Beach => '.',
            Terrain::Hill => '^',
        }
    }
}

struct Silent;

impl Renderer<Terrain> for Silent {
    fn render(&self, _grid: &Grid<Terrain>) {}
}

struct Counting {
    calls: Counter<usize>,
}

impl Renderer<Terrain> for Counting {
    fn render(&self, _grid: &Grid<Terrain>) {
        self.calls.set(self.calls.get() + 1);
    }
}

struct Refusing;

impl Rule<Terrain> for Refusing {
    fn propagate_constraints(
        &self,
        _grid: &mut Grid<Terrain>,
        _x: usize,
        _y: usize,
    ) -> Result<Vec<(usize, usize)>, WfcError> {
        Err(WfcError::ContradictionError)
    }
}

fn tile(id: Terrain, name: &str, weight: i32) -> PossibleValue<Terrain> {
    Tile::new(id, name, weight).unwrap()
}

fn grass() -> PossibleValue<Terrain> {
    tile(Terrain::Grass, "Grass", 2)
}

fn water() -> PossibleValue<Terrain> {
    tile(Terrain::Water, "Water", 2)
}

fn beach() -> PossibleValue<Terrain> {
    tile(Terrain::Beach, "Beach", 1)
}

fn hill() -> PossibleValue<Terrain> {
    tile(Terrain::Hill, "Hill", 2)
}

fn set(tiles: Vec<PossibleValue<Terrain>>) -> PossibleValues<Terrain> {
    PossibleValues::from_vec(tiles)
}

fn shore() -> AdjacencyGraph<Terrain> {
    let mut graph = AdjacencyGraph::new();
    graph.add_self_adjacencies(vec![&grass(), &water(), &beach(), &hill()]);
    graph.add_adjacency(&grass(), &beach());
    graph.add_adjacency(&beach(), &water());
    graph
}

fn shannon_entropy(weights: &Vec<i32>) -> f64 {
    let total: f64 = weights.iter().map(|w| *w as f64).sum();
    if total == 0.0 {
        return 0.0;
    }
    weights
        .iter()
        .map(|w| {
            let p = *w as f64 / total;
            -p * p.log2()
        })
        .sum()
}

fn entropy_key(weights: &Vec<i32>) -> u64 {
    let entropy = shannon_entropy(weights);
    if entropy > 0.0 {
        entropy.to_bits()
    } else {
        0
    }
}

fn value_at(grid: &Grid<Terrain>, x: usize, y: usize) -> Option<PossibleValue<Terrain>> {
    grid.get_cell(x, y).unwrap().get_collapsed_value()
}

fn tiles_at(grid: &Grid<Terrain>, x: usize, y: usize) -> Vec<String> {
    grid.get_cell(x, y).unwrap().possible_values.values().iter().map(|t| t.name().clone()).collect()
}

fn picture(grid: &Grid<Terrain>) -> Vec<Vec<char>> {
    grid.get_cells()
        .iter()
        .map(|column| {
            column
                .iter()
                .map(|cell| match cell.get_collapsed_value() {
                    Some(tile) => tile.id().get_ascii_representation(),
                    None => '#',
                })
                .collect()
        })
        .collect()
}

fn shore_solver(width: usize, height: usize, seed: u64) -> WFC<Terrain, AdjacencyRule<Terrain>, Silent> {
    let rules = vec![AdjacencyRule::new(shore())];
    let mut solver =
        WFC::new(width, height, set(vec![beach(), grass(), water(), hill()]), rules, None).unwrap();
    solver.reseed(seed);
    solver
}

#[test]
fn entropy_keys_order_as_the_entropies_do() {
    assert_eq!(entropy_key(&vec![5]), 0);
    assert_eq!(entropy_key(&vec![]), 0);
    assert!((shannon_entropy(&vec![1, 1]) - 1.0).abs() < 1e-12);
    assert!((shannon_entropy(&vec![3, 3, 3, 3]) - 2.0).abs() < 1e-12);
    assert!((shannon_entropy(&vec![7; 8]) - 3.0).abs() < 1e-12);
    assert!(entropy_key(&vec![1, 1]) < entropy_key(&vec![1, 1, 1]));
    assert!(entropy_key(&vec![9, 1]) < entropy_key(&vec![1, 1]));
}

#[test]
fn first_minimum_takes_the_first_of_the_least_keys() {
    assert_eq!(first_minimum(&vec![]), None);
    assert_eq!(first_minimum(&vec![vec![], vec![]]), None);
    assert_eq!(first_minimum(&vec![vec![None, None], vec![None, None]]), None);
    assert_eq!(first_minimum(&vec![vec![None, Some(9)], vec![Some(9), None]]), Some((0, 1)));
    assert_eq!(first_minimum(&vec![vec![Some(4), Some(2)], vec![Some(2), Some(1)]]), Some((1, 1)));
    assert_eq!(first_minimum(&vec![vec![Some(3), Some(3)], vec![Some(3), Some(3)]]), Some((0, 0)));
    assert_eq!(first_minimum(&vec![vec![Some(u64::MAX)], vec![Some(0)], vec![Some(0)]]), Some((1, 0)));
    assert_eq!(first_minimum(&vec![vec![None, None, Some(u64::MAX)]]), Some((0, 2)));
}

#[test]
fn lowest_entropy_cell_is_the_first_least_uncertain_one() {
    let mut solver = shore_solver(3, 2, 1);
    assert_eq!(solver.find_lowest_entropy_cell(&entropy_key), Some((0, 0)));
    assert_eq!(solver.preset_tile(water(), 2, 1), Ok(()));
    assert_eq!(tiles_at(solver.grid(), 2, 0), vec!["Beach", "Water"]);
    assert_eq!(tiles_at(solver.grid(), 1, 1), vec!["Beach", "Water"]);
    assert_eq!(solver.find_lowest_entropy_cell(&entropy_key), Some((1, 1)));
    let keys = solver.entropy_keys(&entropy_key);
    assert_eq!(keys.len(), 3);
    assert_eq!(keys[2][1], None);
    assert_eq!(keys[1][1], Some(entropy_key(&vec![1, 2])));
    assert_eq!(keys[0][0], Some(entropy_key(&vec![1, 2, 2])));
    assert_eq!(tiles_at(solver.grid(), 0, 0), vec!["Beach", "Grass", "Water"]);
    let count = |weights: &Vec<i32>| weights.len() as u64;
    assert_eq!(solver.find_lowest_entropy_cell(&count), Some((1, 1)));
}

#[test]
fn trivial_grid_is_solved_with_one_collapsed_cell() {
    let a = tile(Terrain::Grass, "A", 1);
    let b = tile(Terrain::Water, "B", 1);
    for seed in 0..20u64 {
        let rules: Vec<AdjacencyRule<Terrain>> = vec![];
        let mut solver: WFC<Terrain, AdjacencyRule<Terrain>, Silent> =
            WFC::new(1, 1, set(vec![a.clone(), b.clone()]), rules, None).unwrap();
        solver.reseed(seed);
        assert_eq!(solver.run(entropy_key), Ok(()));
        assert!(!solver.is_failed());
        assert_eq!(solver.grid().get_cells().len(), 1);
        assert_eq!(solver.grid().get_cells()[0].len(), 1);
        let value = value_at(solver.grid(), 0, 0).unwrap();
        assert!(value.same(&a) || value.same(&b));
    }
}

#[test]
fn trivial_grid_is_solved_without_a_seed_too() {
    let rules: Vec<BeachCleanupRule> = vec![];
    let mut solver: WFC<Terrain, BeachCleanupRule, Silent> =
        WFC::new(1, 1, set(vec![grass(), water()]), rules, None).unwrap();
    assert_eq!(solver.run(entropy_key), Ok(()));
    assert!(value_at(solver.grid(), 0, 0).is_some());
}

#[test]
fn presets_that_may_not_be_neighbors_are_a_contradiction() {
    let a = tile(Terrain::Grass, "A", 1);
    let b = tile(Terrain::Water, "B", 1);
    let rules = vec![AdjacencyRule::new(AdjacencyGraph::new())];
    let mut solver: WFC<Terrain, AdjacencyRule<Terrain>, Silent> =
        WFC::new(1, 2, set(vec![a.clone(), b.clone()]), rules, None).unwrap();
    assert_eq!(solver.preset_tile(a.clone(), 0, 0), Err(WfcError::ContradictionError));
    assert!(solver.is_failed());
    assert_eq!(solver.preset_tile(b.clone(), 0, 1), Err(WfcError::ContradictionError));
    assert_eq!(solver.run(entropy_key), Err(WfcError::ContradictionError));
    assert!(value_at(solver.grid(), 0, 0).unwrap().same(&a));
    assert_eq!(tiles_at(solver.grid(), 0, 1), vec!["A", "B"]);
}

#[test]
fn presets_apart_from_each_other_meet_in_a_contradiction() {
    let a = tile(Terrain::Grass, "A", 1);
    let b = tile(Terrain::Water, "B", 1);
    let mut graph = AdjacencyGraph::new();
    graph.add_self_adjacency(&a);
    graph.add_self_adjacency(&b);
    let mut grid = Grid::new(1, 2, set(vec![a.clone(), b.clone()]));
    grid.get_cell_mut(0, 0).unwrap().collapse_to(&a).unwrap();
    grid.get_cell_mut(0, 1).unwrap().collapse_to(&b).unwrap();
    let rule = AdjacencyRule::new(graph);
    assert_eq!(rule.propagate_constraints(&mut grid, 0, 0), Err(WfcError::ContradictionError));
    assert!(value_at(&grid, 0, 0).unwrap().same(&a));
    assert!(value_at(&grid, 0, 1).unwrap().same(&b));
}

#[test]
fn preset_water_takes_grass_away_from_the_cells_beside() {
    let water = tile(Terrain::Water, "Water", 1);
    let grass = tile(Terrain::Grass, "Grass", 1);
    let mut graph = AdjacencyGraph::new();
    graph.add_self_adjacency(&water);
    graph.add_self_adjacency(&grass);
    let rules = vec![AdjacencyRule::new(graph)];
    let mut solver: WFC<Terrain, AdjacencyRule<Terrain>, Silent> =
        WFC::new(5, 5, set(vec![water.clone(), grass.clone()]), rules, None).unwrap();
    assert_eq!(solver.preset_tile(water.clone(), 0, 0), Ok(()));
    assert!(!solver.is_failed());
    for (x, y) in [(1, 0), (0, 1)] {
        let cell = solver.grid().get_cell(x, y).unwrap();
        assert!(!cell.possible_values.contains(&grass));
        assert!(cell.possible_values.contains(&water));
    }
    for x in 0..5 {
        for y in 0..5 {
            assert!(value_at(solver.grid(), x, y).unwrap().same(&water));
        }
    }
    assert_eq!(solver.run(entropy_key), Ok(()));
}

#[test]
fn preset_refuses_what_it_cannot_do() {
    let mut solver = shore_solver(2, 2, 3);
    assert_eq!(solver.preset_tile(grass(), 2, 0), Err(WfcError::InvalidCoordinate));
    assert_eq!(solver.preset_tile(grass(), 0, 2), Err(WfcError::InvalidCoordinate));
    assert_eq!(
        solver.preset_tile(tile(Terrain::Grass, "Moss", 2), 0, 0),
        Err(WfcError::ContradictionError)
    );
    assert!(!solver.is_failed());
    assert_eq!(tiles_at(solver.grid(), 0, 0), vec!["Beach", "Grass", "Water", "Hill"]);
    assert_eq!(solver.preset_tile(grass(), 0, 0), Ok(()));
    assert_eq!(solver.preset_tile(beach(), 0, 0), Err(WfcError::AlreadyCollapsed));
    assert!(!solver.is_failed());
    assert_eq!(tiles_at(solver.grid(), 1, 0), vec!["Beach", "Grass"]);
    assert_eq!(tiles_at(solver.grid(), 1, 1), vec!["Beach", "Grass", "Water"]);
}

#[test]
fn solved_grid_has_only_permitted_neighbors() {
    let graph = shore();
    for seed in 0..25u64 {
        let mut solver = shore_solver(6, 5, seed);
        match solver.run(entropy_key) {
            Ok(()) => {
                let grid = solver.grid();
                for x in 0..6 {
                    for y in 0..5 {
                        let here = value_at(grid, x, y).unwrap();
                        for (nx, ny) in grid.get_valid_coordinates(x, y) {
                            let there = value_at(grid, nx, ny).unwrap();
                            assert!(graph.is_valid_neighbor(&here, &there));
                        }
                    }
                }
            }
            Err(e) => {
                assert_eq!(e, WfcError::ContradictionError);
                assert!(solver.is_failed());
            }
        }
    }
}

#[test]
fn runs_repeat_under_the_same_seed() {
    for seed in [0u64, 1, 17, 4242] {
        let mut first = shore_solver(7, 4, seed);
        let mut second = shore_solver(7, 4, seed);
        let a = first.run(entropy_key);
        let b = second.run(entropy_key);
        assert_eq!(a, b);
        assert_eq!(picture(first.grid()), picture(second.grid()));
        for x in 0..7 {
            for y in 0..4 {
                assert_eq!(tiles_at(first.grid(), x, y), tiles_at(second.grid(), x, y));
            }
        }
    }
}

#[test]
fn runs_differ_between_seeds() {
    let mut pictures = Vec::new();
    for seed in 0..12u64 {
        let mut solver = shore_solver(6, 6, seed);
        let _ = solver.run(entropy_key);
        pictures.push(picture(solver.grid()));
    }
    assert!(pictures.iter().any(|p| *p != pictures[0]));
}

#[test]
fn run_on_a_solved_grid_changes_nothing() {
    let mut solver = shore_solver(2, 2, 8);
    assert_eq!(solver.preset_tile(hill(), 0, 0), Ok(()));
    assert_eq!(solver.run(entropy_key), Ok(()));
    let before = picture(solver.grid());
    assert_eq!(before, vec![vec!['^', '^'], vec!['^', '^']]);
    assert_eq!(solver.run(entropy_key), Ok(()));
    assert_eq!(picture(solver.grid()), before);
}

#[test]
fn run_with_an_empty_cell_fails() {
    let rules: Vec<AdjacencyRule<Terrain>> = vec![];
    let mut solver: WFC<Terrain, AdjacencyRule<Terrain>, Silent> =
        WFC::new(2, 1, set(vec![]), rules, None).unwrap();
    assert_eq!(solver.run(entropy_key), Err(WfcError::EmptyCandidateSet));
    assert!(solver.is_failed());
    assert_eq!(solver.run(entropy_key), Err(WfcError::ContradictionError));
    assert_eq!(solver.propagate_all_constraints(vec![]), Err(WfcError::ContradictionError));
}

#[test]
fn run_on_a_grid_without_cells_succeeds() {
    let mut solver = shore_solver(0, 0, 8);
    assert_eq!(solver.run(entropy_key), Ok(()));
    let mut flat = shore_solver(3, 0, 8);
    assert_eq!(flat.run(entropy_key), Ok(()));
}

#[test]
fn error_of_a_rule_ends_the_run() {
    let mut solver: WFC<Terrain, Refusing, Silent> =
        WFC::new(2, 2, set(vec![grass(), water()]), vec![Refusing], None).unwrap();
    solver.reseed(11);
    assert_eq!(solver.run(entropy_key), Err(WfcError::ContradictionError));
    assert!(solver.is_failed());
    let collapsed = (0..2)
        .flat_map(|x| (0..2).map(move |y| (x, y)))
        .filter(|(x, y)| value_at(solver.grid(), *x, *y).is_some())
        .count();
    assert_eq!(collapsed, 1);
}

#[test]
fn propagation_goes_on_from_the_reported_cells() {
    let mut graph = AdjacencyGraph::new();
    graph.add_self_adjacencies(vec![&grass(), &water(), &beach()]);
    graph.add_adjacency(&grass(), &beach());
    graph.add_adjacency(&beach(), &water());
    let rules = vec![AdjacencyRule::new(graph)];
    let mut solver: WFC<Terrain, AdjacencyRule<Terrain>, Silent> =
        WFC::new(4, 1, set(vec![grass(), water(), beach()]), rules, None).unwrap();
    assert_eq!(solver.preset_tile(water(), 0, 0), Ok(()));
    assert_eq!(tiles_at(solver.grid(), 1, 0), vec!["Water", "Beach"]);
    assert_eq!(tiles_at(solver.grid(), 2, 0), vec!["Grass", "Water", "Beach"]);
    assert_eq!(solver.propagate_all_constraints(vec![(1, 0), (3, 0)]), Ok(()));
    assert_eq!(solver.propagate_all_constraints(vec![(4, 0)]), Err(WfcError::InvalidCoordinate));
    assert!(!solver.is_failed());
    assert_eq!(solver.propagate_all_constraints(vec![]), Ok(()));
}

#[test]
fn rules_of_different_kinds_run_in_one_list() {
    let rules: Vec<Box<dyn Rule<Terrain>>> =
        vec![Box::new(AdjacencyRule::new(shore())), Box::new(BeachCleanupRule)];
    let mut solver: WFC<Terrain, Box<dyn Rule<Terrain>>, Silent> =
        WFC::new(3, 1, set(vec![beach(), grass(), hill()]), rules, None).unwrap();
    solver.reseed(5);
    assert_eq!(solver.preset_tile(hill(), 0, 0), Ok(()));
    assert_eq!(tiles_at(solver.grid(), 1, 0), vec!["Hill"]);
    assert_eq!(tiles_at(solver.grid(), 2, 0), vec!["Hill"]);
    let both: Vec<Box<dyn Rule<Terrain>>> =
        vec![Box::new(AdjacencyRule::new(shore())), Box::new(BeachCleanupRule)];
    let mut beachless: WFC<Terrain, Box<dyn Rule<Terrain>>, Silent> =
        WFC::new(2, 1, set(vec![beach(), grass()]), both, None).unwrap();
    assert_eq!(beachless.propagate_all_constraints(vec![(0, 0)]), Ok(()));
    assert_eq!(tiles_at(beachless.grid(), 0, 0), vec!["Grass"]);
    assert_eq!(tiles_at(beachless.grid(), 1, 0), vec!["Beach", "Grass"]);
}

#[test]
fn renderer_sees_every_step() {
    let rules = vec![AdjacencyRule::new(shore())];
    let renderer = Counting { calls: Counter::new(0) };
    let mut solver: WFC<Terrain, AdjacencyRule<Terrain>, Counting> =
        WFC::new(1, 3, set(vec![grass(), hill()]), rules, Some(renderer)).unwrap();
    solver.reseed(1);
    assert!(solver.debug_render());
    assert_eq!(solver.run(entropy_key), Ok(()));
    assert!(solver.debug_render());
    let silent = shore_solver(1, 1, 1);
    assert!(!silent.debug_render());
}

#[test]
fn grid_that_starts_collapsed_is_taken_as_solved() {
    let a = tile(Terrain::Grass, "A", 1);
    let rules = vec![AdjacencyRule::new(AdjacencyGraph::new())];
    let mut solver: WFC<Terrain, AdjacencyRule<Terrain>, Silent> =
        WFC::new(1, 2, set(vec![a.clone()]), rules, None).unwrap();
    assert_eq!(solver.run(entropy_key), Ok(()));
    assert!(value_at(solver.grid(), 0, 0).unwrap().same(&a));
    assert!(value_at(solver.grid(), 0, 1).unwrap().same(&a));
    assert_eq!(
        solver.propagate_all_constraints(vec![(0, 0), (0, 1)]),
        Err(WfcError::ContradictionError)
    );
    assert!(solver.is_failed());
}

#[test]
fn reseed_gives_the_solver_a_source_of_that_seed() {
    let rules = vec![AdjacencyRule::new(shore())];
    let mut solver: WFC<Terrain, AdjacencyRule<Terrain>, Silent> =
        WFC::new(3, 3, set(vec![beach(), grass(), water(), hill()]), rules, None).unwrap();
    assert_eq!(solver.seed(), None);
    solver.reseed(41);
    assert_eq!(solver.seed(), Some(41));
    assert_eq!(tiles_at(solver.grid(), 1, 1), vec!["Beach", "Grass", "Water", "Hill"]);
    assert!(!solver.is_failed());
    let _ = solver.run(entropy_key);
    assert_eq!(solver.seed(), Some(41));
    let first = picture(solver.grid());
    let mut again = shore_solver(3, 3, 41);
    let _ = again.run(entropy_key);
    assert_eq!(picture(again.grid()), first);
    solver.reseed(42);
    assert_eq!(solver.seed(), Some(42));
}

#[test]
fn debug_render_says_whether_there_is_a_renderer() {
    let with: WFC<Terrain, AdjacencyRule<Terrain>, Counting> = WFC::new(
        1,
        1,
        set(vec![grass(), hill()]),
        vec![AdjacencyRule::new(shore())],
        Some(Counting { calls: Counter::new(0) }),
    ).unwrap();
    assert!(with.debug_render());
    let mut without = shore_solver(2, 2, 3);
    assert!(!without.debug_render());
    without.reseed(9);
    assert!(!without.debug_render());
    let _ = without.run(entropy_key);
    assert!(!without.debug_render());
}

#[test]
fn solver_with_a_source_draws_from_it() {
    let make = |seed: u64| -> WFC<Terrain, AdjacencyRule<Terrain>, Silent> {
        WFC::with_source(
            5,
            4,
            set(vec![beach(), grass(), water(), hill()]),
            vec![AdjacencyRule::new(shore())],
            None,
            RandomSource::from_seed(seed),
        )
    };
    let mut first = make(77);
    let mut second = make(77);
    assert_eq!(first.seed(), Some(77));
    assert!(!first.is_failed());
    assert_eq!(first.grid().width(), 5);
    assert_eq!(first.grid().height(), 4);
    assert_eq!(tiles_at(first.grid(), 4, 3), vec!["Beach", "Grass", "Water", "Hill"]);
    assert_eq!(first.run(entropy_key), second.run(entropy_key));
    assert_eq!(picture(first.grid()), picture(second.grid()));
}

#[test]
fn new_solver_has_a_source_without_a_seed() {
    let made: Result<WFC<Terrain, AdjacencyRule<Terrain>, Silent>, WfcError> =
        WFC::new(2, 2, set(vec![grass(), water()]), vec![], None);
    let solver = made.unwrap();
    assert_eq!(solver.seed(), None);
    assert!(!solver.is_failed());
    assert!(!solver.debug_render());
}

#[test]
fn run_that_cannot_collapse_its_first_cell_leaves_the_grid() {
    let heavy = tile(Terrain::Grass, "Grass", i32::MAX);
    let light = tile(Terrain::Water, "Water", 1);
    let mut solver: WFC<Terrain, AdjacencyRule<Terrain>, Silent> = WFC::with_source(
        2,
        2,
        set(vec![heavy.clone(), light.clone()]),
        vec![AdjacencyRule::new(shore())],
        None,
        RandomSource::from_seed(1),
    );
    assert_eq!(solver.run(entropy_key), Err(WfcError::InvalidWeight));
    assert!(solver.is_failed());
    for x in 0..2 {
        for y in 0..2 {
            assert_eq!(tiles_at(solver.grid(), x, y), vec!["Grass", "Water"]);
        }
    }
    let mut bare: WFC<Terrain, AdjacencyRule<Terrain>, Silent> = WFC::with_source(
        1,
        1,
        set(vec![]),
        vec![AdjacencyRule::new(shore())],
        None,
        RandomSource::from_seed(1),
    );
    assert_eq!(bare.run(entropy_key), Err(WfcError::EmptyCandidateSet));
    assert!(tiles_at(bare.grid(), 0, 0).is_empty());
}

#[test]
fn run_that_fails_after_a_collapse_has_changed_the_grid() {
    let mut changed = 0;
    for seed in 0..10u64 {
        let mut solver: WFC<Terrain, Refusing, Silent> = WFC::with_source(
            2,
            2,
            set(vec![grass(), water()]),
            vec![Refusing],
            None,
            RandomSource::from_seed(seed),
        );
        assert_eq!(solver.run(entropy_key), Err(WfcError::ContradictionError));
        assert!(value_at(solver.grid(), 0, 0).is_some());
        changed += 1;
    }
    assert_eq!(changed, 10);
}
