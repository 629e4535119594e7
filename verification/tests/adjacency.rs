use wfc_too::adjacency_graph::AdjacencyGraph;
use wfc_too::grid::{Cell, Grid};
use wfc_too::possible_values::PossibleValues;
use wfc_too::rules::adjacency_rule::AdjacencyRule;
use wfc_too::rules::beach_cleanup::BeachCleanupRule;
use wfc_too::rules::Rule;
use wfc_too::types::{PossibleValue, Tile, TileType, WfcError};

#[derive(Debug, Clone, PartialEq, Eq, Hash)]
enum Terrain {
    Grass,
    Water,
    Beach,
    Hill,
}

impl TileType for Terrain {}

fn tile(id: Terrain, name: &str, weight: i32) -> PossibleValue<Terrain> {
    Tile::new(id, name, weight).unwrap()
}

fn grass() -> PossibleValue<Terrain> {
    tile(Terrain::Grass, "Grass", 2)
}

fn water() -> PossibleValue<Terrain> {
    tile(Terrain::Water, "Water", 2)
}

fn beach() -> PossibleValue<Terrain> {
    tile(Terrain::Beach, "Beach", 1)
}

fn hill() -> PossibleValue<Terrain> {
    tile(Terrain::Hill, "Hill", 3)
}

fn set(tiles: Vec<PossibleValue<Terrain>>) -> PossibleValues<Terrain> {
    PossibleValues::from_vec(tiles)
}

fn same_tiles(cell: &Cell<Terrain>, tiles: Vec<PossibleValue<Terrain>>) -> bool {
    cell.possible_values.len() == tiles.len()
        && tiles.iter().enumerate().all(|(i, t)| cell.possible_values.get(i).same(t))
}

fn shore() -> AdjacencyGraph<Terrain> {
    let mut graph = AdjacencyGraph::new();
    graph.add_self_adjacencies(vec![&grass(), &water(), &beach()]);
    graph.add_adjacency(&grass(), &beach());
    graph.add_adjacency(&beach(), &water());
    graph
}

#[test]
fn empty_graph_permits_nothing() {
    let graph: AdjacencyGraph<Terrain> = AdjacencyGraph::new();
    assert!(!graph.is_valid_neighbor(&grass(), &grass()));
    assert!(graph.get_valid_neighbors(&grass()).is_none());
}

#[test]
fn self_adjacency_permits_a_tile_beside_itself() {
    let mut graph = AdjacencyGraph::new();
    graph.add_self_adjacency(&grass());
    assert!(graph.is_valid_neighbor(&grass(), &grass()));
    assert!(!graph.is_valid_neighbor(&grass(), &water()));
    assert!(!graph.is_valid_neighbor(&water(), &grass()));
    assert!(!graph.is_valid_neighbor(&water(), &water()));
    assert_eq!(graph.get_valid_neighbors(&grass()).unwrap().len(), 1);
    assert!(graph.get_valid_neighbors(&water()).is_none());
}

#[test]
fn adjacency_is_entered_on_both_sides() {
    let mut graph = AdjacencyGraph::new();
    graph.add_adjacency(&grass(), &beach());
    assert!(graph.is_valid_neighbor(&grass(), &beach()));
    assert!(graph.is_valid_neighbor(&beach(), &grass()));
    assert!(!graph.is_valid_neighbor(&grass(), &grass()));
    assert!(!graph.is_valid_neighbor(&beach(), &beach()));
    graph.add_adjacency(&grass(), &beach());
    assert_eq!(graph.get_valid_neighbors(&grass()).unwrap().len(), 1);
    graph.add_adjacency(&grass(), &grass());
    assert_eq!(graph.get_valid_neighbors(&grass()).unwrap().len(), 2);
}

#[test]
fn shore_graph_keeps_water_and_grass_apart() {
    let graph = shore();
    assert!(graph.is_valid_neighbor(&water(), &beach()));
    assert!(graph.is_valid_neighbor(&beach(), &water()));
    assert!(!graph.is_valid_neighbor(&water(), &grass()));
    assert!(!graph.is_valid_neighbor(&grass(), &water()));
    assert!(!graph.is_valid_neighbor(&hill(), &hill()));
    let beside_beach = graph.get_valid_neighbors(&beach()).unwrap();
    assert_eq!(beside_beach.len(), 3);
    assert!(beside_beach.get(0).same(&beach()));
    assert!(beside_beach.get(1).same(&grass()));
    assert!(beside_beach.get(2).same(&water()));
}

#[test]
fn allowed_beside_is_the_union_over_the_tiles() {
    let rule = AdjacencyRule::new(shore());
    let beside_water = rule.allowed_beside(&set(vec![water()]));
    assert_eq!(beside_water.len(), 2);
    assert!(beside_water.contains(&water()));
    assert!(beside_water.contains(&beach()));
    let beside_both = rule.allowed_beside(&set(vec![water(), grass()]));
    assert_eq!(beside_both.len(), 3);
    assert!(rule.allowed_beside(&set(vec![hill()])).is_empty());
    assert!(rule.allowed_beside(&set(vec![])).is_empty());
    assert!(rule.adjacency_graph().is_valid_neighbor(&water(), &beach()));
}

#[test]
fn rule_narrows_the_cells_beside_and_reports_them() {
    let rule = AdjacencyRule::new(shore());
    let mut grid = Grid::new(3, 3, set(vec![grass(), water(), beach()]));
    grid.get_cell_mut(1, 1).unwrap().collapse_to(&water()).unwrap();
    let affected = rule.propagate_constraints(&mut grid, 1, 1).unwrap();
    assert_eq!(affected, vec![(0, 1), (2, 1), (1, 0), (1, 2)]);
    for (x, y) in [(0, 1), (2, 1), (1, 0), (1, 2)] {
        assert!(same_tiles(grid.get_cell(x, y).unwrap(), vec![water(), beach()]));
    }
    for (x, y) in [(0, 0), (2, 0), (0, 2), (2, 2)] {
        assert!(same_tiles(grid.get_cell(x, y).unwrap(), vec![grass(), water(), beach()]));
    }
    assert!(same_tiles(grid.get_cell(1, 1).unwrap(), vec![water()]));
    let again = rule.propagate_constraints(&mut grid, 1, 1).unwrap();
    assert!(again.is_empty());
}

#[test]
fn rule_with_several_candidates_is_the_looser_union() {
    let rule = AdjacencyRule::new(shore());
    let mut grid = Grid::new(2, 1, set(vec![grass(), water(), beach(), hill()]));
    grid.get_cell_mut(0, 0).unwrap().constrain(&set(vec![grass(), water()])).unwrap();
    let affected = rule.propagate_constraints(&mut grid, 0, 0).unwrap();
    assert_eq!(affected, vec![(1, 0)]);
    assert!(same_tiles(grid.get_cell(1, 0).unwrap(), vec![grass(), water(), beach()]));
}

#[test]
fn rule_reports_a_contradiction_and_keeps_what_it_narrowed() {
    let rule = AdjacencyRule::new(shore());
    let mut grid = Grid::new(3, 1, set(vec![grass(), water(), beach()]));
    grid.get_cell_mut(1, 0).unwrap().collapse_to(&water()).unwrap();
    grid.get_cell_mut(2, 0).unwrap().collapse_to(&grass()).unwrap();
    let failed = rule.propagate_constraints(&mut grid, 1, 0);
    assert_eq!(failed, Err(WfcError::ContradictionError));
    assert!(same_tiles(grid.get_cell(0, 0).unwrap(), vec![water(), beach()]));
    assert!(same_tiles(grid.get_cell(2, 0).unwrap(), vec![grass()]));
}

#[test]
fn rule_without_entries_rejects_every_neighbor() {
    let rule = AdjacencyRule::new(AdjacencyGraph::new());
    let mut grid = Grid::new(2, 1, set(vec![grass(), water()]));
    assert_eq!(rule.propagate_constraints(&mut grid, 0, 0), Err(WfcError::ContradictionError));
    assert!(same_tiles(grid.get_cell(1, 0).unwrap(), vec![grass(), water()]));
    let mut alone = Grid::new(1, 1, set(vec![grass(), water()]));
    assert_eq!(rule.propagate_constraints(&mut alone, 0, 0), Ok(vec![]));
}

#[test]
fn rule_refuses_a_place_outside_the_grid() {
    let rule = AdjacencyRule::new(shore());
    let mut grid = Grid::new(2, 2, set(vec![grass(), water()]));
    assert_eq!(rule.propagate_constraints(&mut grid, 2, 0), Err(WfcError::InvalidCoordinate));
    assert_eq!(rule.propagate_constraints(&mut grid, 0, 2), Err(WfcError::InvalidCoordinate));
    assert_eq!(
        Rule::<Terrain>::propagate_constraints(&BeachCleanupRule, &mut grid, 5, 5),
        Err(WfcError::InvalidCoordinate)
    );
}

#[test]
fn boxed_rule_is_the_rule_in_the_box() {
    let boxed: Box<dyn Rule<Terrain>> = Box::new(AdjacencyRule::new(shore()));
    let mut grid = Grid::new(2, 1, set(vec![grass(), water(), beach()]));
    grid.get_cell_mut(0, 0).unwrap().collapse_to(&grass()).unwrap();
    assert_eq!(boxed.propagate_constraints(&mut grid, 0, 0), Ok(vec![(1, 0)]));
    assert!(same_tiles(grid.get_cell(1, 0).unwrap(), vec![grass(), beach()]));
}

#[test]
fn beach_goes_where_water_and_grass_are_not_both_beside() {
    let rule = BeachCleanupRule;
    let mut grid = Grid::new(3, 1, set(vec![grass(), water(), beach()]));
    grid.get_cell_mut(0, 0).unwrap().constrain(&set(vec![grass()])).unwrap();
    grid.get_cell_mut(2, 0).unwrap().constrain(&set(vec![grass(), beach()])).unwrap();
    let affected = rule.propagate_constraints(&mut grid, 1, 0).unwrap();
    assert_eq!(affected, vec![(1, 0)]);
    assert!(same_tiles(grid.get_cell(1, 0).unwrap(), vec![grass(), water()]));
    assert!(same_tiles(grid.get_cell(0, 0).unwrap(), vec![grass()]));
    assert!(same_tiles(grid.get_cell(2, 0).unwrap(), vec![grass(), beach()]));
    assert_eq!(rule.propagate_constraints(&mut grid, 1, 0), Ok(vec![]));
}

#[test]
fn beach_stays_between_water_and_grass() {
    let rule = BeachCleanupRule;
    let mut grid = Grid::new(3, 1, set(vec![grass(), water(), beach()]));
    grid.get_cell_mut(0, 0).unwrap().constrain(&set(vec![grass()])).unwrap();
    grid.get_cell_mut(2, 0).unwrap().constrain(&set(vec![water()])).unwrap();
    assert_eq!(rule.propagate_constraints(&mut grid, 1, 0), Ok(vec![]));
    assert!(same_tiles(grid.get_cell(1, 0).unwrap(), vec![grass(), water(), beach()]));
}

#[test]
fn collapsed_beach_is_left_alone() {
    let rule = BeachCleanupRule;
    let mut grid = Grid::new(2, 1, set(vec![grass(), water(), beach()]));
    grid.get_cell_mut(0, 0).unwrap().collapse_to(&beach()).unwrap();
    grid.get_cell_mut(1, 0).unwrap().collapse_to(&grass()).unwrap();
    assert_eq!(rule.propagate_constraints(&mut grid, 0, 0), Ok(vec![]));
    assert!(same_tiles(grid.get_cell(0, 0).unwrap(), vec![beach()]));
}

#[test]
fn cell_of_beaches_only_is_a_contradiction() {
    let rule = BeachCleanupRule;
    let wide = tile(Terrain::Beach, "Beach", 4);
    let mut grid = Grid::new(2, 1, set(vec![beach(), wide.clone(), grass()]));
    grid.get_cell_mut(0, 0).unwrap().constrain(&set(vec![beach(), wide.clone()])).unwrap();
    grid.get_cell_mut(1, 0).unwrap().constrain(&set(vec![grass()])).unwrap();
    assert_eq!(rule.propagate_constraints(&mut grid, 0, 0), Err(WfcError::ContradictionError));
    assert!(same_tiles(grid.get_cell(0, 0).unwrap(), vec![beach(), wide]));
}

#[test]
fn cloned_graph_is_a_graph_of_its_own() {
    let graph = shore();
    let mut copy = graph.clone();
    copy.add_adjacency(&grass(), &water());
    assert!(copy.is_valid_neighbor(&grass(), &water()));
    assert!(copy.is_valid_neighbor(&beach(), &water()));
    assert!(!graph.is_valid_neighbor(&grass(), &water()));
    assert!(graph.is_valid_neighbor(&beach(), &water()));
}
