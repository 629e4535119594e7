use wfc_too::utils::grid::TileAdjacencyGraph;

#[test]
fn kinds_without_an_edge_are_no_neighbors() {
    let mut graph: TileAdjacencyGraph<String> = TileAdjacencyGraph::new();
    assert_eq!(graph.node_count(), 0);
    assert_eq!(graph.edge_count(), 0);
    assert!(!graph.are_neighbors(&"grass".to_string(), &"water".to_string()));
    graph.add_tile_type("grass".to_string());
    graph.add_tile_type("water".to_string());
    assert_eq!(graph.node_count(), 2);
    assert!(!graph.are_neighbors(&"grass".to_string(), &"water".to_string()));
    assert!(!graph.are_neighbors(&"grass".to_string(), &"grass".to_string()));
}

#[test]
fn an_edge_joins_both_ways() {
    let mut graph: TileAdjacencyGraph<u8> = TileAdjacencyGraph::new();
    for kind in 0..4u8 {
        graph.add_tile_type(kind);
    }
    graph.add_bidirectional_edge(0, 1);
    graph.add_bidirectional_edge(3, 2);
    assert_eq!(graph.edge_count(), 2);
    assert!(graph.are_neighbors(&0, &1));
    assert!(graph.are_neighbors(&1, &0));
    assert!(graph.are_neighbors(&2, &3));
    assert!(graph.are_neighbors(&3, &2));
    assert!(!graph.are_neighbors(&0, &2));
    assert!(!graph.are_neighbors(&1, &3));
    assert!(!graph.are_neighbors(&0, &0));
    graph.add_bidirectional_edge(0, 0);
    assert!(graph.are_neighbors(&0, &0));
    graph.add_bidirectional_edge(0, 1);
    assert_eq!(graph.edge_count(), 4);
}

#[test]
fn an_edge_to_an_unknown_kind_is_not_added() {
    let mut graph: TileAdjacencyGraph<u8> = TileAdjacencyGraph::new();
    graph.add_tile_type(1);
    graph.add_bidirectional_edge(1, 2);
    graph.add_bidirectional_edge(2, 1);
    graph.add_bidirectional_edge(7, 8);
    assert_eq!(graph.edge_count(), 0);
    assert!(!graph.are_neighbors(&1, &2));
    assert!(!graph.are_neighbors(&2, &1));
}

#[test]
fn a_kind_added_again_starts_without_edges() {
    let mut graph: TileAdjacencyGraph<u8> = TileAdjacencyGraph::new();
    graph.add_tile_type(1);
    graph.add_tile_type(2);
    graph.add_bidirectional_edge(1, 2);
    assert!(graph.are_neighbors(&1, &2));
    graph.add_tile_type(1);
    assert_eq!(graph.node_count(), 3);
    assert_eq!(graph.edge_count(), 1);
    assert!(!graph.are_neighbors(&1, &2));
    assert!(!graph.are_neighbors(&2, &1));
    graph.add_bidirectional_edge(2, 1);
    assert!(graph.are_neighbors(&1, &2));
}

fn create_n_sample_kinds(num_tiles: i32) -> Vec<String> {
    let mut kinds = Vec::new();
    for i in 0..num_tiles {
        kinds.push(i.to_string());
    }
    kinds
}

#[test]
fn all_tests_test_cell_collapse_with_rule() {
    let tiles = create_n_sample_kinds(2);
    assert_eq!(tiles.len(), 2);

    let mut tile_graph = TileAdjacencyGraph::new();
    for tile in &tiles {
        tile_graph.add_tile_type(tile.clone());
    }

    tile_graph.add_bidirectional_edge(tiles[0].clone(), tiles[1].clone());
    assert!(tile_graph.are_neighbors(&tiles[0], &tiles[1]));
}

#[test]
fn grid_test_cell_collapse_with_rule() {
    let tiles = create_n_sample_kinds(2);
    assert_eq!(tiles.len(), 2);

    let mut tile_graph = TileAdjacencyGraph::new();
    for tile in &tiles {
        tile_graph.add_tile_type(tile.clone());
    }

    tile_graph.add_bidirectional_edge(tiles[0].clone(), tiles[1].clone());
    assert!(tile_graph.are_neighbors(&tiles[1], &tiles[0]));
    assert!(!tile_graph.are_neighbors(&tiles[0], &tiles[0]));
}
