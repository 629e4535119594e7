use std::sync::Arc;
use wfc_too::possible_values::PossibleValues;
use wfc_too::types::{PossibleValue, Tile, TileType, WfcError};

#[derive(Debug, Clone, PartialEq, Eq, Hash)]
enum Terrain {
    Grass,
    Water,
    Beach,
}

impl TileType for Terrain {}

fn tile(id: Terrain, name: &str, weight: i32) -> PossibleValue<Terrain> {
    Tile::new(id, name, weight).unwrap()
}

#[test]
fn tile_keeps_what_it_was_given() {
    let grass = tile(Terrain::Grass, "Grass", 4);
    assert_eq!(*grass.id(), Terrain::Grass);
    assert_eq!(grass.name(), "Grass");
    assert_eq!(grass.weight(), 4);
    assert!(grass.is_named("Grass"));
    assert!(!grass.is_named("Water"));
}

#[test]
fn tile_rejects_a_weight_that_is_not_positive() {
    assert_eq!(Tile::new(Terrain::Grass, "Grass", 0).unwrap_err(), WfcError::InvalidWeight);
    assert_eq!(Tile::new(Terrain::Grass, "Grass", -3).unwrap_err(), WfcError::InvalidWeight);
    assert!(Tile::new(Terrain::Grass, "Grass", 1).is_ok());
    assert!(Tile::new(Terrain::Grass, "Grass", i32::MAX).is_ok());
}

#[test]
fn tiles_are_the_same_when_identity_label_and_weight_agree() {
    let a = tile(Terrain::Grass, "Grass", 2);
    let b = tile(Terrain::Grass, "Grass", 2);
    assert!(a.same(&b));
    assert!(!a.same(&tile(Terrain::Water, "Grass", 2)));
    assert!(!a.same(&tile(Terrain::Grass, "Lawn", 2)));
    assert!(!a.same(&tile(Terrain::Grass, "Grass", 3)));
}

#[test]
fn cloned_tile_keeps_label_and_weight() {
    let a = tile(Terrain::Beach, "Beach", 7);
    let copy: Tile<Terrain> = (*a).clone();
    assert!(a.same(&copy));
}

#[test]
fn error_messages_differ() {
    let all = [
        WfcError::InvalidCoordinate,
        WfcError::AlreadyCollapsed,
        WfcError::ContradictionError,
        WfcError::EmptyCandidateSet,
        WfcError::InvalidWeight,
        WfcError::EntropyUnavailable,
    ];
    assert_eq!(WfcError::InvalidCoordinate.message(), "coordinate outside the grid");
    assert_eq!(WfcError::ContradictionError.message(), "a cell would be left without candidates");
    for (i, a) in all.iter().enumerate() {
        for (j, b) in all.iter().enumerate() {
            assert_eq!(i == j, a.message() == b.message());
        }
    }
}

#[test]
fn set_from_a_list_holds_each_tile_once() {
    let grass = tile(Terrain::Grass, "Grass", 2);
    let water = tile(Terrain::Water, "Water", 1);
    let again = tile(Terrain::Grass, "Grass", 2);
    let set = PossibleValues::from_vec(vec![grass.clone(), water.clone(), again, grass.clone()]);
    assert_eq!(set.len(), 2);
    assert!(!set.is_empty());
    assert!(set.contains(&grass));
    assert!(set.contains(&water));
    assert!(!set.contains(&tile(Terrain::Beach, "Beach", 1)));
    assert!(set.get(0).same(&grass));
    assert!(set.get(1).same(&water));
    assert_eq!(set.weights(), vec![2, 1]);
    assert_eq!(set.position(&water), Some(1));
    assert_eq!(set.position(&tile(Terrain::Water, "Water", 9)), None);
}

#[test]
fn empty_set_is_empty() {
    let set: PossibleValues<Terrain> = PossibleValues::new();
    assert_eq!(set.len(), 0);
    assert!(set.is_empty());
    assert!(set.weights().is_empty());
    assert!(set.values().is_empty());
}

#[test]
fn insert_says_whether_the_tile_is_new() {
    let grass = tile(Terrain::Grass, "Grass", 2);
    let mut set = PossibleValues::new();
    assert!(set.insert(grass.clone()));
    assert!(!set.insert(tile(Terrain::Grass, "Grass", 2)));
    assert!(set.insert(tile(Terrain::Grass, "Grass", 3)));
    assert_eq!(set.len(), 2);
}

#[test]
fn singleton_holds_its_tile() {
    let water = tile(Terrain::Water, "Water", 5);
    let set = PossibleValues::singleton(water.clone());
    assert_eq!(set.len(), 1);
    assert!(set.contains(&water));
    assert!(Arc::ptr_eq(set.get(0), &water));
}

#[test]
fn intersection_keeps_the_common_tiles_in_order() {
    let grass = tile(Terrain::Grass, "Grass", 2);
    let water = tile(Terrain::Water, "Water", 1);
    let beach = tile(Terrain::Beach, "Beach", 1);
    let all = PossibleValues::from_vec(vec![grass.clone(), water.clone(), beach.clone()]);
    let some = PossibleValues::from_vec(vec![beach.clone(), grass.clone()]);
    let kept = all.intersection(&some);
    assert_eq!(kept.len(), 2);
    assert!(kept.get(0).same(&grass));
    assert!(kept.get(1).same(&beach));
    let none = all.intersection(&PossibleValues::new());
    assert!(none.is_empty());
}

#[test]
fn without_names_drops_the_named_tiles() {
    let grass = tile(Terrain::Grass, "Grass", 2);
    let water = tile(Terrain::Water, "Water", 1);
    let beach = tile(Terrain::Beach, "Beach", 1);
    let all = PossibleValues::from_vec(vec![grass.clone(), water.clone(), beach.clone()]);
    let kept = all.without_names(&vec!["Water", "Beach", "Lava"]);
    assert_eq!(kept.len(), 1);
    assert!(kept.contains(&grass));
    assert_eq!(all.without_names(&vec![]).len(), 3);
    assert!(all.contains_name("Water"));
    assert!(!all.contains_name("Lava"));
    assert!(!kept.contains_name("Water"));
}

#[test]
fn extend_adds_the_missing_tiles_behind() {
    let grass = tile(Terrain::Grass, "Grass", 2);
    let water = tile(Terrain::Water, "Water", 1);
    let beach = tile(Terrain::Beach, "Beach", 1);
    let mut set = PossibleValues::from_vec(vec![grass.clone(), water.clone()]);
    set.extend(&PossibleValues::from_vec(vec![water.clone(), beach.clone()]));
    assert_eq!(set.len(), 3);
    assert!(set.get(2).same(&beach));
}

#[test]
fn cloned_set_is_a_set_of_its_own() {
    let grass = tile(Terrain::Grass, "Grass", 2);
    let set = PossibleValues::from_vec(vec![grass.clone()]);
    let mut copy = set.clone();
    copy.insert(tile(Terrain::Water, "Water", 1));
    assert_eq!(set.len(), 1);
    assert_eq!(copy.len(), 2);
}
