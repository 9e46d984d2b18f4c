use rover_puzzle::level::{Pos, GRADVM, GRADVM_ORENATOR_CONFIGVRATIONES, TEGVLA_TYPVS};
use rover_puzzle::level::is_pos_in_level;
use rover_puzzle::level_loader::{LevelError, LevelLoaderPlugin};
use rover_puzzle::sane_level::{Level, Tile, TileType};

fn rows_of(lines: &[&str]) -> Vec<Vec<u8>> {
    lines.iter().map(|l| l.bytes().collect()).collect()
}

fn no_shadow(lines: &[&str]) -> Vec<Vec<bool>> {
    lines.iter().map(|l| vec![false; l.len()]).collect()
}

fn load(lines: &[&str]) -> Result<GRADVM, LevelError> {
    LevelLoaderPlugin::load(
        &rows_of(lines),
        &no_shadow(lines),
        &GRADVM_ORENATOR_CONFIGVRATIONES { INDEX: 0 },
    )
}

#[test]
fn loads_simple_level() {
    let level = load(&["E", "P", "S"]).unwrap();
    assert_eq!(level.LATIVIDO, 1);
    assert_eq!(level.ALTIVIDO, 3);
    assert_eq!(level.NVMERVS_VEHICVLORVM_MOBILIVM, 1);
    assert_eq!(level.NVMERVS_CRYSTALLORVM, 1);
    // The top input row becomes the highest grid row.
    assert!(matches!(level.tile_at(0, 0).unwrap().TYPVS, TEGVLA_TYPVS::INITIVM));
    assert!(matches!(level.tile_at(0, 1).unwrap().TYPVS, TEGVLA_TYPVS::SEMITA));
    assert!(matches!(level.tile_at(0, 2).unwrap().TYPVS, TEGVLA_TYPVS::FINIS));
    assert!(level.tile_at(1, 0).is_none());
    assert!(level.tile_at(0, 3).is_none());
    assert!(level.tile_at(-1, 0).is_none());
}

#[test]
fn loads_all_terrain_kinds() {
    let level = load(&["SEPDIC"]).unwrap();
    assert!(matches!(level.tile_at(0, 0).unwrap().TYPVS, TEGVLA_TYPVS::INITIVM));
    assert!(matches!(level.tile_at(1, 0).unwrap().TYPVS, TEGVLA_TYPVS::FINIS));
    assert!(matches!(level.tile_at(2, 0).unwrap().TYPVS, TEGVLA_TYPVS::SEMITA));
    assert!(matches!(level.tile_at(3, 0).unwrap().TYPVS, TEGVLA_TYPVS::SATVRNALIA));
    assert!(matches!(level.tile_at(4, 0).unwrap().TYPVS, TEGVLA_TYPVS::INGENII));
    assert!(matches!(level.tile_at(5, 0).unwrap().TYPVS, TEGVLA_TYPVS::CRATERA));
}

#[test]
fn unknown_byte_is_a_hole() {
    let level = load(&["S.P"]).unwrap();
    assert!(level.tile_at(0, 0).is_some());
    assert!(level.tile_at(1, 0).is_none());
    assert!(level.tile_at(2, 0).is_some());
    assert!(!is_pos_in_level(&level, &Pos { x: 1, y: 0 }));
    assert!(is_pos_in_level(&level, &Pos { x: 2, y: 0 }));
}

#[test]
fn digit_cells_are_paths_and_linked() {
    let level = load(&["S1", "1P"]).unwrap();
    // '1' at (1, 1) and at (0, 0), both path tiles, linked symmetrically.
    assert!(matches!(level.tile_at(1, 1).unwrap().TYPVS, TEGVLA_TYPVS::SEMITA));
    assert!(matches!(level.tile_at(0, 0).unwrap().TYPVS, TEGVLA_TYPVS::SEMITA));
    assert_eq!(level.wire_partner(1, 1), Some(Pos { x: 0, y: 0 }));
    assert_eq!(level.wire_partner(0, 0), Some(Pos { x: 1, y: 1 }));
    assert_eq!(level.wire_partner(0, 1), None);
    assert_eq!(level.wire_partner(1, 0), None);
}

#[test]
fn reused_digit_pairs_consecutive_occurrences() {
    // Four '2' marks: the first pairs with the second, the third with the
    // fourth, in scanning order.
    let level = load(&["22", "22"]).unwrap();
    assert_eq!(level.wire_partner(0, 1), Some(Pos { x: 1, y: 1 }));
    assert_eq!(level.wire_partner(1, 1), Some(Pos { x: 0, y: 1 }));
    assert_eq!(level.wire_partner(0, 0), Some(Pos { x: 1, y: 0 }));
    assert_eq!(level.wire_partner(1, 0), Some(Pos { x: 0, y: 0 }));
}

#[test]
fn unmatched_wire_digit_is_rejected() {
    assert!(matches!(load(&["S1"]), Err(LevelError::InvalidLevelFormat)));
    assert!(matches!(load(&["S1", "11"]), Err(LevelError::InvalidLevelFormat)));
    assert!(load(&["S11", "P11"]).is_ok());
}

#[test]
fn ragged_grid_is_rejected() {
    assert!(matches!(load(&["SP", "P"]), Err(LevelError::InvalidLevelFormat)));
    assert!(matches!(load(&["S", "PP"]), Err(LevelError::InvalidLevelFormat)));
}

#[test]
fn mask_of_wrong_shape_is_rejected() {
    let rows = rows_of(&["SP"]);
    let mask_short = vec![vec![false]];
    let settings = GRADVM_ORENATOR_CONFIGVRATIONES { INDEX: 0 };
    assert!(matches!(
        LevelLoaderPlugin::load(&rows, &mask_short, &settings),
        Err(LevelError::InvalidLevelFormat)
    ));
    let mask_none: Vec<Vec<bool>> = vec![];
    assert!(matches!(
        LevelLoaderPlugin::load(&rows, &mask_none, &settings),
        Err(LevelError::InvalidLevelFormat)
    ));
}

#[test]
fn empty_input_is_an_empty_level() {
    let level = load(&[]).unwrap();
    assert_eq!(level.LATIVIDO, 0);
    assert_eq!(level.ALTIVIDO, 0);
    assert_eq!(level.NVMERVS_VEHICVLORVM_MOBILIVM, 0);
    assert!(level.tile_at(0, 0).is_none());
}

#[test]
fn shadow_mask_is_applied() {
    let rows = rows_of(&["SP"]);
    let mask = vec![vec![false, true]];
    let settings = GRADVM_ORENATOR_CONFIGVRATIONES { INDEX: 7 };
    let level = LevelLoaderPlugin::load(&rows, &mask, &settings).unwrap();
    assert_eq!(level.INDEX, 7);
    assert!(!level.tile_at(0, 0).unwrap().VMBRA);
    assert!(level.tile_at(1, 0).unwrap().VMBRA);
}

#[test]
fn facade_level_mirrors_the_internal_one() {
    let rows = rows_of(&["SE", "PD"]);
    let mask = vec![vec![false, false], vec![true, false]];
    let settings = GRADVM_ORENATOR_CONFIGVRATIONES { INDEX: 0 };
    let internal = LevelLoaderPlugin::load(&rows, &mask, &settings).unwrap();
    let level = Level::from_internal(&internal);
    assert_eq!(
        level.get_tile(0, 0),
        Some(Tile { tile_type: TileType::Path, shadow: true })
    );
    assert_eq!(
        level.get_tile(1, 0),
        Some(Tile { tile_type: TileType::PowerStation, shadow: false })
    );
    assert_eq!(
        level.get_tile(0, 1),
        Some(Tile { tile_type: TileType::Start, shadow: false })
    );
    assert_eq!(
        level.get_tile(1, 1),
        Some(Tile { tile_type: TileType::End, shadow: false })
    );
    assert_eq!(level.get_tile(2, 0), None);
    assert_eq!(level.tiles().len(), 4);
}

#[test]
fn tile_conversions() {
    assert_eq!(TileType::from(&TEGVLA_TYPVS::INITIVM), TileType::Start);
    assert_eq!(TileType::from(&TEGVLA_TYPVS::FINIS), TileType::End);
    assert_eq!(TileType::from(&TEGVLA_TYPVS::SEMITA), TileType::Path);
    assert_eq!(TileType::from(&TEGVLA_TYPVS::CRATERA), TileType::Crater);
    assert_eq!(TileType::from(&TEGVLA_TYPVS::INGENII), TileType::Relay);
    assert_eq!(TileType::from(&TEGVLA_TYPVS::SATVRNALIA), TileType::PowerStation);
}
