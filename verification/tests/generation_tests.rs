use game_core::events::TileType;
use game_core::generation::tile_for_roll;
use game_core::world::{World, HEIGHT, WIDTH};

fn grid(rows: &[&str]) -> World {
    let height = rows.len();
    let width = rows[0].len();
    let mut tiles = Vec::new();
    for row in rows {
        for ch in row.chars() {
            tiles.push(match ch {
                '~' => TileType::Water,
                's' => TileType::Sand,
                _ => TileType::Grass,
            });
        }
    }
    World { tiles, width, height }
}

fn count(mask: &[bool]) -> usize {
    mask.iter().filter(|&&b| b).count()
}

fn land(w: &World) -> usize {
    w.tiles.iter().filter(|t| **t != TileType::Water).count()
}

#[test]
fn rolls_map_to_weighted_terrain() {
    assert_eq!(tile_for_roll(0), TileType::Water);
    assert_eq!(tile_for_roll(14), TileType::Water);
    assert_eq!(tile_for_roll(15), TileType::Sand);
    assert_eq!(tile_for_roll(34), TileType::Sand);
    assert_eq!(tile_for_roll(35), TileType::Grass);
    assert_eq!(tile_for_roll(99), TileType::Grass);
}

#[test]
fn terrain_follows_rolls() {
    let rolls: Vec<i32> = (0..(WIDTH * HEIGHT) as i32).map(|i| i % 100).collect();
    let w = World::terrain_from_rolls(&rolls);
    assert_eq!(w.width, WIDTH);
    assert_eq!(w.height, HEIGHT);
    assert_eq!(w.tiles.len(), WIDTH * HEIGHT);
    for i in 0..rolls.len() {
        assert_eq!(w.tiles[i], tile_for_roll(rolls[i]));
    }
    assert_eq!(w.get_tile(20, 0), TileType::Sand);
}

#[test]
fn random_terrain_has_standard_size() {
    let w = World::random_terrain();
    assert_eq!(w.width, 50);
    assert_eq!(w.height, 50);
    assert_eq!(w.tiles.len(), 2500);
}

#[test]
fn largest_component_of_two_islands() {
    let w = grid(&[
        "..~..",
        "..~.~",
        "~~~..",
    ]);
    let mask = w.find_largest_walkable_component();
    // Left island: 4 cells; right island: (3,0),(4,0),(3,1),(3,2),(4,2) = 5 cells.
    assert_eq!(count(&mask), 5);
    assert!(mask[w.idx(3, 0)]);
    assert!(mask[w.idx(4, 2)]);
    assert!(!mask[w.idx(0, 0)]);
}

#[test]
fn equal_islands_keep_the_first() {
    let w = grid(&[".~."]);
    let mask = w.find_largest_walkable_component();
    assert_eq!(mask, vec![true, false, false]);
}

#[test]
fn no_land_gives_empty_mask() {
    let w = grid(&["~~", "~~"]);
    assert_eq!(w.find_largest_walkable_component(), vec![false; 4]);
}

#[test]
fn connected_land_round_succeeds_unchanged() {
    let mut w = grid(&["..s", "s~.", "..."]);
    let before = w.tiles.clone();
    assert!(w.connectivity_round());
    assert_eq!(w.tiles, before);
}

#[test]
fn small_island_is_removed_or_sanded() {
    // Ten land tiles in one region and one isolated tile: 10/11 >= 0.9.
    let mut w = grid(&[
        ".....~.",
        ".....~~",
    ]);
    assert!(w.connectivity_round());
    let t = w.get_tile(6, 0);
    assert!(t == TileType::Water || t == TileType::Sand);
    for y in 0..2 {
        for x in 0..5 {
            assert_eq!(w.get_tile(x, y), TileType::Grass);
        }
    }
    assert_eq!(w.get_tile(5, 0), TileType::Water);
}

#[test]
fn fragmented_land_round_only_turns_water_to_grass() {
    let mut w = grid(&[".~.~.~."]);
    let before = w.tiles.clone();
    assert!(!w.connectivity_round());
    for i in 0..before.len() {
        if before[i] == TileType::Water {
            assert!(w.tiles[i] == TileType::Water || w.tiles[i] == TileType::Grass);
        } else {
            assert_eq!(w.tiles[i], before[i]);
        }
    }
}

#[test]
fn no_land_round_fails() {
    let mut w = grid(&["~~~"]);
    assert!(!w.connectivity_round());
}

#[test]
fn generated_world_has_dominant_region() {
    let mut w = World::random_terrain();
    while !w.connectivity_round() {}
    let mask = w.find_largest_walkable_component();
    let total_land = land(&w);
    assert!(total_land > 0);
    assert!(count(&mask) * 10 >= total_land * 9);
}

#[test]
fn random_terrain_mixes_all_tiles() {
    let w = World::random_terrain();
    let water = w.tiles.iter().filter(|t| **t == TileType::Water).count();
    let sand = w.tiles.iter().filter(|t| **t == TileType::Sand).count();
    let grass = w.tiles.iter().filter(|t| **t == TileType::Grass).count();
    assert!(water > 0 && sand > 0 && grass > 0);
    assert!(grass > water);
}

#[test]
fn settling_follows_the_coins() {
    // Row-major: land in the region, land outside it, and water.
    let mut w = grid(&["..s", "~.~"]);
    let region = vec![true, true, false, false, false, false];
    let coins = vec![true, true, true, false, true, false];
    w.settle_stray_land(&region, &coins);
    assert_eq!(
        w.tiles,
        vec![
            TileType::Grass,
            TileType::Grass,
            TileType::Water,
            TileType::Water,
            TileType::Water,
            TileType::Water,
        ]
    );
    let mut v = grid(&["..s", "~.~"]);
    v.settle_stray_land(&region, &vec![false; 6]);
    assert_eq!(
        v.tiles,
        vec![
            TileType::Grass,
            TileType::Grass,
            TileType::Sand,
            TileType::Water,
            TileType::Sand,
            TileType::Water,
        ]
    );
}

#[test]
fn regrowing_turns_water_to_grass_where_the_coin_says() {
    let mut w = grid(&["~~s", "~.~"]);
    w.regrow_water(&vec![true, false, true, false, true, true]);
    assert_eq!(
        w.tiles,
        vec![
            TileType::Grass,
            TileType::Water,
            TileType::Sand,
            TileType::Water,
            TileType::Grass,
            TileType::Grass,
        ]
    );
}
