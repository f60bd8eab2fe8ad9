use game_core::events::TileType;
use game_core::world::{World, HEIGHT, WIDTH};

fn grid(rows: &[&str]) -> World {
    let height = rows.len();
    let width = rows[0].len();
    let mut tiles = Vec::new();
    for row in rows {
        for ch in row.chars() {
            tiles.push(match ch {
                '~' => TileType::Water,
                's' => TileType::Sand,
                _ => TileType::Grass,
            });
        }
    }
    World { tiles, width, height }
}

#[test]
fn standard_dimensions() {
    assert_eq!(WIDTH, 50);
    assert_eq!(HEIGHT, 50);
}

#[test]
fn idx_is_row_major() {
    let w = grid(&["...", "..."]);
    assert_eq!(w.idx(0, 0), 0);
    assert_eq!(w.idx(2, 0), 2);
    assert_eq!(w.idx(0, 1), 3);
    assert_eq!(w.idx(2, 1), 5);
}

#[test]
fn get_tile_reads_cells() {
    let w = grid(&[".s~", "~.s"]);
    assert_eq!(w.get_tile(0, 0), TileType::Grass);
    assert_eq!(w.get_tile(1, 0), TileType::Sand);
    assert_eq!(w.get_tile(2, 0), TileType::Water);
    assert_eq!(w.get_tile(0, 1), TileType::Water);
    assert_eq!(w.get_tile(2, 1), TileType::Sand);
}

#[test]
fn out_of_bounds_tiles_are_water() {
    let w = grid(&["...", "..."]);
    assert_eq!(w.get_tile(-1, 0), TileType::Water);
    assert_eq!(w.get_tile(3, 0), TileType::Water);
    assert_eq!(w.get_tile(0, -1), TileType::Water);
    assert_eq!(w.get_tile(0, 2), TileType::Water);
    assert_eq!(w.get_tile(i32::MIN, i32::MAX), TileType::Water);
    assert!(!w.is_walkable(-1, 0));
    assert!(!w.is_walkable(0, 2));
}

#[test]
fn in_bounds_checks_both_axes() {
    let w = grid(&["...", "..."]);
    assert!(w.in_bounds(0, 0));
    assert!(w.in_bounds(2, 1));
    assert!(!w.in_bounds(3, 1));
    assert!(!w.in_bounds(2, 2));
    assert!(!w.in_bounds(-1, 0));
    assert!(!w.in_bounds(0, -1));
}

#[test]
fn walkable_means_not_water() {
    let w = grid(&[".s~"]);
    assert!(w.is_walkable(0, 0));
    assert!(w.is_walkable(1, 0));
    assert!(!w.is_walkable(2, 0));
}

#[test]
fn set_then_get_returns_the_tile() {
    let mut w = grid(&["...", "..."]);
    w.set_tile(1, 1, TileType::Water);
    assert_eq!(w.get_tile(1, 1), TileType::Water);
    assert_eq!(w.tiles[4], TileType::Water);
    // Every other cell is unchanged.
    for y in 0..2 {
        for x in 0..3 {
            if (x, y) != (1, 1) {
                assert_eq!(w.get_tile(x, y), TileType::Grass);
            }
        }
    }
}

#[test]
fn set_out_of_bounds_changes_nothing() {
    let mut w = grid(&["...", "..."]);
    let before = w.tiles.clone();
    w.set_tile(3, 0, TileType::Water);
    w.set_tile(0, -1, TileType::Water);
    w.set_tile(-5, 7, TileType::Sand);
    assert_eq!(w.tiles, before);
}
