use game_core::events::TileType;
use game_core::pathfinding::{find_path, find_path_adjacent};
use game_core::world::World;

fn grid(rows: &[&str]) -> World {
    let height = rows.len();
    let width = rows[0].len();
    let mut tiles = Vec::new();
    for row in rows {
        for ch in row.chars() {
            tiles.push(match ch {
                '~' => TileType::Water,
                's' => TileType::Sand,
                _ => TileType::Grass,
            });
        }
    }
    World { tiles, width, height }
}

fn is_valid_route(w: &World, start: (i32, i32), target: (i32, i32), walls: &[(i32, i32)], route: &[(i32, i32)]) -> bool {
    let mut prev = start;
    for &c in route {
        let step = (c.0 - prev.0).abs() + (c.1 - prev.1).abs();
        if step != 1 || !w.is_walkable(c.0, c.1) {
            return false;
        }
        if c != target && walls.contains(&c) {
            return false;
        }
        prev = c;
    }
    prev == target
}

#[test]
fn straight_path_excludes_start() {
    let w = grid(&["....."]);
    let path = find_path(&w, 0, 0, 3, 0, &[]).unwrap();
    assert_eq!(path, vec![(1, 0), (2, 0), (3, 0)]);
}

#[test]
fn same_start_and_target_gives_empty_path() {
    let w = grid(&["..."]);
    assert_eq!(find_path(&w, 1, 0, 1, 0, &[]), Some(vec![]));
    // Even a start on water, or outside the grid, is its own target.
    let w2 = grid(&["~.."]);
    assert_eq!(find_path(&w2, 0, 0, 0, 0, &[]), Some(vec![]));
    assert_eq!(find_path(&w2, -4, 9, -4, 9, &[]), Some(vec![]));
}

#[test]
fn path_avoids_water_and_is_shortest() {
    let w = grid(&[
        ".....",
        ".~~~.",
        ".~...",
        ".~.~~",
        ".....",
    ]);
    let path = find_path(&w, 2, 2, 0, 0, &[]).unwrap();
    assert!(is_valid_route(&w, (2, 2), (0, 0), &[], &path));
    // Around the water: (2,2)->(3,2)->(4,2)->(4,1)->(4,0)->(3,0)->(2,0)->(1,0)->(0,0)
    assert_eq!(path.len(), 8);
}

#[test]
fn walls_block_paths_but_not_the_target() {
    let w = grid(&[
        "...",
        "...",
        "...",
    ]);
    let walls = [(1, 0), (1, 1)];
    let path = find_path(&w, 0, 0, 2, 0, &walls).unwrap();
    assert!(is_valid_route(&w, (0, 0), (2, 0), &walls, &path));
    assert_eq!(path.len(), 6);
    // A wall on the target itself does not block reaching it.
    let path = find_path(&w, 0, 0, 1, 0, &walls).unwrap();
    assert_eq!(path, vec![(1, 0)]);
}

#[test]
fn unreachable_target_gives_none() {
    let w = grid(&[
        ".~.",
        "~~.",
        "...",
    ]);
    assert_eq!(find_path(&w, 0, 0, 2, 2, &[]), None);
    let w2 = grid(&["....."]);
    assert_eq!(find_path(&w2, 0, 0, 4, 0, &[(2, 0)]), None);
}

#[test]
fn target_on_water_or_outside_gives_none() {
    let w = grid(&["..~"]);
    assert_eq!(find_path(&w, 0, 0, 2, 0, &[]), None);
    assert_eq!(find_path(&w, 0, 0, 3, 0, &[]), None);
    assert_eq!(find_path(&w, 0, 0, -1, 0, &[]), None);
}

#[test]
fn start_outside_grid_can_step_in() {
    let w = grid(&["..."]);
    assert_eq!(find_path(&w, -1, 0, 1, 0, &[]), Some(vec![(0, 0), (1, 0)]));
}

#[test]
fn adjacent_start_gives_empty_path() {
    let w = grid(&["...", "...", "..."]);
    assert_eq!(find_path_adjacent(&w, 1, 0, 1, 1, &[]), Some(vec![]));
    assert_eq!(find_path_adjacent(&w, 0, 1, 1, 1, &[]), Some(vec![]));
}

#[test]
fn path_to_nearest_side_of_building() {
    let w = grid(&[".....", ".....", "....."]);
    // Target at (4,1); sides: (4,0),(4,2),(3,1),(5,1)=out. From (0,1) the left side is nearest.
    let path = find_path_adjacent(&w, 0, 1, 4, 1, &[]).unwrap();
    assert_eq!(path, vec![(1, 1), (2, 1), (3, 1)]);
}

#[test]
fn adjacent_tie_prefers_upper_side() {
    let w = grid(&["...", "...", "..."]);
    // Standing on the target: all four sides are one step away; up comes first.
    assert_eq!(find_path_adjacent(&w, 1, 1, 1, 1, &[]), Some(vec![(1, 0)]));
}

#[test]
fn occupied_or_water_sides_are_skipped() {
    let w = grid(&[
        "~~~~~",
        "~.~.~",
        "~~~~~",
    ]);
    // Target (2,1) is water between two isolated cells; no side is walkable from (1,1)?
    // (1,1) is left of (2,1): already adjacent.
    assert_eq!(find_path_adjacent(&w, 1, 1, 2, 1, &[]), Some(vec![]));
    // From (3,1) also adjacent.
    assert_eq!(find_path_adjacent(&w, 3, 1, 2, 1, &[]), Some(vec![]));
    let w2 = grid(&[".....", ".....", "....."]);
    let walls = [(1, 1), (3, 1), (2, 0), (2, 2)];
    // Every side of (2,1) is a wall.
    assert_eq!(find_path_adjacent(&w2, 0, 0, 2, 1, &walls), None);
}

#[test]
fn enclosed_building_is_unreachable() {
    let w = grid(&[
        ".....",
        ".~~~.",
        ".~.~.",
        ".~~~.",
        ".....",
    ]);
    assert_eq!(find_path_adjacent(&w, 0, 0, 2, 2, &[]), None);
}
