use game_core::colony::{
    check_placement, choose_task, collect_sites, colonist_name, find_nearest, next_step,
    place_building, sample_spawn_position, seek_need, spawn_candidate, wander_to, CurrentTask, IdCounter,
    PlacementError,
};
use game_core::events::{BuildingType, ColonistTask, TileType};
use game_core::world::World;

fn grid(rows: &[&str]) -> World {
    let height = rows.len();
    let width = rows[0].len();
    let mut tiles = Vec::new();
    for row in rows {
        for ch in row.chars() {
            tiles.push(match ch {
                '~' => TileType::Water,
                's' => TileType::Sand,
                _ => TileType::Grass,
            });
        }
    }
    World { tiles, width, height }
}

#[test]
fn ids_start_at_one_and_increase() {
    let mut c = IdCounter::new();
    assert_eq!(c.next_id(), 1);
    assert_eq!(c.next_id(), 2);
    assert_eq!(c.next_id(), 3);
}

#[test]
fn default_task_is_idle() {
    let t = CurrentTask::default();
    assert_eq!(t.task, ColonistTask::Idle);
    assert_eq!(t.target, None);
}

#[test]
fn arrival_transitions() {
    let mut t = CurrentTask { task: ColonistTask::MovingToFood, target: Some((3, 4)) };
    t.arrive();
    assert_eq!(t.task, ColonistTask::Eating);
    assert_eq!(t.target, Some((3, 4)));

    let mut t = CurrentTask { task: ColonistTask::MovingToBed, target: Some((1, 1)) };
    t.arrive();
    assert_eq!(t.task, ColonistTask::Sleeping);
    assert_eq!(t.target, Some((1, 1)));

    let mut t = CurrentTask { task: ColonistTask::Wandering, target: Some((2, 2)) };
    t.arrive();
    assert_eq!(t.task, ColonistTask::Idle);
    assert_eq!(t.target, None);

    let mut t = CurrentTask { task: ColonistTask::Eating, target: Some((2, 2)) };
    t.arrive();
    assert_eq!(t.task, ColonistTask::Eating);
    assert_eq!(t.target, Some((2, 2)));
}

#[test]
fn finishing_activity_idles() {
    let mut t = CurrentTask { task: ColonistTask::Sleeping, target: Some((5, 5)) };
    t.finish_activity();
    assert_eq!(t.task, ColonistTask::Idle);
    assert_eq!(t.target, None);
}

#[test]
fn valid_placement() {
    let w = grid(&["...", ".~.", "..."]);
    assert_eq!(check_placement(&w, &[], 0, 0), Ok(()));
    assert_eq!(check_placement(&w, &[(1, 0)], 0, 0), Ok(()));
}

#[test]
fn placement_out_of_bounds() {
    let w = grid(&["...", ".~.", "..."]);
    let r = check_placement(&w, &[], 3, -1);
    assert_eq!(r, Err(PlacementError::OutOfBounds));
    assert_eq!(PlacementError::OutOfBounds.message(3, -1), "Position (3, -1) is out of bounds");
}

#[test]
fn placement_on_water() {
    let w = grid(&["...", ".~.", "..."]);
    assert_eq!(check_placement(&w, &[], 1, 1), Err(PlacementError::OnWater));
    assert_eq!(PlacementError::OnWater.message(1, 1), "Cannot place building on water at (1, 1)");
}

#[test]
fn placement_on_occupied_tile() {
    let w = grid(&["...", ".~.", "..."]);
    assert_eq!(check_placement(&w, &[(2, 2), (0, 2)], 0, 2), Err(PlacementError::Occupied));
    assert_eq!(
        PlacementError::Occupied.message(0, 2),
        "Tile (0, 2) is already occupied by a building"
    );
}

#[test]
fn nearest_target_wins() {
    let w = grid(&["........"]);
    let targets = [(7, 0), (3, 0), (5, 0)];
    let (bx, by, path) = find_nearest(&w, 0, 0, &targets, &[]).unwrap();
    assert_eq!((bx, by), (3, 0));
    assert_eq!(path, vec![(1, 0), (2, 0)]);
}

#[test]
fn nearest_ties_keep_first() {
    let w = grid(&["......."]);
    let targets = [(6, 0), (0, 0)];
    let (bx, by, path) = find_nearest(&w, 3, 0, &targets, &[]).unwrap();
    assert_eq!((bx, by), (6, 0));
    assert_eq!(path.len(), 2);
}

#[test]
fn nearest_none_when_unreachable() {
    let w = grid(&[".~...."]);
    assert!(find_nearest(&w, 0, 0, &[(4, 0)], &[]).is_none());
    assert!(find_nearest(&w, 0, 0, &[], &[]).is_none());
}

#[test]
fn hungry_colonist_seeks_food() {
    let w = grid(&["......"]);
    let a = seek_need(&w, 0, 0, true, true, false, &[(4, 0)], &[(2, 0)], &[]).unwrap();
    assert_eq!(a.task, ColonistTask::MovingToFood);
    assert_eq!(a.target, (4, 0));
    assert_eq!(a.path, vec![(1, 0), (2, 0), (3, 0)]);
}

#[test]
fn tired_colonist_seeks_bed() {
    let w = grid(&["......"]);
    let a = seek_need(&w, 0, 0, false, true, false, &[(4, 0)], &[(3, 0)], &[]).unwrap();
    assert_eq!(a.task, ColonistTask::MovingToBed);
    assert_eq!(a.target, (3, 0));
    assert_eq!(a.path, vec![(1, 0), (2, 0)]);
}

#[test]
fn hungry_without_reachable_food_seeks_bed() {
    let w = grid(&["...~.."]);
    let a = seek_need(&w, 0, 0, true, true, false, &[(5, 0)], &[(2, 0)], &[]).unwrap();
    assert_eq!(a.task, ColonistTask::MovingToBed);
    assert_eq!(a.path, vec![(1, 0)]);
}

#[test]
fn content_colonist_seeks_nothing() {
    let w = grid(&["......"]);
    assert!(seek_need(&w, 0, 0, false, false, false, &[(4, 0)], &[(3, 0)], &[]).is_none());
    assert!(seek_need(&w, 0, 0, true, true, false, &[], &[], &[]).is_none());
}

#[test]
fn wandering_walks_to_offset_cell() {
    let w = grid(&["....."]);
    let a = wander_to(&w, 0, 0, 3, 0, &[]).unwrap();
    assert_eq!(a.task, ColonistTask::Wandering);
    assert_eq!(a.target, (3, 0));
    assert_eq!(a.path, vec![(1, 0), (2, 0), (3, 0)]);
    // No move onto water, outside the grid, or in place.
    assert!(wander_to(&grid(&["..~"]), 0, 0, 2, 0, &[]).is_none());
    assert!(wander_to(&w, 0, 0, -1, 0, &[]).is_none());
    assert!(wander_to(&w, 2, 0, 0, 0, &[]).is_none());
}

#[test]
fn choose_task_prefers_needs() {
    let w = grid(&["......"]);
    let a = choose_task(&w, 0, 0, true, false, false, &[(4, 0)], &[], &[]).unwrap();
    assert_eq!(a.task, ColonistTask::MovingToFood);
}

#[test]
fn choose_task_wanders_nearby() {
    let w = grid(&[".......", ".......", ".......", ".......", ".......", ".......", "......."]);
    for _ in 0..50 {
        if let Some(a) = choose_task(&w, 3, 3, false, false, false, &[], &[], &[]) {
            assert_eq!(a.task, ColonistTask::Wandering);
            assert!((a.target.0 - 3).abs() <= 3 && (a.target.1 - 3).abs() <= 3);
            assert!(a.target != (3, 3));
            assert_eq!(a.path.len() as i32, (a.target.0 - 3).abs() + (a.target.1 - 3).abs());
        }
    }
}

#[test]
fn next_step_of_path() {
    let steps = vec![(1, 0), (2, 0)];
    assert_eq!(next_step(&steps, 0), Some((1, 0)));
    assert_eq!(next_step(&steps, 1), Some((2, 0)));
    assert_eq!(next_step(&steps, 2), None);
}

#[test]
fn colonist_names_cycle() {
    let names: Vec<String> = (0..10).map(colonist_name).collect();
    assert_eq!(names, vec!["Ada", "Rex", "Nova", "Colt", "Iris", "Juno", "Axel", "Wren", "Ada", "Rex"]);
}

#[test]
fn spawn_positions_are_walkable() {
    let w = grid(&["~.~", "~~~"]);
    for _ in 0..100 {
        if let Some(p) = sample_spawn_position(&w) {
            assert_eq!((p.x, p.y), (1, 0));
        }
    }
    let all_grass = grid(&["..", ".."]);
    assert!(sample_spawn_position(&all_grass).is_some());
}

#[test]
fn spawn_positions_vary() {
    let w = grid(&["...", "...", "..."]);
    let mut seen = std::collections::HashSet::new();
    for _ in 0..200 {
        let p = sample_spawn_position(&w).unwrap();
        seen.insert((p.x, p.y));
    }
    assert!(seen.len() > 1);
}

#[test]
fn placing_assigns_ids_only_on_success() {
    let w = grid(&["..", ".~"]);
    let mut ids = IdCounter::new();
    let b = place_building(&w, &[], &mut ids, BuildingType::Bed, 0, 0).unwrap();
    assert_eq!(b.id, 1);
    assert_eq!(b.building_type, BuildingType::Bed);
    let err = place_building(&w, &[(0, 0)], &mut ids, BuildingType::Wall, 0, 0).unwrap_err();
    assert_eq!(err, "Tile (0, 0) is already occupied by a building");
    let err = place_building(&w, &[], &mut ids, BuildingType::Wall, 1, 1).unwrap_err();
    assert_eq!(err, "Cannot place building on water at (1, 1)");
    let err = place_building(&w, &[], &mut ids, BuildingType::Wall, 5, 0).unwrap_err();
    assert_eq!(err, "Position (5, 0) is out of bounds");
    let b = place_building(&w, &[(0, 0)], &mut ids, BuildingType::BerryBush, 1, 0).unwrap();
    assert_eq!(b.id, 2);
}

#[test]
fn sites_are_sorted_by_kind() {
    let buildings = [
        (BuildingType::Wall, (1, 1)),
        (BuildingType::Bed, (2, 2)),
        (BuildingType::BerryBush, (3, 3)),
        (BuildingType::Wall, (4, 4)),
        (BuildingType::Bed, (5, 5)),
    ];
    let sites = collect_sites(&buildings);
    assert_eq!(sites.walls, vec![(1, 1), (4, 4)]);
    assert_eq!(sites.beds, vec![(2, 2), (5, 5)]);
    assert_eq!(sites.bushes, vec![(3, 3)]);
}

#[test]
fn id_counter_reports_capacity() {
    let c = IdCounter::new();
    assert!(c.can_issue());
}

#[test]
fn spawn_candidate_keeps_only_walkable_cells() {
    let w = grid(&["~.~", "s~~"]);
    let p = spawn_candidate(&w, 1, 0).unwrap();
    assert_eq!((p.x, p.y), (1, 0));
    let q = spawn_candidate(&w, 0, 1).unwrap();
    assert_eq!((q.x, q.y), (0, 1));
    assert!(spawn_candidate(&w, 0, 0).is_none());
    assert!(spawn_candidate(&w, 2, 1).is_none());
    assert!(spawn_candidate(&w, 3, 0).is_none());
    assert!(spawn_candidate(&w, -1, 0).is_none());
}

#[test]
fn spawn_always_succeeds_on_open_land() {
    let w = grid(&["s.", ".s"]);
    for _ in 0..50 {
        let p = sample_spawn_position(&w).unwrap();
        assert!(p.x >= 0 && p.x < 2 && p.y >= 0 && p.y < 2);
    }
}

#[test]
fn colonist_next_to_its_building_starts_at_once() {
    let w = grid(&["......"]);
    let a = seek_need(&w, 3, 0, true, false, false, &[(4, 0)], &[], &[]).unwrap();
    assert_eq!(a.task, ColonistTask::Eating);
    assert_eq!(a.target, (4, 0));
    assert!(a.path.is_empty());
    let b = seek_need(&w, 1, 0, false, true, false, &[], &[(0, 0)], &[]).unwrap();
    assert_eq!(b.task, ColonistTask::Sleeping);
    assert!(b.path.is_empty());
}

#[test]
fn colonist_with_unreachable_need_stays_idle() {
    let w = grid(&["...~.."]);
    for _ in 0..20 {
        assert!(choose_task(&w, 0, 0, true, false, false, &[(5, 0)], &[], &[]).is_none());
        assert!(choose_task(&w, 0, 0, false, true, false, &[], &[(5, 0)], &[]).is_none());
    }
    // Hungry and tired: the reachable bed is still taken.
    let a = choose_task(&w, 0, 0, true, true, false, &[(5, 0)], &[(2, 0)], &[]).unwrap();
    assert_eq!(a.task, ColonistTask::MovingToBed);
}

#[test]
fn wandering_never_ends_on_a_wall() {
    let w = grid(&["....."]);
    assert!(wander_to(&w, 0, 0, 2, 0, &[(2, 0)]).is_none());
    let a = wander_to(&w, 0, 0, 1, 0, &[(2, 0)]).unwrap();
    assert_eq!(a.path, vec![(1, 0)]);
    let open = grid(&[".......", ".......", ".......", ".......", ".......", ".......", "......."]);
    let walls = [(3, 2), (2, 3), (5, 3), (3, 5)];
    for _ in 0..50 {
        if let Some(a) = choose_task(&open, 3, 3, false, false, false, &[], &[], &walls) {
            assert!(!walls.contains(&a.target));
            assert!(a.path.iter().all(|c| !walls.contains(c)));
        }
    }
}

#[test]
fn placements_keep_buildings_apart_with_distinct_ids() {
    let w = grid(&["...", ".~.", "..."]);
    let mut ids = IdCounter::new();
    let mut sites: Vec<(i32, i32)> = Vec::new();
    let mut issued: Vec<u32> = Vec::new();
    let tries = [(0, 0), (0, 0), (1, 1), (2, 2), (3, 0), (2, 2), (1, 0)];
    for &(x, y) in tries.iter() {
        if let Ok(b) = place_building(&w, &sites, &mut ids, BuildingType::Wall, x, y) {
            sites.push((x, y));
            issued.push(b.id);
        }
    }
    assert_eq!(sites, vec![(0, 0), (2, 2), (1, 0)]);
    assert_eq!(issued, vec![1, 2, 3]);
}

#[test]
fn lower_need_is_seen_to_first() {
    let w = grid(&["......"]);
    // Hungry and tired, sleep the lower: the bed comes first.
    let a = seek_need(&w, 0, 0, true, true, true, &[(4, 0)], &[(3, 0)], &[]).unwrap();
    assert_eq!(a.task, ColonistTask::MovingToBed);
    assert_eq!(a.target, (3, 0));
    // Food the lower: the bush comes first.
    let b = choose_task(&w, 0, 0, true, true, false, &[(4, 0)], &[(3, 0)], &[]).unwrap();
    assert_eq!(b.task, ColonistTask::MovingToFood);
    assert_eq!(b.target, (4, 0));
    // Sleep lower but no bed can be reached: food is sought instead.
    let cut = grid(&["...~.."]);
    let c = seek_need(&cut, 0, 0, true, true, true, &[(2, 0)], &[(5, 0)], &[]).unwrap();
    assert_eq!(c.task, ColonistTask::MovingToFood);
}
