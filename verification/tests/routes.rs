use park_sim::grid::{xy_to_idx, Filter, ENTRANCE_IDX, N};
use park_sim::paths::{pick_ride_target, recompute_paths, step_along_track, step_bfs, step_toward};
use park_sim::world::World;

fn at(x: usize, y: usize) -> usize {
    xy_to_idx(x, y)
}

fn world_with(cells: &[(usize, usize, u8)]) -> World {
    let mut w = World::new();
    for &(x, y, t) in cells {
        w.tiles[at(x, y)] = t;
    }
    recompute_paths(&mut w);
    w
}

#[test]
fn boarding_is_nearest_track() {
    // Path east from the entrance, with track at distance 3 and at distance 2 (north branch).
    let w = world_with(&[(1, 7, 1), (2, 7, 1), (3, 7, 2), (1, 6, 2)]);
    assert_eq!(w.boarding_tile, at(1, 6) as i16);
    assert_eq!(w.parent[at(1, 7)], ENTRANCE_IDX as i16);
    assert_eq!(w.parent[at(2, 7)], at(1, 7) as i16);
    assert_eq!(w.parent[at(3, 7)], at(2, 7) as i16);
    assert_eq!(w.parent[at(1, 6)], at(1, 7) as i16);
    assert_eq!(w.parent[ENTRANCE_IDX], -1);
    assert_eq!(w.parent[at(5, 5)], -1);
}

#[test]
fn no_boarding_without_reachable_track() {
    // Track that is not connected to the entrance.
    let w = world_with(&[(1, 7, 1), (5, 5, 2)]);
    assert_eq!(w.boarding_tile, -1);
    assert_eq!(w.parent[at(5, 5)], -1);
    assert_eq!(w.parent[at(1, 7)], ENTRANCE_IDX as i16);
}

#[test]
fn boarding_tie_goes_to_search_order() {
    // Two track tiles at distance 2; the search tries right, left, down, up.
    let w = world_with(&[(1, 7, 1), (2, 7, 2), (1, 8, 2)]);
    assert_eq!(w.boarding_tile, at(2, 7) as i16);
}

#[test]
fn step_bfs_follows_shortest_path() {
    let w = world_with(&[(1, 7, 1), (2, 7, 1), (3, 7, 1)]);
    let from = ENTRANCE_IDX as u16;
    let target = at(3, 7) as u16;
    for seed in 0..20u32 {
        assert_eq!(step_bfs(&w.tiles, from, target, Filter::Walkable, seed), Some(at(1, 7) as u16));
    }
    assert_eq!(step_toward(&w, at(3, 7) as u16, from, 9), Some(at(2, 7) as u16));
}

#[test]
fn step_bfs_none_cases() {
    let w = world_with(&[(1, 7, 1), (5, 5, 1)]);
    assert_eq!(step_bfs(&w.tiles, ENTRANCE_IDX as u16, ENTRANCE_IDX as u16, Filter::Walkable, 3), None);
    assert_eq!(step_bfs(&w.tiles, ENTRANCE_IDX as u16, at(5, 5) as u16, Filter::Walkable, 3), None);
    // A target off the grid is never reached.
    assert_eq!(step_bfs(&w.tiles, ENTRANCE_IDX as u16, N as u16 + 7, Filter::Walkable, 3), None);
}

#[test]
fn step_bfs_ties_depend_on_seed_but_stay_shortest() {
    // A 2x2 square of path: two equally short ways from (1,6) to (2,7).
    let w = world_with(&[(1, 6, 1), (2, 6, 1), (1, 7, 1), (2, 7, 1)]);
    let from = at(1, 6) as u16;
    let target = at(2, 7) as u16;
    let mut seen = Vec::new();
    for seed in 0..64u32 {
        let n = step_bfs(&w.tiles, from, target, Filter::Walkable, seed).unwrap();
        assert!(n == at(2, 6) as u16 || n == at(1, 7) as u16);
        if !seen.contains(&n) {
            seen.push(n);
        }
    }
    assert_eq!(seen.len(), 2);
}

#[test]
fn step_along_track_stays_on_track() {
    let w = world_with(&[(1, 7, 1), (2, 7, 2), (3, 7, 2), (4, 7, 2)]);
    assert_eq!(step_along_track(&w, at(2, 7) as u16, at(4, 7) as u16, 5), Some(at(3, 7) as u16));
    // The start itself need not be track; only the tiles stepped onto must be.
    assert_eq!(step_along_track(&w, at(1, 7) as u16, at(4, 7) as u16, 5), Some(at(2, 7) as u16));
    assert_eq!(step_along_track(&w, ENTRANCE_IDX as u16, at(4, 7) as u16, 5), None);
}

#[test]
fn ride_target_is_far_end() {
    let w = world_with(&[(1, 7, 1), (2, 7, 2), (3, 7, 2), (4, 7, 2), (4, 8, 2)]);
    assert_eq!(pick_ride_target(&w, at(2, 7) as u16), at(4, 8) as u16);
}

#[test]
fn ride_target_alone_is_boarding() {
    let w = world_with(&[(1, 7, 1), (2, 7, 2)]);
    assert_eq!(pick_ride_target(&w, at(2, 7) as u16), at(2, 7) as u16);
}

#[test]
fn bfs_on_grass_sees_only_the_start() {
    let w = World::new();
    let dirs = park_sim::rng::base_neighbors();
    let (queue, parent, found) = park_sim::search::bfs(&w.tiles, ENTRANCE_IDX, Filter::Walkable, &dirs, None);
    assert_eq!(queue, vec![ENTRANCE_IDX]);
    assert!(parent.iter().all(|&p| p == -1));
    assert!(!found);
}

#[test]
fn bfs_queue_in_distance_order() {
    let w = world_with(&[(1, 7, 1), (2, 7, 1), (1, 6, 1), (1, 8, 2)]);
    let dirs = park_sim::rng::base_neighbors();
    let (queue, parent, found) =
        park_sim::search::bfs(&w.tiles, ENTRANCE_IDX, Filter::Walkable, &dirs, Some(at(2, 7)));
    assert!(found);
    assert_eq!(queue, vec![ENTRANCE_IDX, at(1, 7), at(2, 7), at(1, 8), at(1, 6)]);
    assert_eq!(parent[at(2, 7)], at(1, 7) as i16);
}
