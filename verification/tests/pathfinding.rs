use gatherer_world::map::tile_map::{MapGenCounts, TileMap};
use gatherer_world::utils::map_cord::MapCord;
use gatherer_world::utils::pathfinding::{PathFinder, PathResult};

fn open_field() -> TileMap {
    let mut rng = rand::rng();
    let counts = MapGenCounts { lake_cycles: 0, standalone_trees: -1, standalone_grass: -1 };
    TileMap::generate_map(20, 20, counts, &mut rng).ok().unwrap()
}

#[test]
fn straight_path_on_open_ground() {
    let map = open_field();
    let mut pf = PathFinder::new(20, 20);
    match pf.a_star(MapCord::new(0, 0), MapCord::new(3, 0), &map, 100) {
        PathResult::Success { path } => {
            let p: Vec<MapCord> = path.into_iter().collect();
            assert_eq!(p, vec![MapCord::new(1, 0), MapCord::new(2, 0), MapCord::new(3, 0)]);
        }
        _ => panic!("expected a path"),
    }
}

#[test]
fn diagonal_path_on_open_ground() {
    let map = open_field();
    let mut pf = PathFinder::new(20, 20);
    match pf.a_star(MapCord::new(2, 2), MapCord::new(5, 5), &map, 100) {
        PathResult::Success { path } => {
            let p: Vec<MapCord> = path.into_iter().collect();
            assert_eq!(p, vec![MapCord::new(3, 3), MapCord::new(4, 4), MapCord::new(5, 5)]);
        }
        _ => panic!("expected a path"),
    }
}

#[test]
fn path_to_the_start_is_empty() {
    let map = open_field();
    let mut pf = PathFinder::new(20, 20);
    match pf.a_star(MapCord::new(4, 4), MapCord::new(4, 4), &map, 100) {
        PathResult::Success { path } => assert!(path.is_empty()),
        _ => panic!("expected an empty path"),
    }
}

#[test]
fn far_goals_are_too_long() {
    let map = open_field();
    let mut pf = PathFinder::new(20, 20);
    assert!(matches!(pf.a_star(MapCord::new(0, 0), MapCord::new(10, 0), &map, 5), PathResult::TooLong));
    assert!(matches!(pf.a_star(MapCord::new(0, 0), MapCord::new(3, 4), &map, 5), PathResult::TooLong));
    assert!(matches!(pf.a_star(MapCord::new(0, 0), MapCord::new(3, 3), &map, 5), PathResult::Success { .. }));
}

#[test]
fn off_map_goals_have_no_route() {
    let map = open_field();
    let mut pf = PathFinder::new(20, 20);
    assert!(matches!(pf.a_star(MapCord::new(0, 0), MapCord::new(25, 0), &map, 100), PathResult::NoRoute));
    assert!(matches!(pf.a_star(MapCord::new(-1, 0), MapCord::new(2, 0), &map, 100), PathResult::NoRoute));
}

#[test]
fn searches_can_be_repeated() {
    let map = open_field();
    let mut pf = PathFinder::new(20, 20);
    for k in 1..10i16 {
        match pf.a_star(MapCord::new(0, 0), MapCord::new(k, 0), &map, 100) {
            PathResult::Success { path } => assert_eq!(path.len(), k as usize),
            _ => panic!("expected a path"),
        }
    }
}

fn step_costs(start: MapCord, path: &[MapCord]) -> u64 {
    let mut prev = start;
    let mut total = 0u64;
    for c in path {
        total += if c.x != prev.x && c.y != prev.y { 14_142 } else { 10_000 };
        prev = *c;
    }
    total
}

#[test]
fn mixed_path_costs_the_octile_distance() {
    let map = open_field();
    let mut pf = PathFinder::new(20, 20);
    match pf.a_star(MapCord::new(1, 1), MapCord::new(6, 3), &map, 100) {
        PathResult::Success { path } => {
            let p: Vec<MapCord> = path.into_iter().collect();
            assert_eq!(p.len(), 5);
            assert_eq!(step_costs(MapCord::new(1, 1), &p), 3 * 10_000 + 2 * 14_142);
            assert_eq!(*p.last().unwrap(), MapCord::new(6, 3));
        }
        _ => panic!("expected a path"),
    }
}

#[test]
fn early_answers_need_no_sized_finder() {
    let map = open_field();
    let mut pf = PathFinder::new(1, 1);
    assert!(matches!(pf.a_star(MapCord::new(0, 0), MapCord::new(10, 0), &map, 5), PathResult::TooLong));
    assert!(matches!(pf.a_star(MapCord::new(0, 0), MapCord::new(30, 0), &map, 100), PathResult::NoRoute));
}
