use gatherer_world::utils::directional_deltas::{cardinal_delta, orthogonal_delta, Direction};
use gatherer_world::utils::map_cord::MapCord;

#[test]
fn turn_left_and_right_cycle() {
    assert_eq!(Direction::North.turn_left(), Direction::West);
    assert_eq!(Direction::North.turn_right(), Direction::East);
    assert_eq!(Direction::West.turn_right(), Direction::North);
    assert_eq!(Direction::South.turn_left(), Direction::East);
    for d in [Direction::North, Direction::East, Direction::South, Direction::West] {
        assert_eq!(d.turn_left().turn_right(), d);
        assert_eq!(d.turn_right().turn_right().turn_right().turn_right(), d);
    }
}

#[test]
fn repr_round_trip() {
    for r in 0..4i8 {
        assert_eq!(Direction::get_enum_from_repr(r).repr(), r);
    }
}

#[test]
fn deltas() {
    assert_eq!(cardinal_delta(0), MapCord::new(0, -1));
    assert_eq!(cardinal_delta(1), MapCord::new(1, 0));
    assert_eq!(orthogonal_delta(3), MapCord::new(1, 1));
    assert_eq!(orthogonal_delta(7), MapCord::new(-1, -1));
}
