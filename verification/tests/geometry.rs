//! Positions against the game's own position type.
use screeps_combat_agent::{Direction, Position, RoomName};

fn room(name: &str) -> RoomName {
    RoomName { packed: screeps::RoomName::new(name).unwrap().packed_repr() }
}

fn outside(pos: Position) -> screeps::Position {
    screeps::Position::new(
        screeps::RoomCoordinate::new(pos.x()).unwrap(),
        screeps::RoomCoordinate::new(pos.y()).unwrap(),
        screeps::RoomName::from_packed(pos.room_name().packed),
    )
}

fn sample() -> Vec<Position> {
    let mut tiles = Vec::new();
    for name in ["W1N1", "W0N1", "E0S0", "W2N1", "E127S127", "W127N127"] {
        for (x, y) in [(0u8, 0u8), (25, 25), (49, 0), (3, 47), (49, 49)] {
            tiles.push(Position::new(x, y, room(name)));
        }
    }
    tiles
}

#[test]
fn a_position_keeps_its_parts() {
    let p = Position::new(7, 31, room("W1N1"));
    assert_eq!((p.x(), p.y(), p.room_name()), (7, 31, room("W1N1")));
    assert_eq!(p, Position::new(7, 31, room("W1N1")));
    assert_ne!(p, Position::new(7, 31, room("W2N1")));
}

#[test]
fn world_coordinates_of_known_tiles() {
    assert_eq!(Position::new(5, 6, room("E0S0")).world_coords(), (5, 6));
    assert_eq!(Position::new(0, 0, room("W0N0")).world_coords(), (-50, -50));
    assert_eq!(Position::new(10, 20, room("W1N1")).world_coords(), (-90, -80));
    assert_eq!(Position::new(49, 49, room("E127S127")).world_coords(), (6399, 6399));
    assert_eq!(Position::new(0, 0, room("W127N127")).world_coords(), (-6400, -6400));
}

#[test]
fn ranges_of_known_tiles() {
    let a = Position::new(20, 25, room("W1N1"));
    assert_eq!(a.get_range_to(Position::new(25, 27, room("W1N1"))), 5);
    assert_eq!(a.get_range_to(a), 0);
    // Over a border the two edge tiles are neighbours.
    let west = Position::new(49, 25, room("W1N1"));
    let east = Position::new(0, 26, room("W0N1"));
    assert_eq!(west.get_range_to(east), 1);
}

#[test]
fn directions_of_known_tiles() {
    let c = Position::new(25, 25, room("W1N1"));
    let to = |x: u8, y: u8| c.get_direction_to(Position::new(x, y, room("W1N1")));
    assert_eq!(to(26, 25), Some(Direction::Right));
    assert_eq!(to(24, 25), Some(Direction::Left));
    assert_eq!(to(25, 24), Some(Direction::Top));
    assert_eq!(to(25, 26), Some(Direction::Bottom));
    assert_eq!(to(26, 24), Some(Direction::TopRight));
    assert_eq!(to(26, 26), Some(Direction::BottomRight));
    assert_eq!(to(24, 26), Some(Direction::BottomLeft));
    assert_eq!(to(24, 24), Some(Direction::TopLeft));
    assert_eq!(to(25, 25), None);
    // One axis more than twice the other is straight, exactly twice is diagonal.
    assert_eq!(to(28, 26), Some(Direction::Right));
    assert_eq!(to(27, 26), Some(Direction::BottomRight));
}

#[test]
fn agrees_with_the_game_on_every_pair() {
    for a in sample() {
        assert_eq!(a.world_coords(), outside(a).world_coords());
        for b in sample() {
            assert_eq!(a.get_range_to(b), outside(a).get_range_to(outside(b)));
            let ours = a.get_direction_to(b).map(|d| format!("{:?}", d));
            let theirs = outside(a).get_direction_to(outside(b)).map(|d| format!("{:?}", d));
            assert_eq!(ours, theirs);
        }
    }
}
