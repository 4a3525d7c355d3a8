//! Rooms, positions and directions of the game world, as plain values.
//!
//! The arithmetic on positions is that of the `screeps` crate: this module holds the values and
//! calls the crate on them.
use vstd::prelude::*;

verus! {

/// The side of a room, in tiles.
pub const ROOM_SIZE: u8 = 50;

/// A room of the world, in the packed form of the game: the high byte is the room's column plus
/// 128, the low byte its row plus 128.
#[derive(Clone, Copy, Debug, PartialEq, Eq, Hash, Structural)]
pub struct RoomName {
    pub packed: u16,
}

impl RoomName {
    /// The room's column: `xx` for `Exx`, `-xx - 1` for `Wxx`.
    pub open spec fn x_coord(self) -> int {
        self.packed as int / 256 - 128
    }

    /// The room's row: `yy` for `Syy`, `-yy - 1` for `Nyy`.
    pub open spec fn y_coord(self) -> int {
        self.packed as int % 256 - 128
    }
}

/// One of the eight steps a creep can take.
#[derive(Clone, Copy, Debug, PartialEq, Eq, Hash, Structural)]
pub enum Direction {
    Top,
    TopRight,
    Right,
    BottomRight,
    Bottom,
    BottomLeft,
    Left,
    TopLeft,
}

impl Direction {
    /// How far the step goes to the east.
    pub open spec fn dx(self) -> int {
        match self {
            Direction::TopRight | Direction::Right | Direction::BottomRight => 1,
            Direction::TopLeft | Direction::Left | Direction::BottomLeft => -1,
            _ => 0,
        }
    }

    /// How far the step goes to the south.
    pub open spec fn dy(self) -> int {
        match self {
            Direction::BottomLeft | Direction::Bottom | Direction::BottomRight => 1,
            Direction::TopLeft | Direction::Top | Direction::TopRight => -1,
            _ => 0,
        }
    }
}

/// A tile of a room. Every value lies inside its room.
#[derive(Clone, Copy, Debug, PartialEq, Eq, Hash, Structural)]
pub struct Position {
    x: u8,
    y: u8,
    room: RoomName,
}

impl Position {
    #[verifier::type_invariant]
    spec fn in_bounds(self) -> bool {
        self.x < ROOM_SIZE && self.y < ROOM_SIZE
    }

    /// Whether the tile lies inside its room, as every tile that a program holds does.
    pub open spec fn valid(self) -> bool {
        self.x() < ROOM_SIZE && self.y() < ROOM_SIZE
    }

    /// The tile `(x, y)` of `room`.
    pub closed spec fn at(x: u8, y: u8, room: RoomName) -> Position {
        Position { x, y, room }
    }

    /// A tile is given by its column, its row and its room.
    pub broadcast proof fn lemma_at(x: u8, y: u8, room: RoomName)
        ensures
            (#[trigger] Position::at(x, y, room)).x() == x,
            Position::at(x, y, room).y() == y,
            Position::at(x, y, room).room_name() == room,
    {
    }

    /// A tile is the one of its own column, row and room.
    pub proof fn lemma_made_of_parts(self)
        ensures
            self == Position::at(self.x(), self.y(), self.room_name()),
    {
    }

    /// The tile `(x, y)` of `room`.
    pub fn new(x: u8, y: u8, room: RoomName) -> (pos: Position)
        requires
            x < ROOM_SIZE,
            y < ROOM_SIZE,
        ensures
            pos == Position::at(x, y, room),
            pos.x() == x,
            pos.y() == y,
            pos.room_name() == room,
    {
        Position { x, y, room }
    }

    pub closed spec fn spec_x(self) -> u8 {
        self.x
    }

    pub closed spec fn spec_y(self) -> u8 {
        self.y
    }

    pub closed spec fn spec_room_name(self) -> RoomName {
        self.room
    }

    /// The column within the room.
    #[verifier::when_used_as_spec(spec_x)]
    pub fn x(self) -> (x: u8)
        ensures
            x == self.x(),
            x < ROOM_SIZE,
    {
        proof {
            use_type_invariant(&self);
        }
        self.x
    }

    /// The row within the room.
    #[verifier::when_used_as_spec(spec_y)]
    pub fn y(self) -> (y: u8)
        ensures
            y == self.y(),
            y < ROOM_SIZE,
    {
        proof {
            use_type_invariant(&self);
        }
        self.y
    }

    /// The room that the tile lies in.
    #[verifier::when_used_as_spec(spec_room_name)]
    pub fn room_name(self) -> (room: RoomName)
        ensures
            room == self.room_name(),
    {
        self.room
    }

    /// The column on the map of the whole world: east is positive, and the columns of `E0` are
    /// `0..50`.
    pub open spec fn world_x(self) -> int {
        self.room_name().x_coord() * 50 + self.x()
    }

    /// The row on the map of the whole world: south is positive, and the rows of `S0` are `0..50`.
    pub open spec fn world_y(self) -> int {
        self.room_name().y_coord() * 50 + self.y()
    }

    /// The position's column and row on the map of the whole world.
    pub fn world_coords(self) -> (coords: (i32, i32))
        ensures
            coords.0 == self.world_x(),
            coords.1 == self.world_y(),
            self.valid(),
    {
        proof {
            use_type_invariant(&self);
        }
        world_coords_of(self)
    }

    /// The number of steps between two tiles, over the map of the whole world.
    pub fn get_range_to(self, target: Position) -> (r: u32)
        ensures
            r == range(self, target),
    {
        proof {
            use_type_invariant(&self);
            use_type_invariant(&target);
        }
        range_between(self, target)
    }

    /// The direction that best points from this tile to `target`; `None` for the tile itself.
    pub fn get_direction_to(self, target: Position) -> (direction: Option<Direction>)
        ensures
            direction == direction_between(self, target),
    {
        proof {
            use_type_invariant(&self);
            use_type_invariant(&target);
        }
        direction_of(self, target)
    }
}

pub open spec fn abs(v: int) -> int {
    if v < 0 {
        -v
    } else {
        v
    }
}

/// The Chebyshev distance of two tiles on the map of the whole world.
pub open spec fn range(a: Position, b: Position) -> int {
    let dx = abs(a.world_x() - b.world_x());
    let dy = abs(a.world_y() - b.world_y());
    if dx < dy {
        dy
    } else {
        dx
    }
}

/// Straight where one axis is more than twice the other, diagonal otherwise.
pub open spec fn direction_between(from: Position, to: Position) -> Option<Direction> {
    let dx = to.world_x() - from.world_x();
    let dy = to.world_y() - from.world_y();
    if abs(dx) > 2 * abs(dy) {
        Some(if dx > 0 { Direction::Right } else { Direction::Left })
    } else if abs(dy) > 2 * abs(dx) {
        Some(if dy > 0 { Direction::Bottom } else { Direction::Top })
    } else if dx == 0 {
        None
    } else if dx > 0 {
        Some(if dy > 0 { Direction::BottomRight } else { Direction::TopRight })
    } else {
        Some(if dy > 0 { Direction::BottomLeft } else { Direction::TopLeft })
    }
}

/// `screeps::Position::world_coords`: fifty times the room's column and row, plus the tile's own.
#[verifier::external_body]
fn world_coords_of(pos: Position) -> (coords: (i32, i32))
    requires
        pos.in_bounds(),
    ensures
        coords.0 == pos.world_x(),
        coords.1 == pos.world_y(),
{
    screeps::Position::new(
        screeps::RoomCoordinate::new(pos.x).unwrap(),
        screeps::RoomCoordinate::new(pos.y).unwrap(),
        screeps::RoomName::from_packed(pos.room.packed),
    ).world_coords()
}

/// `screeps::Position::get_range_to`: the larger of the two distances along the axes, over the
/// whole world.
#[verifier::external_body]
fn range_between(a: Position, b: Position) -> (r: u32)
    requires
        a.in_bounds(),
        b.in_bounds(),
    ensures
        r == range(a, b),
{
    let from = screeps::Position::new(
        screeps::RoomCoordinate::new(a.x).unwrap(),
        screeps::RoomCoordinate::new(a.y).unwrap(),
        screeps::RoomName::from_packed(a.room.packed),
    );
    let to = screeps::Position::new(
        screeps::RoomCoordinate::new(b.x).unwrap(),
        screeps::RoomCoordinate::new(b.y).unwrap(),
        screeps::RoomName::from_packed(b.room.packed),
    );
    from.get_range_to(to)
}

/// `screeps::Position::get_direction_to`: a straight direction where one axis is more than twice
/// the other, a diagonal one where both differ, and none for the tile itself.
#[verifier::external_body]
fn direction_of(a: Position, b: Position) -> (direction: Option<Direction>)
    requires
        a.in_bounds(),
        b.in_bounds(),
    ensures
        direction == direction_between(a, b),
{
    let room_a = screeps::RoomName::from_packed(a.room.packed);
    let room_b = screeps::RoomName::from_packed(b.room.packed);
    let coord = |c: u8| screeps::RoomCoordinate::new(c).unwrap();
    let from = screeps::Position::new(coord(a.x), coord(a.y), room_a);
    let to = screeps::Position::new(coord(b.x), coord(b.y), room_b);
    Some(match from.get_direction_to(to)? {
        screeps::Direction::Top => Direction::Top,
        screeps::Direction::TopRight => Direction::TopRight,
        screeps::Direction::Right => Direction::Right,
        screeps::Direction::BottomRight => Direction::BottomRight,
        screeps::Direction::Bottom => Direction::Bottom,
        screeps::Direction::BottomLeft => Direction::BottomLeft,
        screeps::Direction::Left => Direction::Left,
        screeps::Direction::TopLeft => Direction::TopLeft,
    })
}

} // verus!
