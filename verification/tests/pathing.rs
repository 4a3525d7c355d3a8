//! Movement goals to steps, with a plain search in place of the mover's pathfinder and a plain
//! engine that moves creeps and carries them over room exits.
use screeps_combat_agent::pathing::{
    build_combat_matrix, first_step, in_room_goal, plan_search, resolve_move_direction,
    CombatCostSource, CombatIntent, SearchRequest, IMPASSABLE, MAX_OPS, SWAMP_COST,
};
use screeps_combat_agent::world::{
    CombatWorld, PlayerId, SimBody, SimCreep, SimStructure, SimTower, StructureKind, Terrain,
};
use screeps_combat_agent::{Direction, Position, RoomName};
use std::collections::{BTreeSet, HashMap};

fn named(name: &str) -> RoomName {
    RoomName { packed: screeps::RoomName::new(name).unwrap().packed_repr() }
}

fn room() -> RoomName {
    named("W1N1")
}

fn pos(x: u8, y: u8) -> Position {
    Position::new(x, y, room())
}

fn pos_in(r: RoomName, x: u8, y: u8) -> Position {
    Position::new(x, y, r)
}

/// The position `(dx, dy)` away, over borders.
fn moved(from: Position, dx: i32, dy: i32) -> Position {
    let p = screeps::Position::new(
        screeps::RoomCoordinate::new(from.x()).unwrap(),
        screeps::RoomCoordinate::new(from.y()).unwrap(),
        screeps::RoomName::from_packed(from.room_name().packed),
    )
    .checked_add((dx, dy))
    .unwrap();
    Position::new(p.x().u8(), p.y().u8(), RoomName { packed: p.room_name().packed_repr() })
}

fn east_room() -> RoomName {
    moved(pos(49, 25), 1, 0).room_name()
}

fn delta(direction: Direction) -> (i32, i32) {
    match direction {
        Direction::Top => (0, -1),
        Direction::TopRight => (1, -1),
        Direction::Right => (1, 0),
        Direction::BottomRight => (1, 1),
        Direction::Bottom => (0, 1),
        Direction::BottomLeft => (-1, 1),
        Direction::Left => (-1, 0),
        Direction::TopLeft => (-1, -1),
    }
}

fn creep_of(id: u32, owner: PlayerId, at: Position) -> SimCreep {
    SimCreep {
        id,
        owner,
        pos: at,
        body: SimBody { hits: 200, hits_max: 200, attack_power: 30, ranged_attack_power: 0 },
        alive: true,
    }
}

fn creep(id: u32, x: u8, y: u8) -> SimCreep {
    creep_of(id, 0, pos(x, y))
}

fn world_of(creeps: Vec<SimCreep>) -> CombatWorld {
    CombatWorld { creeps, structures: vec![], towers: vec![], safe_mode_owner: None }
}

fn open_terrain() -> Terrain {
    Terrain { walls: vec![], swamps: vec![] }
}

/// The merged costs of a source's room: plains cost 2, what a layer sets wins over it.
fn merged(source: &CombatCostSource, wanted: RoomName) -> Option<HashMap<(u8, u8), u32>> {
    let mut tiles: HashMap<(u8, u8), u32> = HashMap::new();
    for x in 0..50u8 {
        for y in 0..50u8 {
            tiles.insert((x, y), 2);
        }
    }
    let structures = source.get_structure_costs(wanted)?;
    let creeps = source.get_creep_costs(wanted)?;
    for layer in [structures.roads, structures.other, creeps.friendly_creeps, creeps.hostile_creeps] {
        for t in layer {
            tiles.insert((t.x, t.y), t.cost as u32);
        }
    }
    Some(tiles)
}

fn costs(world: &CombatWorld, terrain: &Terrain, r: RoomName, owner: PlayerId) -> HashMap<(u8, u8), u32> {
    build_combat_matrix(world, r, owner, &|_: RoomName| terrain.clone(), &merged).unwrap()
}

/// A search within the room of `request.from`.
fn search(source: &CombatCostSource, request: &SearchRequest) -> Vec<Position> {
    assert_eq!(request.max_ops, MAX_OPS);
    let from = request.from;
    let tiles = merged(source, from.room_name()).unwrap();
    let done = |p: Position| {
        if request.flee {
            request.goals.iter().all(|(g, r)| p.get_range_to(*g) > *r)
        } else {
            request.goals.iter().any(|(g, r)| p.get_range_to(*g) <= *r)
        }
    };
    let mut best: HashMap<(u8, u8), u32> = HashMap::new();
    let mut parent: HashMap<(u8, u8), (u8, u8)> = HashMap::new();
    let mut open: BTreeSet<(u32, u8, u8)> = BTreeSet::new();
    best.insert((from.x(), from.y()), 0);
    open.insert((0, from.x(), from.y()));
    let mut end: Option<(u8, u8)> = None;
    let mut farthest: (u32, u32, (u8, u8)) = (0, 0, (from.x(), from.y()));
    while let Some((cost, x, y)) = open.iter().next().copied() {
        open.remove(&(cost, x, y));
        let here = Position::new(x, y, from.room_name());
        if done(here) {
            end = Some((x, y));
            break;
        }
        if request.flee {
            let away = request.goals.iter().map(|(g, _)| here.get_range_to(*g)).min().unwrap_or(0);
            if away > farthest.0 {
                farthest = (away, cost, (x, y));
            }
        }
        for dx in -1i32..=1 {
            for dy in -1i32..=1 {
                let (nx, ny) = (x as i32 + dx, y as i32 + dy);
                if (dx, dy) == (0, 0) || !(0..50).contains(&nx) || !(0..50).contains(&ny) {
                    continue;
                }
                let next = (nx as u8, ny as u8);
                let step = tiles[&next];
                if step >= IMPASSABLE as u32 {
                    continue;
                }
                // A diagonal step loses a tie against a straight one.
                let total = cost + 100 * step + if dx != 0 && dy != 0 { 1 } else { 0 };
                if best.get(&next).map_or(true, |&b| total < b) {
                    if let Some(&b) = best.get(&next) {
                        open.remove(&(b, next.0, next.1));
                    }
                    best.insert(next, total);
                    parent.insert(next, (x, y));
                    open.insert((total, next.0, next.1));
                }
            }
        }
    }
    let mut at = match end {
        Some(tile) => tile,
        None if request.flee => farthest.2,
        None => return vec![],
    };
    let mut path = Vec::new();
    while at != (from.x(), from.y()) {
        path.push(Position::new(at.0, at.1, from.room_name()));
        at = parent[&at];
    }
    path.reverse();
    path
}

fn resolve(world: &CombatWorld, from: Position, owner: PlayerId, intent: &CombatIntent) -> Option<Direction> {
    resolve_in(world, &open_terrain(), from, owner, intent)
}

fn resolve_in(
    world: &CombatWorld,
    terrain: &Terrain,
    from: Position,
    owner: PlayerId,
    intent: &CombatIntent,
) -> Option<Direction> {
    resolve_move_direction(world, from, owner, intent, &|_: RoomName| terrain.clone(), &search)
}

/// One tick of moving a single creep: the step, and the room exit at its end.
fn walk(world: &mut CombatWorld, id: u32, direction: Option<Direction>) {
    let c = world.creeps.iter_mut().find(|c| c.id == id).unwrap();
    if let Some(d) = direction {
        let (dx, dy) = delta(d);
        c.pos = moved(c.pos, dx, dy);
    }
    let (dx, dy) = match (c.pos.x(), c.pos.y()) {
        (0, _) => (-1, 0),
        (49, _) => (1, 0),
        (_, 0) => (0, -1),
        (_, 49) => (0, 1),
        _ => (0, 0),
    };
    c.pos = moved(c.pos, dx, dy);
}

#[test]
fn moves_toward_an_open_goal() {
    let world = world_of(vec![creep(1, 5, 25)]);
    let dir = resolve(&world, pos(5, 25), 0, &CombatIntent::MoveTo { target: pos(15, 25), range: 0 });
    assert!(
        matches!(dir, Some(Direction::Right | Direction::TopRight | Direction::BottomRight)),
        "open room: step east toward the goal, got {:?}",
        dir
    );
}

#[test]
fn detours_around_a_wall() {
    let world = world_of(vec![creep(1, 5, 25)]);
    let mut terrain = open_terrain();
    for y in 23..=27 {
        terrain.walls.push((6, y));
    }
    let dir = resolve_in(
        &world,
        &terrain,
        pos(5, 25),
        0,
        &CombatIntent::MoveTo { target: pos(10, 25), range: 0 },
    )
    .expect("a route around exists");
    assert_ne!(dir, Direction::Right, "does not walk into the wall");
    assert!(
        matches!(dir, Direction::TopRight | Direction::BottomRight | Direction::Top | Direction::Bottom),
        "heads around the wall, got {:?}",
        dir
    );
}

#[test]
fn already_in_range_yields_no_move() {
    let world = world_of(vec![creep(1, 5, 25)]);
    let dir = resolve(&world, pos(5, 25), 0, &CombatIntent::MoveTo { target: pos(7, 25), range: 3 });
    assert_eq!(dir, None, "distance 2 already within range 3: hold");
}

#[test]
fn flees_away_from_a_threat() {
    let world = world_of(vec![creep(1, 30, 25)]);
    let dir = resolve(&world, pos(30, 25), 0, &CombatIntent::Flee { from: vec![pos(25, 25)], range: 5 })
        .expect("can flee in an open room");
    assert!(
        matches!(dir, Direction::Right | Direction::TopRight | Direction::BottomRight),
        "flees away from the threat (eastward), got {:?}",
        dir
    );
}

#[test]
fn non_movement_intent_is_none() {
    let world = world_of(vec![creep(1, 5, 25)]);
    assert_eq!(resolve(&world, pos(5, 25), 0, &CombatIntent::Idle), None);
}

#[test]
fn aims_toward_the_exit_for_a_cross_room_target() {
    let east = pos_in(east_room(), 25, 25);
    let world = world_of(vec![creep(1, 25, 25)]);
    let dir = resolve(&world, pos(25, 25), 0, &CombatIntent::MoveTo { target: east, range: 0 })
        .expect("a cross-room route exists");
    assert!(
        matches!(dir, Direction::Right | Direction::TopRight | Direction::BottomRight),
        "heads east toward the exit, got {:?}",
        dir
    );
}

#[test]
fn paths_a_creep_across_a_room_boundary() {
    let target = pos_in(east_room(), 5, 25);
    let mut world = world_of(vec![creep(1, 45, 25)]);
    let mut reached = false;
    for _ in 0..40 {
        let from = world.creeps[0].pos;
        if from == target {
            reached = true;
            break;
        }
        let dir = resolve(&world, from, 0, &CombatIntent::MoveTo { target, range: 0 });
        walk(&mut world, 1, dir);
    }
    assert!(reached, "the creep pathed across the border into the east room and reached the target");
}

/// The room `n` steps east of W1N1.
fn east_of_w1n1(n: u32) -> RoomName {
    let mut r = room();
    for _ in 0..n {
        r = moved(pos_in(r, 49, 25), 1, 0).room_name();
    }
    r
}

#[test]
fn cross_room_travel_two_borders() {
    let target = pos_in(east_of_w1n1(2), 10, 25);
    let mut world = world_of(vec![creep(1, 40, 25)]);
    let mut arrived = None;
    for tick in 0..120 {
        let from = world.creeps[0].pos;
        if from == target {
            arrived = Some(tick);
            break;
        }
        let dir = resolve(&world, from, 0, &CombatIntent::MoveTo { target, range: 0 });
        walk(&mut world, 1, dir);
    }
    assert!(arrived.is_some(), "creep crossed two borders and reached the target two rooms east");
}

#[test]
fn flee_across_rooms() {
    let threat = pos(45, 25);
    let mut world = world_of(vec![creep(1, 5, 25), creep_of(99, 1, threat)]);
    let mut escaped_room = None;
    for _ in 0..40 {
        let from = world.creeps.iter().find(|c| c.id == 1).unwrap().pos;
        if from.room_name() != room() {
            escaped_room = Some(from.room_name());
            break;
        }
        let dir = resolve(&world, from, 0, &CombatIntent::Flee { from: vec![threat], range: 50 });
        walk(&mut world, 1, dir);
    }
    let escaped = escaped_room.expect("the creep fled across the border out of W1N1");
    let west = moved(pos(0, 25), -1, 0).room_name();
    assert_eq!(escaped, west, "fled WEST, away from the eastern threat");
}

#[test]
fn integration_gate_marker() {
    assert_ne!(east_of_w1n1(1), room());
    assert_eq!(pos(5, 25).get_direction_to(pos(6, 25)), Some(Direction::Right));
}

#[test]
fn goals_of_other_rooms_are_edge_tiles() {
    // Same room: the target itself.
    assert_eq!(in_room_goal(pos(3, 3), pos(40, 41)), pos(40, 41));
    // East, two rooms away: the east edge, on the target's row.
    assert_eq!(in_room_goal(pos(25, 25), pos_in(east_of_w1n1(2), 10, 7)), pos(49, 7));
    // West and north at once: the corner.
    assert_eq!(in_room_goal(pos(25, 25), pos_in(named("W2N2"), 30, 30)), pos(0, 0));
    // South: the bottom edge.
    assert_eq!(in_room_goal(pos(25, 25), pos_in(named("W1N0"), 12, 30)), pos(12, 49));
}

#[test]
fn a_cross_room_goal_is_sought_at_range_zero() {
    let far = CombatIntent::MoveTo { target: pos_in(east_room(), 25, 25), range: 3 };
    let request = plan_search(pos(25, 25), &far).unwrap();
    assert_eq!(request.goals, vec![(pos(49, 25), 0)]);
    assert!(!request.flee);
    let near = CombatIntent::MoveTo { target: pos(30, 25), range: 3 };
    assert_eq!(plan_search(pos(25, 25), &near).unwrap().goals, vec![(pos(30, 25), 3)]);
    let flee = CombatIntent::Flee { from: vec![pos(1, 1), pos(2, 2)], range: 4 };
    let request = plan_search(pos(25, 25), &flee).unwrap();
    assert_eq!(request.goals, vec![(pos(1, 1), 4), (pos(2, 2), 4)]);
    assert!(request.flee);
    assert!(plan_search(pos(25, 25), &CombatIntent::Unresolved).is_none());
}

#[test]
fn a_path_is_walked_from_its_first_tile() {
    assert_eq!(first_step(pos(5, 5), &vec![]), None);
    assert_eq!(first_step(pos(5, 5), &vec![pos(6, 6), pos(7, 5)]), Some(Direction::BottomRight));
}

#[test]
fn obstacles_are_those_of_the_room_and_not_the_friends() {
    let world = CombatWorld {
        creeps: vec![
            creep(1, 5, 5),                                     // own
            creep_of(2, 1, pos(6, 5)),                          // hostile
            creep_of(3, 1, pos_in(named("W2N1"), 7, 5)),        // hostile, elsewhere
            SimCreep { alive: false, ..creep_of(4, 1, pos(8, 5)) }, // dead
        ],
        structures: vec![
            SimStructure {
                id: 10,
                kind: StructureKind::Rampart,
                owner: Some(1),
                pos: pos(20, 20),
                hits: 5,
                hits_max: 5,
                alive: true,
            },
            SimStructure {
                id: 11,
                kind: StructureKind::Wall,
                owner: None,
                pos: pos(21, 20),
                hits: 0,
                hits_max: 5,
                alive: false,
            },
        ],
        towers: vec![SimTower { id: 12, owner: 1, pos: pos(22, 20), hits: 3000, alive: true }],
        safe_mode_owner: None,
    };
    // A swamp under a rampart: the rampart wins.
    let terrain = Terrain { walls: vec![(30, 30)], swamps: vec![(20, 20), (31, 30)] };
    let tiles = costs(&world, &terrain, room(), 0);
    assert_eq!(tiles[&(5, 5)], 2);
    assert_eq!(tiles[&(6, 5)], IMPASSABLE as u32);
    assert_eq!(tiles[&(7, 5)], 2);
    assert_eq!(tiles[&(8, 5)], 2);
    assert_eq!(tiles[&(20, 20)], IMPASSABLE as u32);
    assert_eq!(tiles[&(21, 20)], 2);
    assert_eq!(tiles[&(22, 20)], IMPASSABLE as u32);
    assert_eq!(tiles[&(30, 30)], IMPASSABLE as u32);
    assert_eq!(tiles[&(31, 30)], SWAMP_COST as u32);

    let source = CombatCostSource::from_world(&world, &terrain, room(), 0);
    assert_eq!(source.blockers, vec![(20, 20), (22, 20)]);
    assert_eq!(source.hostiles, vec![(6, 5)]);
    assert!(source.get_structure_costs(named("W2N1")).is_none());
    assert!(source.get_creep_costs(named("W2N1")).is_none());
    assert!(source.get_construction_site_costs(room()).is_none());
    assert!(source.get_creep_costs(room()).unwrap().friendly_creeps.is_empty());
}

#[test]
fn a_builder_without_a_matrix_gives_none() {
    let world = world_of(vec![]);
    let open = |_: RoomName| open_terrain();
    let none: Option<u8> = build_combat_matrix(&world, room(), 0, &open, &|_: &CombatCostSource, _: RoomName| None);
    assert_eq!(none, None);
}

#[test]
fn own_creeps_the_dead_and_other_rooms_change_nothing() {
    let intent = CombatIntent::MoveTo { target: pos(15, 25), range: 0 };
    let bare = world_of(vec![creep_of(2, 1, pos(6, 25)), creep_of(3, 1, pos(6, 24))]);
    let mut crowded = bare.clone();
    crowded.creeps.insert(0, creep(1, 5, 25));
    crowded.creeps.push(creep(4, 6, 26));
    crowded.creeps.push(SimCreep { alive: false, ..creep_of(5, 1, pos(6, 26)) });
    crowded.creeps.push(creep_of(6, 1, pos_in(named("W2N1"), 6, 26)));
    let open = open_terrain();
    assert_eq!(costs(&bare, &open, room(), 0), costs(&crowded, &open, room(), 0));
    let step = resolve(&bare, pos(5, 25), 0, &intent);
    assert_eq!(step, resolve(&crowded, pos(5, 25), 0, &intent));
    // The one way that no hostile blocks.
    assert_eq!(step, Some(Direction::BottomRight));
}

#[test]
fn the_terrain_is_that_of_the_walkers_room() {
    let world = world_of(vec![]);
    let terrain = |r: RoomName| {
        assert_eq!(r, room());
        Terrain { walls: vec![(6, 25)], swamps: vec![] }
    };
    let target = pos_in(east_room(), 3, 25);
    let dir = resolve_move_direction(&world, pos(5, 25), 0, &CombatIntent::MoveTo { target, range: 1 }, &terrain, &search);
    assert!(matches!(dir, Some(Direction::TopRight | Direction::BottomRight)));
}
