//! Squads on the move and in the fight, with plain stand-ins for what moves and decides around
//! them: a mover that paths through squadmates and gives way, an anchor that routes a box, a kernel
//! that closes in and strikes, and an engine that adjudicates.
use screeps_combat_agent::managed::{
    CombatConstants, FocusTarget, HealAssignment, ManagedSimSquad, MemberMovement, MemberOrders,
    SquadDecision, SquadOrderState, SquadSituation,
};
use screeps_combat_agent::movement::{MoveGoal, MoveRequest, MovementPriority};
use screeps_combat_agent::pathing::{in_room_goal, CombatIntent};
use screeps_combat_agent::squad::{
    offset_pos, Anchor, AnchorOutcome, GatherReading, SimSquad, COHESION_TOL,
};
use screeps_combat_agent::view::{FriendView, HostileView, Ownership, SimView, StructureView};
use screeps_combat_agent::world::{
    CombatAction, CombatWorld, CreepId, Intents, PlayerId, SimBody, SimCreep, SimStructure, SimTower,
    StructureKind, Terrain,
};
use screeps_combat_agent::{Direction, Position, RoomName};
use std::cell::RefCell;
use std::collections::{HashMap, HashSet, VecDeque};

/// The share of members that must be gathered, and how near the anchor is near.
const QUORUM: f32 = 0.75;
const LOOSE_RADIUS: u32 = 3;

#[derive(Clone, Copy, Debug, PartialEq)]
enum Part {
    Tough,
    Work,
    Attack,
    RangedAttack,
    Heal,
    Move,
}

fn named(name: &str) -> RoomName {
    RoomName { packed: screeps::RoomName::new(name).unwrap().packed_repr() }
}

fn room() -> RoomName {
    named("W1N1")
}

fn pos(x: u8, y: u8) -> Position {
    Position::new(x, y, room())
}

fn moved(from: Position, dx: i32, dy: i32) -> Position {
    let p = screeps::Position::new(
        screeps::RoomCoordinate::new(from.x()).unwrap(),
        screeps::RoomCoordinate::new(from.y()).unwrap(),
        screeps::RoomName::from_packed(from.room_name().packed),
    )
    .checked_add((dx, dy))
    .unwrap();
    Position::new(p.x().u8(), p.y().u8(), RoomName { packed: p.room_name().packed_repr() })
}

const STEPS: [(i32, i32); 8] = [(0, -1), (1, 0), (0, 1), (-1, 0), (1, -1), (1, 1), (-1, 1), (-1, -1)];

fn delta(direction: Direction) -> (i32, i32) {
    match direction {
        Direction::Top => (0, -1),
        Direction::TopRight => (1, -1),
        Direction::Right => (1, 0),
        Direction::BottomRight => (1, 1),
        Direction::Bottom => (0, 1),
        Direction::BottomLeft => (-1, 1),
        Direction::Left => (-1, 0),
        Direction::TopLeft => (-1, -1),
    }
}

/// A shortest path within one room, over tiles that are `free`.
fn path(from: Position, done: &dyn Fn(Position) -> bool, free: &dyn Fn(Position) -> bool) -> Option<Vec<Position>> {
    let mut parent: HashMap<(u8, u8), Position> = HashMap::new();
    let mut queue = VecDeque::from([from]);
    parent.insert((from.x(), from.y()), from);
    while let Some(here) = queue.pop_front() {
        if done(here) {
            let mut out = vec![];
            let mut at = here;
            while at != from {
                out.push(at);
                at = parent[&(at.x(), at.y())];
            }
            out.reverse();
            return Some(out);
        }
        for (dx, dy) in STEPS {
            let (nx, ny) = (here.x() as i32 + dx, here.y() as i32 + dy);
            if (0..50).contains(&nx) && (0..50).contains(&ny) {
                let next = Position::new(nx as u8, ny as u8, from.room_name());
                if !parent.contains_key(&(nx as u8, ny as u8)) && free(next) {
                    parent.insert((nx as u8, ny as u8), here);
                    queue.push_back(next);
                }
            }
        }
    }
    None
}

/// The terrain, and what the library's world leaves out: bodies and tower energy.
#[derive(Clone)]
struct Sim {
    world: CombatWorld,
    terrain: Terrain,
    parts: HashMap<CreepId, Vec<Part>>,
    energy: HashMap<u32, u32>,
}

impl Sim {
    fn new() -> Sim {
        Sim {
            world: CombatWorld { creeps: vec![], structures: vec![], towers: vec![], safe_mode_owner: None },
            terrain: Terrain { walls: vec![], swamps: vec![] },
            parts: HashMap::new(),
            energy: HashMap::new(),
        }
    }

    fn add(&mut self, id: CreepId, owner: PlayerId, at: Position, parts: &[Part]) {
        self.parts.insert(id, parts.to_vec());
        let hits = 100 * parts.len() as u32;
        let body = SimBody { hits, hits_max: hits, attack_power: 0, ranged_attack_power: 0 };
        self.world.creeps.push(SimCreep { id, owner, pos: at, body, alive: true });
    }

    fn creep(&self, id: CreepId) -> &SimCreep {
        self.world.creeps.iter().find(|c| c.id == id).unwrap()
    }

    /// Working parts: the front ones fall first, a hundred hits each.
    fn working(&self, c: &SimCreep, kind: Part) -> u32 {
        let parts = &self.parts[&c.id];
        let n = parts.len();
        (0..n).filter(|&i| parts[i] == kind && c.body.hits > 100 * (n - 1 - i) as u32).count() as u32
    }

    fn wall(&self, at: Position) -> bool {
        self.terrain.walls.contains(&(at.x(), at.y()))
    }

    fn solid(&self, owner: PlayerId, at: Position) -> bool {
        self.wall(at)
            || self.world.structures.iter().any(|s| s.alive && s.pos == at)
            || self.world.towers.iter().any(|t| t.alive && t.pos == at)
            || self.world.creeps.iter().any(|c| c.alive && c.owner != owner && c.pos == at)
    }

    fn look(&self, owner: PlayerId, r: RoomName) -> SimView {
        let here = |c: &&SimCreep| c.alive && c.pos.room_name() == r;
        SimView {
            friends: self.world.creeps.iter().filter(here).filter(|c| c.owner == owner).map(|c| self.friend(c)).collect(),
            hostiles: self
                .world
                .creeps
                .iter()
                .filter(here)
                .filter(|c| c.owner != owner)
                .map(|c| HostileView { pos: c.pos, hits: c.body.hits })
                .collect(),
            structures: self
                .world
                .structures
                .iter()
                .filter(|s| s.alive && s.pos.room_name() == r)
                .map(|s| StructureView {
                    ownership: match s.owner {
                        Some(o) if o == owner => Ownership::Mine,
                        Some(_) => Ownership::Hostile,
                        None => Ownership::Neutral,
                    },
                    pos: s.pos,
                    hits: s.hits,
                })
                .collect(),
        }
    }

    fn friend(&self, c: &SimCreep) -> FriendView {
        FriendView {
            creep: c.id,
            id: 7000 + c.id as u128,
            pos: c.pos,
            hits: c.body.hits,
            hits_max: c.body.hits_max,
            heal_parts: self.working(c, Part::Heal),
            ranged_attack_parts: self.working(c, Part::RangedAttack),
            attack_parts: self.working(c, Part::Attack),
            work_parts: self.working(c, Part::Work),
            claim_parts: 0,
            has_ranged: self.working(c, Part::RangedAttack) > 0,
        }
    }

    /// The mover: each creep steps along its path; one that runs into a creep that stays goes
    /// around it, and of two that want a tile the first gets it.
    fn route(&self, owner: PlayerId, reqs: &[MoveRequest]) -> Vec<(CreepId, Direction)> {
        let free = |at: Position| !self.solid(owner, at);
        let next = |req: &MoveRequest, taken: &HashSet<Position>| -> Option<Position> {
            let from = self.creep(req.creep).pos;
            let open = |at: Position| free(at) && !taken.contains(&at);
            let steps = match &req.goal {
                MoveGoal::To { target, range } => {
                    let goal = in_room_goal(from, *target);
                    let within = if goal == *target { *range } else { 0 };
                    path(from, &|at| at.get_range_to(goal) <= within, &open)
                }
                MoveGoal::Flee { from: threats, range } => {
                    path(from, &|at| threats.iter().all(|t| at.get_range_to(*t) > *range), &open)
                }
            };
            steps.and_then(|s| s.first().copied())
        };
        let mut want: Vec<(CreepId, Position, Option<Position>)> = vec![];
        for req in reqs {
            want.push((req.creep, self.creep(req.creep).pos, next(req, &HashSet::new())));
        }
        loop {
            let staying: HashSet<Position> = self
                .world
                .creeps
                .iter()
                .filter(|c| c.alive && !want.iter().any(|w| w.0 == c.id && w.2.is_some()))
                .map(|c| c.pos)
                .collect();
            let clash = (0..want.len()).find(|&i| {
                want[i].2.is_some_and(|to| {
                    staying.contains(&to) || want[..i].iter().any(|w| w.2 == Some(to))
                })
            });
            let Some(i) = clash else { break };
            let mut taken = staying.clone();
            taken.extend(want.iter().enumerate().filter(|(j, _)| *j != i).filter_map(|(_, w)| w.2));
            taken.extend(want.iter().map(|w| w.1));
            let around = next(&reqs[i], &taken).filter(|to| want[i].2 != Some(*to));
            want[i].2 = around;
        }
        want.into_iter()
            .filter_map(|(id, from, to)| to.and_then(|to| from.get_direction_to(to)).map(|d| (id, d)))
            .collect()
    }

    /// One tick: strikes, heals, moves, and the exits at a room's edge.
    fn resolve_tick(&mut self, intents: &Intents) {
        let mut hurt: HashMap<u32, u32> = HashMap::new();
        let mut mend: HashMap<u32, u32> = HashMap::new();
        for c in self.world.creeps.iter().filter(|c| c.alive) {
            for action in intents.creeps.get(&c.id).into_iter().flatten() {
                match *action {
                    CombatAction::Attack(id) => *hurt.entry(id).or_default() += 30 * self.working(c, Part::Attack),
                    CombatAction::RangedAttack(id) => {
                        *hurt.entry(id).or_default() += 10 * self.working(c, Part::RangedAttack)
                    }
                    CombatAction::Dismantle(id) => *hurt.entry(id).or_default() += 50 * self.working(c, Part::Work),
                    CombatAction::Heal(id) => *mend.entry(id).or_default() += 12 * self.working(c, Part::Heal),
                    _ => unreachable!("no other action in these fights"),
                }
            }
        }
        for t in self.world.towers.iter().filter(|t| t.alive) {
            if let Some(screeps_combat_agent::world::TowerAction::Attack(id)) = intents.towers.get(&t.id) {
                let energy = self.energy.get_mut(&t.id).unwrap();
                if *energy >= 10 {
                    *energy -= 10;
                    let at = self.world.creeps.iter().find(|c| c.id == *id).unwrap().pos;
                    let r = t.pos.get_range_to(at).clamp(5, 20);
                    *hurt.entry(*id).or_default() += 600 - 600 * 3 * (r - 5) / 60;
                }
            }
        }
        for s in self.world.structures.iter_mut().filter(|s| s.alive) {
            s.hits = s.hits.saturating_sub(hurt.get(&s.id).copied().unwrap_or(0));
            s.alive = s.hits > 0;
        }
        for c in self.world.creeps.iter_mut().filter(|c| c.alive) {
            let up = c.body.hits + mend.get(&c.id).copied().unwrap_or(0);
            c.body.hits = c.body.hits_max.min(up.saturating_sub(hurt.get(&c.id).copied().unwrap_or(0)));
            c.alive = c.body.hits > 0;
            if let Some(&d) = intents.moves.get(&c.id) {
                let (dx, dy) = delta(d);
                c.pos = moved(c.pos, dx, dy);
            }
            let (dx, dy) = match (c.pos.x(), c.pos.y()) {
                (0, _) => (-1, 0),
                (49, _) => (1, 0),
                (_, 0) => (0, -1),
                (_, 49) => (0, 1),
                _ => (0, 0),
            };
            c.pos = moved(c.pos, dx, dy);
        }
    }
}

/// How many of the members in slot order stand in formation, as a share.
fn in_formation_rate(positions: &[Position], anchor: Position, layout: &[(i32, i32)], tol: u32) -> f32 {
    let good = positions
        .iter()
        .enumerate()
        .filter(|(i, p)| layout.get(*i).is_some_and(|&o| p.get_range_to(offset_pos(anchor, o)) <= tol))
        .count();
    good as f32 / positions.len().max(1) as f32
}

fn measure(positions: &Vec<Position>, anchor: Position, layout: &Vec<(i32, i32)>, tol: u32) -> GatherReading {
    let near = positions.iter().filter(|p| p.get_range_to(anchor) <= LOOSE_RADIUS).count();
    GatherReading {
        in_formation: in_formation_rate(positions, anchor, layout, tol) >= QUORUM,
        near_anchor: near as f32 / positions.len().max(1) as f32 >= QUORUM,
    }
}

/// One step of an anchor with a footprint toward the objective.
fn advance_anchor(sim: &Sim, at: Position, objective: Position, size: (u8, u8)) -> (Anchor<()>, AnchorOutcome) {
    let crosses = |p: Position| p.room_name() != objective.room_name() && in_room_goal(p, objective) == p;
    let stay = |outcome| (Anchor { virtual_pos: at, next_step_crosses_room: crosses(at), path: () }, outcome);
    if at == objective {
        return stay(AnchorOutcome::Settled);
    }
    let goal = in_room_goal(at, objective);
    let fits = |p: Position| {
        (0..size.0 as i32).all(|dx| {
            (0..size.1 as i32).all(|dy| {
                let (x, y) = (p.x() as i32 + dx, p.y() as i32 + dy);
                x > 49 || y > 49 || !sim.wall(Position::new(x as u8, y as u8, p.room_name()))
            })
        })
    };
    let to = if crosses(at) {
        let d = at.get_direction_to(objective).unwrap();
        let (dx, dy) = delta(d);
        let out = moved(at, dx, dy);
        if out.room_name() != at.room_name() { out } else { moved(at, dx, 0) }
    } else {
        match path(at, &|p| p == goal, &fits).and_then(|p| p.first().copied()) {
            Some(to) => to,
            None => return stay(AnchorOutcome::Blocked),
        }
    };
    (Anchor { virtual_pos: to, next_step_crosses_room: crosses(to), path: () }, AnchorOutcome::Advanced)
}

fn step(squad: &mut SimSquad<(), (), ()>, sim: &Sim) -> (Intents, AnchorOutcome) {
    squad.step(
        &sim.world,
        &|_: &CombatWorld, owner: PlayerId, _: Position, r: RoomName| sim.look(owner, r),
        &measure,
        &|_: &CombatWorld, _: PlayerId, anchor: &Anchor<()>, objective: Position, size: (u8, u8)| {
            advance_anchor(sim, anchor.virtual_pos, objective, size)
        },
        &|_: &SimView, _: usize| vec![CombatIntent::Idle],
        &|_: &CombatWorld, owner: PlayerId, reqs: &Vec<MoveRequest>, _: &(), _: &()| (sim.route(owner, reqs), ()),
    )
}

const QUAD: [(i32, i32); 4] = [(0, 0), (1, 0), (0, 1), (1, 1)];

fn quad_squad(anchor: Position, objective: Position) -> SimSquad<(), (), ()> {
    SimSquad {
        owner: 0,
        members: vec![1, 2, 3, 4],
        layout: QUAD.to_vec(),
        anchor: Anchor { virtual_pos: anchor, next_step_crosses_room: false, path: () },
        objective,
        loose: false,
        mover_config: (),
        move_cache: (),
    }
}

fn sim_of(creeps: &[(CreepId, u8, u8)]) -> Sim {
    let mut sim = Sim::new();
    for &(id, x, y) in creeps {
        sim.add(id, 0, pos(x, y), &[Part::Attack, Part::Move]);
    }
    sim
}

fn quad_at_west() -> Sim {
    sim_of(&[(1, 5, 25), (2, 6, 25), (3, 5, 26), (4, 6, 26)])
}

#[test]
fn a_quad_crosses_an_open_room_staying_in_formation() {
    let mut sim = quad_at_west();
    let mut squad = quad_squad(pos(5, 25), pos(40, 25));
    let mut worst_in_formation = 1.0f32;
    for _ in 0..80 {
        let (intents, _) = step(&mut squad, &sim);
        sim.resolve_tick(&intents);
        let view = sim.look(0, room());
        let rate = in_formation_rate(&squad.member_positions(&view), squad.anchor.virtual_pos, &QUAD, 1);
        worst_in_formation = worst_in_formation.min(rate);
        if squad.anchor.virtual_pos == pos(40, 25) {
            break;
        }
    }
    assert!(squad.anchor.virtual_pos.x() >= 38, "squad advanced to the objective");
    assert!(worst_in_formation >= 0.75, "stayed cohesive throughout (worst {})", worst_in_formation);
}

#[test]
fn a_quad_crosses_a_room_border_as_a_bloc() {
    let east = moved(pos(49, 25), 1, 0).room_name();
    let objective = Position::new(20, 25, east);
    let mut sim = sim_of(&[(1, 44, 24), (2, 45, 24), (3, 44, 25), (4, 45, 25)]);
    let mut squad = quad_squad(pos(44, 24), objective);
    let mut worst_spread = 0u32;
    let mut all_in_east = false;
    for _ in 0..100 {
        let (intents, _) = step(&mut squad, &sim);
        sim.resolve_tick(&intents);
        let positions = squad.all_member_positions(&sim.world);
        for i in 0..positions.len() {
            for j in (i + 1)..positions.len() {
                worst_spread = worst_spread.max(positions[i].get_range_to(positions[j]));
            }
        }
        if positions.len() == 4 && positions.iter().all(|p| p.room_name() == east) {
            all_in_east = true;
            break;
        }
    }
    assert!(all_in_east, "the whole quad crossed the border into the east room");
    assert!(worst_spread <= 8, "the quad crossed as a bloc, never strung out (worst spread {})", worst_spread);
}

#[test]
fn a_quad_routes_its_footprint_around_a_wall() {
    let mut sim = quad_at_west();
    for y in 0..=49u8 {
        if !(24..=26).contains(&y) {
            sim.terrain.walls.push((20, y));
        }
    }
    let mut squad = quad_squad(pos(5, 25), pos(35, 25));
    let mut blocked = false;
    for _ in 0..120 {
        let (intents, outcome) = step(&mut squad, &sim);
        if outcome == AnchorOutcome::Blocked {
            blocked = true;
        }
        sim.resolve_tick(&intents);
        if squad.anchor.virtual_pos.x() >= 33 {
            break;
        }
    }
    assert!(!blocked, "the 2×2 fits the 3-wide gap → never Blocked");
    assert!(squad.anchor.virtual_pos.x() >= 33, "squad threaded the gap to the far side");
}

fn one_wide_gap() -> Sim {
    let mut sim = quad_at_west();
    for y in 0..=49u8 {
        if y != 25 {
            sim.terrain.walls.push((20, y));
        }
    }
    sim
}

#[test]
fn a_quad_threads_a_one_wide_corridor_single_file() {
    let mut sim = one_wide_gap();
    let mut squad = quad_squad(pos(15, 25), pos(35, 25));
    for _ in 0..150 {
        let (intents, _) = step(&mut squad, &sim);
        sim.resolve_tick(&intents);
        if squad.anchor.virtual_pos.x() >= 33 {
            break;
        }
    }
    assert!(squad.anchor.virtual_pos.x() >= 33, "relaxed to single-file and threaded the 1-wide corridor");
}

#[test]
fn re_forms_a_tight_box_after_a_corridor() {
    let mut sim = one_wide_gap();
    let mut squad = quad_squad(pos(15, 25), pos(45, 25));
    let mut went_loose = false;
    for _ in 0..300 {
        let (intents, _) = step(&mut squad, &sim);
        sim.resolve_tick(&intents);
        went_loose |= squad.loose;
        if squad.anchor.virtual_pos.x() >= 40 {
            break;
        }
    }
    for _ in 0..20 {
        let (intents, _) = step(&mut squad, &sim);
        sim.resolve_tick(&intents);
    }
    assert!(went_loose, "the squad relaxed to single-file in the corridor");
    assert!(!squad.loose, "re-formed: back in tight box mode once group pathfinding worked again");
    let positions = squad.member_positions(&sim.look(0, room()));
    let rate = in_formation_rate(&positions, squad.anchor.virtual_pos, &QUAD, 1);
    assert!(rate >= 0.75, "members re-gathered into the box (in-formation {})", rate);
    let diameter = positions.iter().flat_map(|a| positions.iter().map(|b| a.get_range_to(*b))).max().unwrap();
    assert!(diameter <= 3, "tight again (diameter {})", diameter);
}

#[test]
fn reports_blocked_when_fully_sealed() {
    let mut sim = quad_at_west();
    for y in 0..=49u8 {
        sim.terrain.walls.push((20, y));
    }
    let mut squad = quad_squad(pos(15, 25), pos(35, 25));
    let mut saw_blocked = false;
    for _ in 0..30 {
        let (intents, outcome) = step(&mut squad, &sim);
        saw_blocked |= outcome == AnchorOutcome::Blocked;
        sim.resolve_tick(&intents);
    }
    assert!(saw_blocked, "fully sealed → Blocked surfaced (even single-file can't pass)");
    assert!(squad.anchor.virtual_pos.x() < 20, "anchor held on the near side, never clipped through");
}

#[test]
fn a_blob_of_five_advances_loosely() {
    let mut sim = sim_of(&[(1, 5, 25), (2, 6, 25), (3, 5, 26), (4, 6, 26), (5, 5, 24)]);
    let mut squad = SimSquad { members: vec![1, 2, 3, 4, 5], ..quad_squad(pos(5, 25), pos(30, 25)) };
    for _ in 0..90 {
        let (intents, _) = step(&mut squad, &sim);
        sim.resolve_tick(&intents);
        if squad.anchor.virtual_pos.x() >= 28 {
            break;
        }
    }
    assert!(squad.anchor.virtual_pos.x() >= 28, "the 5-blob advanced to the objective");
    let near = squad
        .member_positions(&sim.look(0, room()))
        .iter()
        .filter(|p| p.get_range_to(squad.anchor.virtual_pos) <= LOOSE_RADIUS)
        .count();
    assert!(near >= 4, "blob stayed loosely gathered near the anchor ({} of 5 within {})", near, LOOSE_RADIUS);
}

// ── Squads under a kernel ─────────────────────────────────────────────────────────────────────────

const CONSTANTS: CombatConstants = CombatConstants {
    stall_limit: 40,
    attack_power: 30,
    ranged_attack_power: 10,
    dismantle_power: 50,
    claim_power: 300,
};

fn managed(members: Vec<CreepId>, objective: Position) -> ManagedSimSquad<(), (), (), ()> {
    ManagedSimSquad::new(0, members, objective, (), (), (), CONSTANTS)
}

/// A plain kernel: in retreat it stays in retreat; while towers have energy a draining squad waits;
/// else it closes in on the first hostile, or on the first hostile structure, each healer heals the
/// worst wound, and the block gathers round its shooters.
fn decide(sim: &Sim, view: &SimView, situation: &SquadSituation<()>) -> SquadDecision<(), Option<Position>> {
    let worst = (0..situation.members.len()).min_by_key(|&i| situation.members[i].hits).unwrap();
    let focus = view
        .hostiles
        .first()
        .map(|h| h.pos)
        .or(view.structures.iter().find(|s| s.ownership == Ownership::Hostile).map(|s| s.pos))
        .map(|p| FocusTarget { pos: p, id: 1 });
    let waits = situation.drain_stance && sim.energy.values().any(|&e| e > 0);
    SquadDecision {
        state: if situation.current_state == SquadOrderState::Retreating {
            SquadOrderState::Retreating
        } else {
            SquadOrderState::Engaged
        },
        center: Some(situation.members[0].pos),
        movement: if waits { None } else { focus.map(|f| f.pos) },
        cohesion_radius: 3,
        heal_assignments: (0..situation.members.len())
            .filter(|&i| situation.members[i].heal_power > 0)
            .map(|i| HealAssignment { healer_idx: i, target_idx: worst })
            .collect(),
        focus_assignments: vec![],
        focus: if waits { None } else { focus },
        member_goals: vec![],
        member_intents: vec![],
    }
}

fn reach(friend: &FriendView) -> u32 {
    if friend.has_ranged || (friend.attack_parts == 0 && friend.work_parts == 0) {
        3
    } else {
        1
    }
}

fn fight(sim: &Sim, view: &SimView, orders: &MemberOrders) -> Vec<CombatIntent> {
    let me = &view.friends[orders.friend];
    let mut out = vec![];
    if let Some(focus) = orders.focus {
        let creep = sim.world.creeps.iter().find(|c| c.alive && c.owner != 0 && c.pos == focus.pos).map(|c| c.id);
        let structure = sim.world.structures.iter().find(|s| s.alive && s.pos == focus.pos).map(|s| s.id);
        let r = me.pos.get_range_to(focus.pos);
        match creep.or(structure) {
            Some(id) if me.has_ranged && r <= 3 => out.push(CombatIntent::Act(CombatAction::RangedAttack(id))),
            Some(id) if me.attack_parts > 0 && r <= 1 => out.push(CombatIntent::Act(CombatAction::Attack(id))),
            Some(id) if me.work_parts > 0 && r <= 1 => out.push(CombatIntent::Act(CombatAction::Dismantle(id))),
            _ => {}
        }
    }
    if let Some(target) = orders.heal_target {
        let id = view.friends.iter().find(|f| f.id == target.id).unwrap().creep;
        if me.pos.get_range_to(target.pos) <= 1 {
            out.push(CombatIntent::Act(CombatAction::Heal(id)));
        }
    }
    out
}

fn maneuver(view: &SimView, decision: &SquadDecision<(), Option<Position>>, orders: &MemberOrders) -> Vec<CombatIntent> {
    let me = &view.friends[orders.friend];
    match (orders.movement, decision.movement) {
        (MemberMovement::Advance { goal, range }, _) => vec![CombatIntent::MoveTo { target: goal, range }],
        (MemberMovement::Shared, Some(target)) => vec![CombatIntent::MoveTo { target, range: reach(me) }],
        _ => vec![],
    }
}

fn manage(squad: &mut ManagedSimSquad<(), (), (), ()>, sim: &Sim) -> Intents {
    squad.step(
        &sim.world,
        &|_: &CombatWorld, owner: PlayerId, _: Position, r: RoomName| sim.look(owner, r),
        &|_: &CombatWorld, _: PlayerId, view: &SimView, situation: &SquadSituation<()>, _: &()| {
            decide(sim, view, situation)
        },
        &|view: &SimView, _: &SquadDecision<(), Option<Position>>, orders: &MemberOrders| fight(sim, view, orders),
        &maneuver,
        &|_: &CombatWorld, owner: PlayerId, reqs: &Vec<MoveRequest>, _: &(), _: &()| (sim.route(owner, reqs), ()),
    )
}

#[test]
fn managed_squad_travels_across_a_room_border() {
    let w2 = named("W2N1");
    let mut sim = Sim::new();
    sim.add(1, 0, pos(3, 25), &[Part::RangedAttack, Part::Move]);
    sim.add(2, 0, pos(3, 26), &[Part::RangedAttack, Part::Move]);
    let mut squad = managed(vec![1, 2], Position::new(40, 25, w2));
    for _ in 0..150 {
        let i = manage(&mut squad, &sim);
        sim.resolve_tick(&i);
        if sim.world.creeps.iter().all(|c| c.pos.room_name() == w2) {
            break;
        }
    }
    assert!(
        sim.world.creeps.iter().any(|c| c.pos.room_name() == w2),
        "the managed squad crossed W1N1 → W2N1 (travel mode)"
    );
}

#[test]
fn exp_squad_kite_1_managed_duo_kites_cohesively_and_focus_fires() {
    let mut sim = Sim::new();
    let mut keeper = vec![Part::Attack; 5];
    keeper.extend(vec![Part::Move; 5]);
    keeper.extend(vec![Part::Tough; 10]);
    sim.add(99, 1, pos(25, 25), &keeper);
    let mut shooter = vec![Part::RangedAttack; 5];
    shooter.extend(vec![Part::Move; 5]);
    sim.add(1, 0, pos(20, 25), &shooter);
    let mut healer = vec![Part::Heal; 3];
    healer.extend(vec![Part::Move; 3]);
    sim.add(2, 0, pos(20, 26), &healer);
    let keeper_hits_0 = sim.creep(99).body.hits;
    let mut squad = managed(vec![1, 2], pos(25, 25));
    let mut worst_pairwise = 0u32;
    for _ in 0..50 {
        let intents = manage(&mut squad, &sim);
        sim.resolve_tick(&intents);
        worst_pairwise = worst_pairwise.max(sim.creep(1).pos.get_range_to(sim.creep(2).pos));
    }
    let keeper_hits_1 = sim.creep(99).body.hits;
    let duo_alive = sim.world.creeps.iter().filter(|c| c.owner == 0 && c.alive).count();
    assert!(keeper_hits_1 < keeper_hits_0, "the squad focus-fired the keeper ({keeper_hits_0} -> {keeper_hits_1})");
    assert_eq!(duo_alive, 2, "the duo kited to shooting range + survived (took no melee)");
    assert!(worst_pairwise <= 4, "the duo stayed cohesive throughout (worst pairwise {worst_pairwise})");
}

fn spawn_of(owner: PlayerId, hits: u32) -> SimStructure {
    SimStructure {
        id: 1001,
        kind: StructureKind::Spawn,
        owner: Some(owner),
        pos: pos(25, 25),
        hits,
        hits_max: hits,
        alive: true,
    }
}

#[test]
fn a_winnable_melee_heal_siege_closes_and_dismantles_under_tower_fire() {
    let mut sim = Sim::new();
    sim.world.structures.push(spawn_of(1, 50_000));
    sim.world.towers.push(SimTower { id: 1002, owner: 1, pos: pos(24, 16), hits: 3000, alive: true });
    sim.energy.insert(1002, 100_000);
    let mut body = vec![Part::Tough; 2];
    body.extend(vec![Part::Attack; 3]);
    body.extend(vec![Part::Heal; 11]);
    body.extend(vec![Part::Move; 6]);
    for (i, y) in [23u8, 24, 25, 26, 27, 28].into_iter().enumerate() {
        sim.add(1 + i as u32, 0, pos(20, y), &body);
    }
    let hits_0 = sim.world.structures[0].hits;
    let mut squad = managed(vec![1, 2, 3, 4, 5, 6], pos(25, 25));
    let mut min_range = 99u32;
    for _ in 0..60 {
        let intents = manage(&mut squad, &sim);
        sim.resolve_tick(&intents);
        for c in sim.world.creeps.iter().filter(|c| c.owner == 0 && c.alive) {
            min_range = min_range.min(c.pos.get_range_to(pos(25, 25)));
        }
    }
    let hits_1 = sim.world.structures[0].hits;
    assert_eq!(min_range, 1, "the melee+heal squad closed to range 1 of the structure");
    assert!(hits_1 < hits_0, "and dismantled it under tower fire ({hits_0} -> {hits_1})");
}

#[test]
fn a_drain_squad_bleeds_finite_towers_dry_then_breaches() {
    let mut sim = Sim::new();
    sim.world.structures.push(spawn_of(1, 30_000));
    for (id, x) in [(1002, 24u8), (1003, 26)] {
        sim.world.towers.push(SimTower { id, owner: 1, pos: pos(x, 25), hits: 3000, alive: true });
        sim.energy.insert(id, 800);
    }
    let mut body = vec![Part::Tough; 2];
    body.extend(vec![Part::Heal; 36]);
    body.extend(vec![Part::Work; 4]);
    body.extend(vec![Part::Move; 8]);
    sim.add(1, 0, pos(5, 25), &body);
    let total_energy = |s: &Sim| s.energy.values().sum::<u32>();
    let start_energy = total_energy(&sim);
    assert!(start_energy > 0, "the bed has energized finite towers");
    let core_hits_0 = sim.world.structures[0].hits;
    let mut squad = managed(vec![1], pos(25, 25)).with_drain_stance(true);
    let mut towers_dried_at: Option<u32> = None;
    let mut min_range_after_dry = 99u32;
    let mut all_dead = false;
    for tick in 0..600u32 {
        let mut intents = manage(&mut squad, &sim);
        // The towers fire at the nearest attacker.
        for t in &sim.world.towers {
            let nearest = sim.world.creeps.iter().filter(|c| c.alive && c.owner == 0).min_by_key(|c| t.pos.get_range_to(c.pos));
            if let Some(c) = nearest {
                intents.set_tower(t.id, screeps_combat_agent::world::TowerAction::Attack(c.id));
            }
        }
        sim.resolve_tick(&intents);
        if towers_dried_at.is_none() && total_energy(&sim) == 0 {
            towers_dried_at = Some(tick);
        }
        if towers_dried_at.is_some() {
            min_range_after_dry = min_range_after_dry.min(sim.creep(1).pos.get_range_to(pos(25, 25)));
        }
        if !sim.creep(1).alive {
            all_dead = true;
            break;
        }
        if !sim.world.structures[0].alive {
            break;
        }
    }
    let core_hits_1 = sim.world.structures[0].hits;
    assert!(!all_dead, "the drain squad survived the soak (it held the standoff + out-healed the falloff fire)");
    let survivors = sim.world.creeps.iter().filter(|c| c.owner == 0 && c.alive).count();
    assert!(survivors > 0, "at least one drainer lived to breach");
    assert_eq!(total_energy(&sim), 0, "the towers bled to 0 energy (start {start_energy})");
    assert!(towers_dried_at.is_some(), "the drain reached dry towers");
    assert!(
        min_range_after_dry <= 3,
        "after the drain the squad advanced onto the dead base (min range {min_range_after_dry})"
    );
    assert!(core_hits_1 < core_hits_0, "and dismantled the core ({core_hits_0} -> {core_hits_1})");
}

#[test]
fn rec053_in_room_member_fights_while_a_squadmate_is_still_crossed() {
    let mut sim = Sim::new();
    let body = [Part::RangedAttack, Part::RangedAttack, Part::Move, Part::Move];
    sim.add(1, 0, pos(25, 25), &body);
    sim.add(2, 0, Position::new(45, 25, named("W2N1")), &body);
    sim.add(99, 1, pos(27, 25), &[Part::Attack, Part::Move]);
    let mut squad = managed(vec![1, 2], pos(25, 25));
    let intents = manage(&mut squad, &sim);
    assert!(
        intents.creeps.get(&1).is_some_and(|a| !a.is_empty()),
        "the in-room member fights while its squadmate is still crossed (REC-053)"
    );
    assert!(intents.moves.contains_key(&2), "the crossed member travels toward the objective independently");
}

#[test]
fn rec054_retreating_out_of_room_member_withdraws_not_marched_back() {
    let w2 = named("W2N1");
    let mut sim = Sim::new();
    sim.add(1, 0, pos(5, 25), &[Part::RangedAttack, Part::Move]);
    sim.add(2, 0, Position::new(10, 25, w2), &[Part::RangedAttack, Part::Move]);
    sim.add(99, 1, Position::new(20, 25, w2), &[Part::RangedAttack, Part::Move]);
    let mut squad = managed(vec![1, 2], pos(5, 25));
    squad.state = SquadOrderState::Retreating;
    let before = sim.creep(2).pos;
    let intents = manage(&mut squad, &sim);
    sim.resolve_tick(&intents);
    let after = sim.creep(2).pos;
    assert_eq!(after.room_name(), w2, "the retreating out-of-room member did not cross toward the objective");
    assert!(
        after.x() <= before.x(),
        "it withdrew west from the local threat (or held), NOT east toward the objective (before x={}, after x={})",
        before.x(),
        after.x()
    );
}

// ── What a tick asks of the mover ─────────────────────────────────────────────────────────────────

/// The requests that a tick of the squad hands to the mover.
fn requests_of(squad: &mut SimSquad<(), (), ()>, sim: &Sim, reading: GatherReading) -> Vec<MoveRequest> {
    let seen: RefCell<Vec<MoveRequest>> = RefCell::new(vec![]);
    squad.step(
        &sim.world,
        &|_: &CombatWorld, owner: PlayerId, _: Position, r: RoomName| sim.look(owner, r),
        &|_: &Vec<Position>, _: Position, _: &Vec<(i32, i32)>, tol: u32| {
            assert_eq!(tol, COHESION_TOL);
            reading
        },
        &|_: &CombatWorld, _: PlayerId, at: &Anchor<()>, _: Position, _: (u8, u8)| (*at, AnchorOutcome::Settled),
        &|_: &SimView, _: usize| vec![],
        &|_: &CombatWorld, _: PlayerId, reqs: &Vec<MoveRequest>, _: &(), _: &()| {
            *seen.borrow_mut() = reqs.clone();
            (vec![], ())
        },
    );
    seen.into_inner()
}

fn target_of(req: &MoveRequest) -> (Position, u32) {
    match req.goal {
        MoveGoal::To { target, range } => (target, range),
        MoveGoal::Flee { .. } => unreachable!("a formation never flees"),
    }
}

const APART: GatherReading = GatherReading { in_formation: false, near_anchor: false };

#[test]
fn a_tight_box_asks_for_exact_slots() {
    let sim = quad_at_west();
    let mut squad = quad_squad(pos(10, 10), pos(40, 25));
    let reqs = requests_of(&mut squad, &sim, APART);
    let goals: Vec<_> = reqs.iter().map(target_of).collect();
    assert_eq!(goals, vec![(pos(10, 10), 0), (pos(11, 10), 0), (pos(10, 11), 0), (pos(11, 11), 0)]);
    assert!(reqs.iter().all(|r| r.engaged && r.priority == MovementPriority::Standard));
}

#[test]
fn a_loose_squad_follows_the_anchor_and_a_crossing_one_its_slots() {
    let sim = quad_at_west();
    let mut squad = quad_squad(pos(10, 10), pos(40, 25));
    squad.loose = true;
    let goals: Vec<_> = requests_of(&mut squad, &sim, APART).iter().map(target_of).collect();
    assert_eq!(goals, vec![(pos(10, 10), 1); 4]);
    squad.anchor.next_step_crosses_room = true;
    let goals: Vec<_> = requests_of(&mut squad, &sim, APART).iter().map(target_of).collect();
    assert_eq!(goals, vec![(pos(10, 10), 1), (pos(11, 10), 1), (pos(10, 11), 1), (pos(11, 11), 1)]);
    // A dead member asks for nothing.
    let mut sim = sim;
    sim.world.creeps[1].alive = false;
    let ids: Vec<_> = requests_of(&mut squad, &sim, APART).iter().map(|r| r.creep).collect();
    assert_eq!(ids, vec![1, 3, 4]);
}

#[test]
fn a_member_astride_the_border_loosens_the_box() {
    let mut sim = quad_at_west();
    sim.world.creeps[3].pos = Position::new(48, 26, named("W2N1"));
    let mut squad = quad_squad(pos(10, 10), pos(40, 25));
    let goals: Vec<_> = requests_of(&mut squad, &sim, APART).iter().map(target_of).collect();
    assert_eq!(goals, vec![(pos(10, 10), 1), (pos(11, 10), 1), (pos(10, 11), 1), (pos(11, 11), 1)]);
}

#[test]
fn only_a_gathered_squad_advances() {
    let sim = quad_at_west();
    let advanced = |squad: &mut SimSquad<(), (), ()>, reading: GatherReading| {
        let sizes: RefCell<Vec<(u8, u8)>> = RefCell::new(vec![]);
        squad.step(
            &sim.world,
            &|_: &CombatWorld, owner: PlayerId, _: Position, r: RoomName| sim.look(owner, r),
            &|_: &Vec<Position>, _: Position, _: &Vec<(i32, i32)>, _: u32| reading,
            &|_: &CombatWorld, _: PlayerId, at: &Anchor<()>, _: Position, size: (u8, u8)| {
                sizes.borrow_mut().push(size);
                (*at, if size == (1, 1) { AnchorOutcome::Advanced } else { AnchorOutcome::Blocked })
            },
            &|_: &SimView, _: usize| vec![],
            &|_: &CombatWorld, _: PlayerId, _: &Vec<MoveRequest>, _: &(), _: &()| (vec![], ()),
        );
        sizes.into_inner()
    };
    let boxed = GatherReading { in_formation: true, near_anchor: false };
    let near = GatherReading { in_formation: false, near_anchor: true };
    let mut squad = quad_squad(pos(10, 10), pos(40, 25));
    assert!(advanced(&mut squad, near).is_empty());
    assert!(!squad.loose);
    // In formation it tries its box, and then, blocked, a single tile.
    assert_eq!(advanced(&mut squad, boxed), vec![(2, 2), (1, 1)]);
    assert!(squad.loose);
    // Loose, it goes by nearness.
    assert!(advanced(&mut squad, boxed).is_empty());
    assert_eq!(advanced(&mut squad, near), vec![(2, 2), (1, 1)]);
    // So does a squad at a border, and a blob, which never tries a box.
    squad.loose = false;
    squad.anchor.next_step_crosses_room = true;
    assert!(advanced(&mut squad, boxed).is_empty());
    let mut blob = quad_squad(pos(10, 10), pos(40, 25));
    blob.members.push(5);
    assert!(advanced(&mut blob, boxed).is_empty());
    assert_eq!(advanced(&mut blob, near), vec![(1, 1)]);
}

#[test]
fn slots_fold_at_the_edge() {
    assert_eq!(offset_pos(pos(10, 10), (3, -4)), pos(13, 6));
    // Off the map: mirrored back.
    assert_eq!(offset_pos(pos(49, 0), (1, -2)), pos(48, 2));
    // Mirrored out again: cut off at the edge.
    assert_eq!(offset_pos(pos(20, 20), (40, -40)), pos(0, 49));
    // Slots that grow one way stay apart; opposite ones meet at the edge.
    assert_ne!(offset_pos(pos(49, 49), (1, 0)), offset_pos(pos(49, 49), (2, 0)));
    assert_eq!(offset_pos(pos(49, 49), (1, 0)), offset_pos(pos(49, 49), (-1, 0)));
    // A whole room away, a slot comes to lie on the anchor.
    assert_eq!(offset_pos(pos(0, 7), (50, 0)), pos(0, 7));
}

#[test]
fn the_footprint_holds_the_layout_and_the_anchor() {
    let size = |layout: Vec<(i32, i32)>| SimSquad { layout, ..quad_squad(pos(5, 5), pos(9, 9)) }.footprint();
    assert_eq!(size(QUAD.to_vec()), (2, 2));
    assert_eq!(size(vec![]), (1, 1));
    assert_eq!(size(vec![(-2, 0), (3, 1)]), (6, 2));
    // The anchor counts even where no slot is on it.
    assert_eq!(size(vec![(3, 3), (4, 3)]), (5, 4));
    // A side past a byte is cut there, which no room fits.
    assert_eq!(size(vec![(0, 256), (-254, 0)]), (255, 255));
    assert_eq!(size(vec![(0, 255)]), (1, 255));
}

#[test]
fn members_act_as_they_choose_and_only_in_view() {
    let mut sim = quad_at_west();
    sim.world.creeps[2].pos = Position::new(30, 30, named("W2N1"));
    let mut squad = quad_squad(pos(5, 25), pos(40, 25)).with_mover_config(());
    let (intents, outcome) = squad.step(
        &sim.world,
        &|_: &CombatWorld, owner: PlayerId, at: Position, r: RoomName| {
            assert_eq!((at, r), (pos(5, 25), room()));
            sim.look(owner, r)
        },
        &|_: &Vec<Position>, _: Position, _: &Vec<(i32, i32)>, _: u32| APART,
        &|_: &CombatWorld, _: PlayerId, _: &Anchor<()>, _: Position, _: (u8, u8)| unreachable!("not gathered"),
        &|view: &SimView, friend: usize| {
            if view.friends[friend].creep == 2 {
                vec![CombatIntent::Idle, CombatIntent::Unresolved]
            } else {
                vec![CombatIntent::Act(CombatAction::Attack(9)), CombatIntent::Unresolved]
            }
        },
        &|_: &CombatWorld, _: PlayerId, _: &Vec<MoveRequest>, _: &(), _: &()| {
            (vec![(1, Direction::Left), (4, Direction::Top)], ())
        },
    );
    assert_eq!(outcome, AnchorOutcome::Advanced);
    assert_eq!(intents.creeps.len(), 2);
    assert_eq!(intents.creeps.get(&1), Some(&vec![CombatAction::Attack(9)]));
    assert_eq!(intents.creeps.get(&4), Some(&vec![CombatAction::Attack(9)]));
    assert_eq!(intents.moves.len(), 2);
    assert_eq!(intents.moves.get(&1), Some(&Direction::Left));
    assert_eq!(intents.moves.get(&4), Some(&Direction::Top));
}

#[test]
fn the_anchor_and_the_movers_cache_are_handed_on() {
    let sim = quad_at_west();
    let mut squad: SimSquad<Vec<(u8, u8)>, u8, Vec<usize>> = SimSquad {
        owner: 0,
        members: vec![1, 2, 3, 4],
        layout: QUAD.to_vec(),
        anchor: Anchor { virtual_pos: pos(5, 25), next_step_crosses_room: false, path: vec![] },
        objective: pos(40, 25),
        loose: false,
        mover_config: 9,
        move_cache: vec![],
    };
    let tick = |squad: &mut SimSquad<Vec<(u8, u8)>, u8, Vec<usize>>, gathered: bool, blocked: bool| {
        squad.step(
            &sim.world,
            &|_: &CombatWorld, owner: PlayerId, _: Position, r: RoomName| sim.look(owner, r),
            &|_: &Vec<Position>, _: Position, _: &Vec<(i32, i32)>, _: u32| GatherReading {
                in_formation: gathered,
                near_anchor: gathered,
            },
            &|_: &CombatWorld, _: PlayerId, at: &Anchor<Vec<(u8, u8)>>, _: Position, size: (u8, u8)| {
                let path = [at.path.as_slice(), &[size]].concat();
                let anchor = Anchor { virtual_pos: moved(at.virtual_pos, 1, 0), path, ..*at };
                (anchor, if blocked { AnchorOutcome::Blocked } else { AnchorOutcome::Advanced })
            },
            &|_: &SimView, _: usize| vec![],
            &|_: &CombatWorld, _: PlayerId, reqs: &Vec<MoveRequest>, config: &u8, cache: &Vec<usize>| {
                assert_eq!(*config, 9);
                (vec![], [cache.as_slice(), &[reqs.len()]].concat())
            },
        );
    };
    // Once from where it stands.
    tick(&mut squad, true, false);
    assert_eq!((squad.anchor.virtual_pos, squad.anchor.path.clone()), (pos(6, 25), vec![(2, 2)]));
    // Not gathered: it stays, path and all.
    tick(&mut squad, false, false);
    assert_eq!((squad.anchor.virtual_pos, squad.anchor.path.clone()), (pos(6, 25), vec![(2, 2)]));
    // Blocked: the single tile goes on from where the box left off.
    tick(&mut squad, true, true);
    assert_eq!(squad.anchor.virtual_pos, pos(8, 25));
    assert_eq!(squad.anchor.path, vec![(2, 2), (2, 2), (1, 1)]);
    // One pass of the mover a tick.
    assert_eq!(squad.move_cache, vec![4, 4, 4]);
}
