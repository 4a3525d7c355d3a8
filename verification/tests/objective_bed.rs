//! Sieges, with a plain engine in place of the real one: bodies of hundred-hit parts that fall from
//! the front, towers with falloff, and room exits.
use screeps_combat_agent::objective_bed::{
    defense_intents, dismantler_intents, run_siege, siege_verdict, SiegeOutcome, SiegeResult,
};
use screeps_combat_agent::pathing::{CombatCostSource, SearchRequest, IMPASSABLE};
use screeps_combat_agent::world::{
    CombatAction, CombatWorld, CreepId, Intents, PlayerId, SimBody, SimCreep, SimStructure, SimTower,
    StructureId, StructureKind, Terrain, TowerAction,
};
use screeps_combat_agent::{Direction, Position, RoomName};
use std::collections::{HashMap, VecDeque};

const DEFENDER: PlayerId = 1;
const ATTACKER: PlayerId = 0;

#[derive(Clone, Copy, Debug, PartialEq)]
enum Part {
    Tough,
    Work,
    Attack,
    RangedAttack,
    Heal,
    Move,
}

fn room() -> RoomName {
    RoomName { packed: screeps::RoomName::new("W1N1").unwrap().packed_repr() }
}

fn pos(x: u8, y: u8) -> Position {
    Position::new(x, y, room())
}

fn moved(from: Position, dx: i32, dy: i32) -> Position {
    let p = screeps::Position::new(
        screeps::RoomCoordinate::new(from.x()).unwrap(),
        screeps::RoomCoordinate::new(from.y()).unwrap(),
        screeps::RoomName::from_packed(from.room_name().packed),
    )
    .checked_add((dx, dy))
    .unwrap();
    Position::new(p.x().u8(), p.y().u8(), RoomName { packed: p.room_name().packed_repr() })
}

fn delta(direction: Direction) -> (i32, i32) {
    match direction {
        Direction::Top => (0, -1),
        Direction::TopRight => (1, -1),
        Direction::Right => (1, 0),
        Direction::BottomRight => (1, 1),
        Direction::Bottom => (0, 1),
        Direction::BottomLeft => (-1, 1),
        Direction::Left => (-1, 0),
        Direction::TopLeft => (-1, -1),
    }
}

/// What the bodies are made of; the library's world holds only what its rules read.
#[derive(Clone, Default)]
struct Bodies {
    parts: HashMap<CreepId, Vec<Part>>,
}

impl Bodies {
    /// Working parts: the front ones fall first, a hundred hits each.
    fn working(&self, c: &SimCreep, kind: Part) -> u32 {
        let parts = &self.parts[&c.id];
        let n = parts.len();
        (0..n).filter(|&i| parts[i] == kind && c.body.hits > 100 * (n - 1 - i) as u32).count() as u32
    }

    fn creep(&mut self, id: CreepId, owner: PlayerId, at: Position, parts: &[Part]) -> SimCreep {
        self.parts.insert(id, parts.to_vec());
        let hits = 100 * parts.len() as u32;
        let mut c = SimCreep {
            id,
            owner,
            pos: at,
            body: SimBody { hits, hits_max: hits, attack_power: 0, ranged_attack_power: 0 },
            alive: true,
        };
        self.refresh(&mut c);
        c
    }

    fn refresh(&self, c: &mut SimCreep) {
        c.body.attack_power = 30 * self.working(c, Part::Attack);
        c.body.ranged_attack_power = 10 * self.working(c, Part::RangedAttack);
        c.alive = c.body.hits > 0;
    }
}

/// A tower's effect at a range: full to 5, a quarter from 20 on.
fn falloff(amount: u32, range: u32) -> u32 {
    let r = range.clamp(5, 20);
    amount - amount * 3 * (r - 5) / 60
}

/// One tick of the fight.
fn resolve_tick(bodies: &Bodies, world: &CombatWorld, intents: &Intents) -> CombatWorld {
    let mut next = world.clone();
    let mut hurt: HashMap<u32, u32> = HashMap::new();
    let mut mend: HashMap<u32, u32> = HashMap::new();
    let creep_pos = |id: CreepId| world.creeps.iter().find(|c| c.id == id && c.alive).map(|c| c.pos);
    for c in world.creeps.iter().filter(|c| c.alive) {
        for action in intents.creeps.get(&c.id).into_iter().flatten() {
            match *action {
                CombatAction::Dismantle(id) => {
                    let s = world.structures.iter().find(|s| s.id == id && s.alive).unwrap();
                    assert!(c.pos.get_range_to(s.pos) <= 1);
                    *hurt.entry(id).or_default() += 50 * bodies.working(c, Part::Work);
                }
                CombatAction::Heal(id) => {
                    *mend.entry(id).or_default() += 12 * bodies.working(c, Part::Heal);
                }
                CombatAction::RangedHeal(id) => {
                    *mend.entry(id).or_default() += 4 * bodies.working(c, Part::Heal);
                }
                _ => unreachable!("no other action in these sieges"),
            }
        }
    }
    for t in world.towers.iter().filter(|t| t.alive) {
        match intents.towers.get(&t.id) {
            Some(TowerAction::Attack(id)) => {
                let at = creep_pos(*id).unwrap();
                if at.room_name() == t.pos.room_name() {
                    *hurt.entry(*id).or_default() += falloff(600, t.pos.get_range_to(at));
                }
            }
            Some(TowerAction::Heal(id)) => {
                *mend.entry(*id).or_default() += falloff(400, t.pos.get_range_to(creep_pos(*id).unwrap()));
            }
            Some(TowerAction::Repair(id)) => {
                let at = world.structures.iter().find(|s| s.id == *id).unwrap().pos;
                *mend.entry(*id).or_default() += falloff(800, t.pos.get_range_to(at));
            }
            None => {}
        }
    }
    for s in next.structures.iter_mut().filter(|s| s.alive) {
        s.hits = s.hits.saturating_sub(hurt.get(&s.id).copied().unwrap_or(0));
        if s.hits == 0 {
            s.alive = false;
        } else {
            s.hits = s.hits_max.min(s.hits + mend.get(&s.id).copied().unwrap_or(0));
        }
    }
    for c in next.creeps.iter_mut().filter(|c| c.alive) {
        let up = c.body.hits + mend.get(&c.id).copied().unwrap_or(0);
        c.body.hits = c.body.hits_max.min(up.saturating_sub(hurt.get(&c.id).copied().unwrap_or(0)));
        bodies.refresh(c);
        if let Some(&d) = intents.moves.get(&c.id) {
            let (dx, dy) = delta(d);
            c.pos = moved(c.pos, dx, dy);
        }
        let (dx, dy) = match (c.pos.x(), c.pos.y()) {
            (0, _) => (-1, 0),
            (49, _) => (1, 0),
            (_, 0) => (0, -1),
            (_, 49) => (0, 1),
            _ => (0, 0),
        };
        c.pos = moved(c.pos, dx, dy);
    }
    next
}

fn open_terrain(_: RoomName) -> Terrain {
    Terrain { walls: vec![], swamps: vec![] }
}

/// A breadth-first search within the room of `request.from`.
fn search(source: &CombatCostSource, request: &SearchRequest) -> Vec<Position> {
    let from = request.from;
    let r = from.room_name();
    let mut blocked = vec![false; 2500];
    let layers = [source.get_structure_costs(r).unwrap().other, source.get_creep_costs(r).unwrap().hostile_creeps];
    for t in layers.into_iter().flatten() {
        blocked[t.x as usize * 50 + t.y as usize] = t.cost == IMPASSABLE;
    }
    let mut parent: HashMap<(u8, u8), (u8, u8)> = HashMap::new();
    let mut queue = VecDeque::from([(from.x(), from.y())]);
    parent.insert((from.x(), from.y()), (from.x(), from.y()));
    while let Some((x, y)) = queue.pop_front() {
        let here = Position::new(x, y, r);
        if request.goals.iter().any(|(g, range)| here.get_range_to(*g) <= *range) {
            let mut path = vec![];
            let mut at = (x, y);
            while at != (from.x(), from.y()) {
                path.push(Position::new(at.0, at.1, r));
                at = parent[&at];
            }
            path.reverse();
            return path;
        }
        for (dx, dy) in [(0, -1), (1, 0), (0, 1), (-1, 0), (1, -1), (1, 1), (-1, 1), (-1, -1)] {
            let (nx, ny) = (x as i32 + dx, y as i32 + dy);
            if (0..50).contains(&nx) && (0..50).contains(&ny) {
                let n = (nx as u8, ny as u8);
                if !blocked[nx as usize * 50 + ny as usize] && !parent.contains_key(&n) {
                    parent.insert(n, (x, y));
                    queue.push_back(n);
                }
            }
        }
    }
    vec![]
}

fn structure(id: StructureId, kind: StructureKind, x: u8, y: u8, hits: u32) -> SimStructure {
    SimStructure { id, kind, owner: Some(DEFENDER), pos: pos(x, y), hits, hits_max: hits, alive: true }
}

fn tower(id: StructureId, x: u8, y: u8) -> SimTower {
    SimTower { id, owner: DEFENDER, pos: pos(x, y), hits: 3000, alive: true }
}

const CORE: StructureId = 1001;

/// Core at (25,25) behind a rampart at (24,25), a tower at (25,27), the attacker at (23,25).
fn bed(attacker_parts: &[Part], rampart_hits: u32) -> (Bodies, CombatWorld) {
    let mut bodies = Bodies::default();
    let world = CombatWorld {
        creeps: vec![bodies.creep(1, ATTACKER, pos(23, 25), attacker_parts)],
        structures: vec![
            structure(CORE, StructureKind::Spawn, 25, 25, 3000),
            structure(1003, StructureKind::Rampart, 24, 25, rampart_hits),
        ],
        towers: vec![tower(1002, 25, 27)],
        safe_mode_owner: None,
    };
    (bodies, world)
}

fn dismantler(n_tough: usize, n_work: usize, n_move: usize) -> Vec<Part> {
    let mut v = vec![Part::Tough; n_tough];
    v.extend(vec![Part::Work; n_work]);
    v.extend(vec![Part::Move; n_move]);
    v
}

fn besiege(bodies: Bodies, world: CombatWorld, core_pos: Position, max_ticks: u32) -> SiegeOutcome {
    run_siege(
        world,
        DEFENDER,
        CORE,
        core_pos,
        &mut (),
        &|w: &CombatWorld, _: &()| (dismantler_intents(w, ATTACKER, CORE, core_pos, &open_terrain, &search), ()),
        &|w: &CombatWorld, i: &Intents, _: &()| (resolve_tick(&bodies, w, i), ()),
        max_ticks,
    )
}

#[test]
fn under_gunned_attacker_is_repelled() {
    let (bodies, world) = bed(&dismantler(0, 5, 5), 4000);
    let outcome = besiege(bodies, world, pos(25, 25), 300);
    assert_ne!(outcome.result, SiegeResult::CoreBreached, "an under-gunned attacker must not breach");
    assert_eq!(outcome.core_hits, 3000, "the core took no damage — the rampart held");
}

#[test]
fn sufficient_dps_breaches_the_core() {
    let (bodies, world) = bed(&dismantler(10, 30, 10), 4000);
    let outcome = besiege(bodies, world, pos(25, 25), 300);
    assert_eq!(outcome.result, SiegeResult::CoreBreached, "sufficient DPS breaches; got {:?}", outcome);
    assert_eq!(outcome.core_hits, 0);
}

#[test]
fn defense_heals_a_damaged_defender_and_focuses_the_attacker() {
    let mut bodies = Bodies::default();
    let mut hurt = bodies.creep(50, DEFENDER, pos(26, 25), &[Part::Attack, Part::Move]);
    hurt.body.hits = 50;
    let attacker = bodies.creep(1, ATTACKER, pos(20, 25), &[Part::Attack, Part::Move]);
    let world = CombatWorld {
        creeps: vec![hurt, attacker],
        structures: vec![structure(CORE, StructureKind::Spawn, 25, 25, 3000)],
        towers: vec![tower(1002, 25, 26), tower(1003, 25, 24)],
        safe_mode_owner: None,
    };
    let mut intents = Intents::new();
    defense_intents(&world, DEFENDER, pos(25, 25), &mut intents);
    let heals = intents.towers.values().filter(|a| matches!(a, TowerAction::Heal(50))).count();
    let attacks = intents.towers.values().filter(|a| matches!(a, TowerAction::Attack(1))).count();
    assert_eq!(heals, 1, "one tower heals the damaged defender");
    assert_eq!(attacks, 1, "the other tower attacks the closest hostile");
    // It is the last tower that mends.
    assert_eq!(intents.towers.get(&1003), Some(&TowerAction::Heal(50)));
}

fn sized_squad_intents(bodies: &Bodies, world: &CombatWorld, attacker: PlayerId, core_pos: Position) -> Intents {
    let mut intents = Intents::new();
    let wounded = world
        .creeps
        .iter()
        .filter(|c| c.alive && c.owner == attacker)
        .min_by_key(|c| c.body.hits)
        .map(|c| (c.id, c.pos));
    for c in world.creeps.iter().filter(|c| c.alive && c.owner == attacker) {
        if bodies.working(c, Part::Work) > 0 {
            let rampart = world
                .structures
                .iter()
                .filter(|s| s.alive && s.kind == StructureKind::Rampart)
                .min_by_key(|s| c.pos.get_range_to(s.pos));
            let (tpos, tid) = match rampart {
                Some(r) => (r.pos, r.id),
                None => (core_pos, CORE),
            };
            if c.pos.get_range_to(tpos) <= 1 {
                intents.set(c.id, vec![CombatAction::Dismantle(tid)]);
            }
        } else if bodies.working(c, Part::Heal) > 0 {
            if let Some((wid, wpos)) = wounded {
                let r = c.pos.get_range_to(wpos);
                if r <= 1 {
                    intents.set(c.id, vec![CombatAction::Heal(wid)]);
                } else if r <= 3 {
                    intents.set(c.id, vec![CombatAction::RangedHeal(wid)]);
                }
            }
        }
    }
    intents
}

#[test]
fn force_sized_squad_holds_and_breaches_where_underhealed_is_wiped() {
    let mut heavy = vec![Part::Tough; 8];
    heavy.extend(vec![Part::Work; 25]);
    heavy.extend(vec![Part::Move; 17]);
    let mut healer = vec![Part::Heal; 23];
    healer.extend(vec![Part::Move; 10]);
    let core_pos = pos(25, 25);
    let siege = |healers: &[(u8, u8)]| {
        let mut bodies = Bodies::default();
        let mut creeps = vec![bodies.creep(1, ATTACKER, pos(24, 24), &heavy)];
        for (i, &(hx, hy)) in healers.iter().enumerate() {
            creeps.push(bodies.creep(2 + i as u32, ATTACKER, pos(hx, hy), &healer));
        }
        let world = CombatWorld {
            creeps,
            structures: vec![
                structure(CORE, StructureKind::Spawn, 25, 25, 3000),
                structure(1005, StructureKind::Rampart, 24, 25, 30_000),
            ],
            towers: vec![tower(1002, 23, 8), tower(1003, 24, 8), tower(1004, 25, 8)],
            safe_mode_owner: None,
        };
        run_siege(
            world,
            DEFENDER,
            CORE,
            core_pos,
            &mut (),
            &|w: &CombatWorld, _: &()| (sized_squad_intents(&bodies, w, ATTACKER, core_pos), ()),
            &|w: &CombatWorld, i: &Intents, _: &()| (resolve_tick(&bodies, w, i), ()),
            300,
        )
    };
    let sized = siege(&[(23, 24), (23, 23), (24, 23)]);
    assert_eq!(
        sized.result,
        SiegeResult::CoreBreached,
        "the force-sized (multi-healer) squad holds under tower fire + active repair and breaches; got {sized:?}"
    );
    let under = siege(&[(23, 24)]);
    assert_ne!(
        under.result,
        SiegeResult::CoreBreached,
        "an under-healed squad is worn down before it can breach (size-to-hold is load-bearing); got {under:?}"
    );
    assert_eq!(
        under.core_hits, 3000,
        "the core never took a hit — the under-healed squad never broke through"
    );
}

#[test]
fn attacker_marches_into_the_next_room_and_breaches_the_core() {
    let mut bodies = Bodies::default();
    let east = moved(pos(49, 25), 1, 0).room_name();
    let world = CombatWorld {
        creeps: vec![bodies.creep(1, ATTACKER, Position::new(1, 25, east), &dismantler(15, 25, 10))],
        structures: vec![
            structure(CORE, StructureKind::Spawn, 46, 25, 3000),
            structure(1003, StructureKind::Rampart, 47, 25, 4000),
        ],
        towers: vec![tower(1002, 46, 23)],
        safe_mode_owner: None,
    };
    let outcome = besiege(bodies, world, pos(46, 25), 300);
    assert!(
        outcome.core_hits < 3000,
        "the sieger crossed in, breached the rampart, and damaged the core; got {:?}",
        outcome
    );
}

fn idle_world(creeps: Vec<SimCreep>) -> CombatWorld {
    CombatWorld {
        creeps,
        structures: vec![structure(CORE, StructureKind::Spawn, 25, 25, 3000)],
        towers: vec![],
        safe_mode_owner: None,
    }
}

#[test]
fn a_siege_ends_in_one_of_three_ways() {
    let mut bodies = Bodies::default();
    let attacker = bodies.creep(1, ATTACKER, pos(3, 3), &[Part::Move]);
    let run = |world: CombatWorld, max_ticks: u32| {
        run_siege(
            world,
            DEFENDER,
            CORE,
            pos(25, 25),
            &mut (),
            &|_: &CombatWorld, _: &()| (Intents::new(), ()),
            &|w: &CombatWorld, _: &Intents, _: &()| (w.clone(), ()),
            max_ticks,
        )
    };
    let held = run(idle_world(vec![attacker]), 7);
    assert_eq!(
        (held.result, held.ticks, held.core_hits, held.attackers_alive),
        (SiegeResult::Held, 7, 3000, 1)
    );
    let wiped = run(idle_world(vec![SimCreep { alive: false, ..attacker }]), 7);
    assert_eq!(
        (wiped.result, wiped.ticks, wiped.core_hits, wiped.attackers_alive),
        (SiegeResult::AttackersWiped, 0, 3000, 0)
    );
    // A core that is nowhere to be found has no hits left.
    let mut gone = idle_world(vec![attacker, SimCreep { id: 2, ..attacker }]);
    gone.structures.clear();
    let breached = run(gone, 7);
    assert_eq!(
        (breached.result, breached.ticks, breached.core_hits, breached.attackers_alive),
        (SiegeResult::CoreBreached, 0, 0, 2)
    );
    // A breach counts even where nobody is left to enjoy it.
    let mut both = idle_world(vec![]);
    both.structures[0].hits = 0;
    assert_eq!(run(both, 0).result, SiegeResult::CoreBreached);
}

#[test]
fn a_tower_can_be_the_core() {
    let mut bodies = Bodies::default();
    let mut world = idle_world(vec![bodies.creep(1, ATTACKER, pos(3, 3), &[Part::Move])]);
    world.structures.clear();
    world.towers.push(SimTower { hits: 1234, ..tower(CORE, 25, 25) });
    let verdict = siege_verdict(&world, DEFENDER, CORE, 5, 5).unwrap();
    assert_eq!((verdict.result, verdict.core_hits), (SiegeResult::Held, 1234));
    assert!(siege_verdict(&world, DEFENDER, CORE, 4, 5).is_none());
}

#[test]
fn the_closest_hostile_is_the_focus() {
    let mut bodies = Bodies::default();
    let mut world = idle_world(vec![
        bodies.creep(1, ATTACKER, pos(20, 25), &[Part::Move]),
        bodies.creep(2, ATTACKER, pos(22, 25), &[Part::Move]),
        bodies.creep(3, ATTACKER, pos(25, 28), &[Part::Move]),
        SimCreep { alive: false, ..bodies.creep(4, ATTACKER, pos(25, 26), &[Part::Move]) },
    ]);
    world.towers.push(tower(1002, 25, 27));
    let mut intents = Intents::new();
    defense_intents(&world, DEFENDER, pos(25, 25), &mut intents);
    // Creeps 2 and 3 are equally near: the first of them.
    assert_eq!(intents.towers.get(&1002), Some(&TowerAction::Attack(2)));
}

#[test]
fn heal_comes_before_repair() {
    let mut bodies = Bodies::default();
    let mut hurt = bodies.creep(50, DEFENDER, pos(26, 25), &[Part::Attack, Part::Move]);
    hurt.body.hits = 199;
    let mut worse = bodies.creep(51, DEFENDER, pos(27, 25), &[Part::Attack, Part::Move]);
    worse.body.hits = 20;
    let mut world = idle_world(vec![hurt, worse]);
    world.structures.push(SimStructure { hits: 10, ..structure(1004, StructureKind::Rampart, 24, 25, 100) });
    world.towers = vec![tower(1002, 25, 27), tower(1003, 25, 24)];
    let mut intents = Intents::new();
    defense_intents(&world, DEFENDER, pos(25, 25), &mut intents);
    // The last tower mends the worst wound; with no hostile the other does nothing.
    assert_eq!(intents.towers.get(&1003), Some(&TowerAction::Heal(51)));
    assert_eq!(intents.towers.len(), 1);

    world.creeps.clear();
    let mut intents = Intents::new();
    defense_intents(&world, DEFENDER, pos(25, 25), &mut intents);
    assert_eq!(intents.towers.get(&1003), Some(&TowerAction::Repair(1004)));
    assert_eq!(intents.towers.len(), 1);
}

#[test]
fn defenders_strike_within_their_reach() {
    let mut bodies = Bodies::default();
    let target = bodies.creep(1, ATTACKER, pos(20, 20), &[Part::Move]);
    let ranged = [Part::RangedAttack, Part::Move];
    let melee = [Part::Attack, Part::Move];
    let world = idle_world(vec![
        target,
        bodies.creep(10, DEFENDER, pos(21, 20), &ranged),
        bodies.creep(11, DEFENDER, pos(23, 20), &ranged),
        bodies.creep(12, DEFENDER, pos(24, 20), &ranged),
        bodies.creep(13, DEFENDER, pos(20, 21), &melee),
        bodies.creep(14, DEFENDER, pos(20, 22), &melee),
        bodies.creep(15, DEFENDER, pos(19, 19), &[Part::Move]),
    ]);
    let mut intents = Intents::new();
    // What the attackers had set stays.
    intents.set(1, vec![CombatAction::Heal(1)]);
    intents.set_move(1, Direction::Top);
    defense_intents(&world, DEFENDER, pos(25, 25), &mut intents);
    assert_eq!(intents.creeps.get(&10), Some(&vec![CombatAction::RangedMassAttack]));
    assert_eq!(intents.creeps.get(&11), Some(&vec![CombatAction::RangedAttack(1)]));
    assert_eq!(intents.creeps.get(&12), None);
    assert_eq!(intents.creeps.get(&13), Some(&vec![CombatAction::Attack(1)]));
    assert_eq!(intents.creeps.get(&14), None);
    assert_eq!(intents.creeps.get(&15), None);
    assert_eq!(intents.creeps.get(&1), Some(&vec![CombatAction::Heal(1)]));
    assert_eq!(intents.moves.get(&1), Some(&Direction::Top));
}

#[test]
fn ramparts_fall_before_the_core() {
    let (_, mut world) = bed(&dismantler(0, 1, 1), 4000);
    let orders = |w: &CombatWorld| dismantler_intents(w, ATTACKER, CORE, pos(25, 25), &open_terrain, &search);
    assert_eq!(orders(&world).creeps.get(&1), Some(&vec![CombatAction::Dismantle(1003)]));
    // With the rampart gone the core is two tiles off: walk.
    world.structures[1].alive = false;
    let walking = orders(&world);
    assert!(walking.creeps.is_empty());
    assert_eq!(walking.moves.get(&1), Some(&Direction::Right));
    world.creeps[0].pos = pos(24, 25);
    assert_eq!(orders(&world).creeps.get(&1), Some(&vec![CombatAction::Dismantle(CORE)]));
    // The dead, and the other side, get no orders.
    world.creeps[0].alive = false;
    assert!(orders(&world).creeps.is_empty());
}

#[test]
fn each_side_is_asked_once_a_tick_with_what_it_kept() {
    let mut bodies = Bodies::default();
    let world = idle_world(vec![bodies.creep(1, ATTACKER, pos(3, 3), &[Part::Move])]);
    let mut kept: Vec<u8> = vec![];
    let outcome = run_siege(
        world,
        DEFENDER,
        CORE,
        pos(25, 25),
        &mut kept,
        &|_: &CombatWorld, seen: &Vec<u8>| (Intents::new(), [seen.as_slice(), &[1]].concat()),
        &|w: &CombatWorld, _: &Intents, seen: &Vec<u8>| (w.clone(), [seen.as_slice(), &[2]].concat()),
        3,
    );
    assert_eq!((outcome.result, outcome.ticks), (SiegeResult::Held, 3));
    assert_eq!(kept, vec![1, 2, 1, 2, 1, 2]);
}

#[test]
fn a_larger_limit_keeps_a_decided_siege() {
    let run = |limit: u32| {
        let (bodies, world) = bed(&dismantler(10, 30, 10), 4000);
        besiege(bodies, world, pos(25, 25), limit)
    };
    let decided = run(300);
    assert_eq!(decided.result, SiegeResult::CoreBreached);
    for limit in [decided.ticks, decided.ticks + 1, 1000] {
        let again = run(limit);
        assert_eq!(
            (again.result, again.ticks, again.core_hits, again.attackers_alive),
            (decided.result, decided.ticks, decided.core_hits, decided.attackers_alive)
        );
    }
    for limit in 0..decided.ticks {
        let cut = run(limit);
        assert_eq!((cut.result, cut.ticks), (SiegeResult::Held, limit));
    }
}
