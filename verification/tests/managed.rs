//! Squads under a kernel: what the kernel is asked, what the mover is, and what comes of it.
use screeps_combat_agent::managed::{
    CombatConstants, EngageObjective, FocusTarget, HealAssignment, ManagedSimSquad, MemberMovement,
    MemberOrders, SquadDecision, SquadOrderState, SquadSituation, StallTracker, FLEE_RANGE,
};
use screeps_combat_agent::movement::{MoveGoal, MoveRequest, MovementPriority};
use screeps_combat_agent::pathing::CombatIntent;
use screeps_combat_agent::view::{FriendView, HostileView, Ownership, SimView, StructureView};
use screeps_combat_agent::world::{CombatAction, CombatWorld, CreepId, Intents, PlayerId, SimBody, SimCreep};
use screeps_combat_agent::{Direction, Position, RoomName};
use std::cell::RefCell;
use std::collections::HashMap;

fn named(name: &str) -> RoomName {
    RoomName { packed: screeps::RoomName::new(name).unwrap().packed_repr() }
}

fn pos(x: u8, y: u8) -> Position {
    Position::new(x, y, named("W1N1"))
}

fn west(x: u8, y: u8) -> Position {
    Position::new(x, y, named("W2N1"))
}

fn creep(id: CreepId, owner: PlayerId, at: Position) -> SimCreep {
    SimCreep {
        id,
        owner,
        pos: at,
        body: SimBody { hits: 200, hits_max: 400, attack_power: 0, ranged_attack_power: 0 },
        alive: true,
    }
}

fn world_of(creeps: Vec<SimCreep>) -> CombatWorld {
    CombatWorld { creeps, structures: vec![], towers: vec![], safe_mode_owner: None }
}

fn friend(c: &SimCreep) -> FriendView {
    FriendView {
        creep: c.id,
        id: 100 + c.id as u128,
        pos: c.pos,
        hits: c.body.hits,
        hits_max: c.body.hits_max,
        heal_parts: 3,
        ranged_attack_parts: 2,
        attack_parts: 4,
        work_parts: 5,
        claim_parts: 1,
        has_ranged: true,
    }
}

fn view_of(world: &CombatWorld, owner: PlayerId, r: RoomName) -> SimView {
    let here: Vec<&SimCreep> = world.creeps.iter().filter(|c| c.alive && c.pos.room_name() == r).collect();
    SimView {
        friends: here.iter().filter(|c| c.owner == owner).map(|c| friend(c)).collect(),
        hostiles: here
            .iter()
            .filter(|c| c.owner != owner)
            .map(|c| HostileView { pos: c.pos, hits: c.body.hits })
            .collect(),
        structures: vec![
            StructureView { ownership: Ownership::Hostile, pos: pos(40, 40), hits: 70 },
            StructureView { ownership: Ownership::Mine, pos: pos(41, 40), hits: 1000 },
            StructureView { ownership: Ownership::Neutral, pos: pos(42, 40), hits: 1000 },
            StructureView { ownership: Ownership::Hostile, pos: pos(43, 40), hits: 5 },
        ],
    }
}

const CONSTANTS: CombatConstants = CombatConstants {
    stall_limit: 3,
    attack_power: 30,
    ranged_attack_power: 10,
    dismantle_power: 50,
    claim_power: 300,
};

fn squad(members: Vec<CreepId>) -> ManagedSimSquad<u16, u8, u8, u32> {
    ManagedSimSquad::new(0, members, pos(25, 25), 11, 22, 0, CONSTANTS)
}

type Decision = SquadDecision<u16, char>;

fn decision(state: SquadOrderState<u16>) -> Decision {
    SquadDecision {
        state,
        center: Some(pos(24, 24)),
        movement: 'm',
        cohesion_radius: 2,
        heal_assignments: vec![],
        focus_assignments: vec![],
        focus: None,
        member_goals: vec![],
        member_intents: vec![],
    }
}

/// What went in and out of one tick.
#[derive(Default)]
struct Tick {
    situation: Option<SquadSituation<u16>>,
    fights: Vec<MemberOrders>,
    maneuvers: Vec<MemberOrders>,
    reqs: Vec<MoveRequest>,
}

fn step(
    s: &mut ManagedSimSquad<u16, u8, u8, u32>,
    world: &CombatWorld,
    decided: &Decision,
    moves: &dyn Fn(CreepId) -> Vec<CombatIntent>,
) -> (Intents, Tick) {
    let tick = RefCell::new(Tick::default());
    let intents = s.step(
        world,
        &|w: &CombatWorld, owner: PlayerId, at: Position, r: RoomName| {
            assert_eq!((at, r), (pos(25, 25), named("W1N1")));
            view_of(w, owner, r)
        },
        &|_: &CombatWorld, owner: PlayerId, _: &SimView, asked: &SquadSituation<u16>, tactics: &u8| {
            assert_eq!((owner, *tactics), (0, 11));
            tick.borrow_mut().situation = Some(asked.clone());
            decided.clone()
        },
        &|_: &SimView, by: &Decision, orders: &MemberOrders| {
            assert_eq!(by.movement, decided.movement);
            tick.borrow_mut().fights.push(*orders);
            vec![CombatIntent::Unresolved, CombatIntent::Act(CombatAction::Attack(9)), CombatIntent::Idle]
        },
        &|_: &SimView, by: &Decision, orders: &MemberOrders| {
            assert_eq!(by.movement, decided.movement);
            tick.borrow_mut().maneuvers.push(*orders);
            moves(orders.member)
        },
        &|_: &CombatWorld, owner: PlayerId, reqs: &Vec<MoveRequest>, config: &u8, passes: &u32| {
            assert_eq!((owner, *config), (0, 22));
            tick.borrow_mut().reqs = reqs.clone();
            (reqs.iter().map(|r| (r.creep, Direction::Top)).collect(), passes + 1)
        },
    );
    let tick = tick.into_inner();
    (intents, tick)
}

fn still(_: CreepId) -> Vec<CombatIntent> {
    vec![]
}

fn is_hold(r: &MoveRequest, at: Position) -> bool {
    r.priority == MovementPriority::Immovable && matches!(r.goal, MoveGoal::To { target, range: 0 } if target == at)
}

#[test]
fn a_new_squad_is_out_to_destroy() {
    let s = squad(vec![1, 2]);
    assert_eq!((s.owner, s.objective, f32::from_bits(s.retreat_threshold_bits)), (0, pos(25, 25), 0.3));
    assert_eq!((s.state, s.intent), (SquadOrderState::Forming, EngageObjective::Destroy));
    assert_eq!((s.shove_enabled, s.drain_stance), (true, false));
    assert_eq!(s.enemy_stall, StallTracker { prev: None, ticks: 0 });
    assert!(s.priority_bids.is_empty() && s.doomed_streaks.is_empty());
    let s = s
        .with_mover_config(23)
        .with_tactics(12)
        .with_shove(false)
        .with_drain_stance(true)
        .with_intent(EngageObjective::Hold)
        .with_priority_bids(HashMap::from([(1, 7)]));
    assert_eq!((s.mover_config, s.tactics, s.shove_enabled, s.drain_stance), (23, 12, false, true));
    assert_eq!((s.intent, s.priority_bids.get(&1)), (EngageObjective::Hold, Some(&7)));
    assert_eq!(s.members, vec![1, 2]);
}

#[test]
fn a_dead_squad_does_nothing() {
    let world = world_of(vec![SimCreep { alive: false, ..creep(1, 0, pos(5, 5)) }]);
    let (intents, tick) = step(&mut squad(vec![1]), &world, &decision(SquadOrderState::Engaged), &still);
    assert!(intents.creeps.is_empty() && intents.moves.is_empty() && intents.towers.is_empty());
    assert!(tick.situation.is_none() && tick.reqs.is_empty());
}

#[test]
fn travellers_head_for_the_objective() {
    let world = world_of(vec![creep(1, 0, west(5, 5)), creep(2, 0, west(6, 5))]);
    let mut s = squad(vec![1, 2]).with_priority_bids(HashMap::from([(2, -4)]));
    let (intents, tick) = step(&mut s, &world, &decision(SquadOrderState::Engaged), &still);
    assert!(tick.situation.is_none() && intents.creeps.is_empty());
    assert_eq!(s.state, SquadOrderState::Forming);
    assert_eq!(intents.moves.len(), 2);
    for r in &tick.reqs {
        assert!(matches!(r.goal, MoveGoal::To { target, range: 1 } if target == pos(25, 25)));
        assert_eq!((r.priority, r.shove, r.engaged), (MovementPriority::Standard, None, false));
    }
    assert_eq!(tick.reqs.iter().map(|r| r.priority_value).collect::<Vec<_>>(), vec![None, Some(-4)]);
}

#[test]
fn a_retreating_traveller_flees_or_holds() {
    let mut world = world_of(vec![
        creep(1, 0, west(5, 5)),
        creep(8, 1, west(9, 5)),
        creep(9, 2, west(9, 6)),
        creep(7, 1, pos(30, 30)),
    ]);
    let mut s = squad(vec![1]);
    s.state = SquadOrderState::Retreating;
    let (_, tick) = step(&mut s, &world, &decision(SquadOrderState::Engaged), &still);
    assert_eq!(tick.reqs.len(), 1);
    assert!(matches!(
        tick.reqs[0].goal,
        MoveGoal::Flee { ref from, range } if *from == vec![west(9, 5), west(9, 6)] && range == FLEE_RANGE
    ));
    assert_eq!(FLEE_RANGE, 8);
    world.creeps.truncate(1);
    let (_, tick) = step(&mut s, &world, &decision(SquadOrderState::Engaged), &still);
    assert_eq!(tick.reqs.len(), 1);
    assert!(is_hold(&tick.reqs[0], west(5, 5)));
}

#[test]
fn the_kernel_sees_those_present() {
    let mut world = world_of(vec![
        creep(1, 0, west(5, 5)),
        creep(2, 0, pos(20, 20)),
        creep(9, 1, pos(22, 20)),
    ]);
    world.safe_mode_owner = Some(1);
    let mut s = squad(vec![1, 2]).with_intent(EngageObjective::Hold).with_drain_stance(true);
    let (intents, tick) = step(&mut s, &world, &decision(SquadOrderState::Engaged), &still);
    let asked = tick.situation.unwrap();
    assert_eq!(asked.members.len(), 1);
    let m = asked.members[0];
    assert_eq!((m.hits, m.hits_max, m.heal_power, m.pos, m.id), (200, 400, 3, pos(20, 20), 102));
    assert_eq!((m.melee_power, m.ranged_power, m.dismantle_power, m.claim_power), (120, 20, 250, 300));
    assert_eq!((m.has_ranged, m.damage_taken_last_tick), (true, 0));
    assert_eq!((f32::from_bits(asked.retreat_threshold_bits), asked.current_state), (0.3, SquadOrderState::Forming));
    assert_eq!((asked.engage_objective, asked.enemy_safe_mode), (EngageObjective::Hold, true));
    assert_eq!((asked.enemy_stalled, asked.structure_stalled, asked.drain_stance), (false, false, true));
    // Those present fight, the others travel, and nobody is left out.
    assert_eq!(s.state, SquadOrderState::Engaged);
    assert_eq!(intents.creeps, HashMap::from([(2, vec![CombatAction::Attack(9)])]));
    assert_eq!(tick.reqs.iter().map(|r| r.creep).collect::<Vec<_>>(), vec![1, 2]);
    assert!(is_hold(&tick.reqs[1], pos(20, 20)));
    // One's own safe mode is none of the enemy's.
    world.safe_mode_owner = Some(0);
    let (_, tick) = step(&mut s, &world, &decision(SquadOrderState::Engaged), &still);
    assert!(!tick.situation.unwrap().enemy_safe_mode);
}

#[test]
fn a_stall_is_counted_and_headway_ends_it() {
    let mut world = world_of(vec![creep(2, 0, pos(20, 20)), creep(9, 1, pos(22, 20))]);
    let mut s = squad(vec![2]);
    let mut stalled = vec![];
    for _ in 0..5 {
        let (_, tick) = step(&mut s, &world, &decision(SquadOrderState::Engaged), &still);
        let asked = tick.situation.unwrap();
        stalled.push((asked.enemy_stalled, asked.structure_stalled));
    }
    let (no, yes) = ((false, false), (true, true));
    assert_eq!(stalled, vec![no, no, no, yes, yes]);
    assert_eq!(s.enemy_stall, StallTracker { prev: Some(200), ticks: 4 });
    // Only the hostile structures count.
    assert_eq!(s.structure_stall, StallTracker { prev: Some(75), ticks: 4 });
    world.creeps[1].body.hits -= 1;
    let (_, tick) = step(&mut s, &world, &decision(SquadOrderState::Engaged), &still);
    let asked = tick.situation.unwrap();
    assert_eq!((asked.enemy_stalled, asked.structure_stalled), (false, true));
    assert_eq!(s.enemy_stall, StallTracker { prev: Some(199), ticks: 0 });
}

#[test]
fn a_stall_never_overflows() {
    let mut t = StallTracker { prev: Some(5), ticks: u32::MAX };
    t.observe(5);
    assert_eq!(t, StallTracker { prev: Some(5), ticks: u32::MAX });
    t.observe(6);
    assert_eq!(t.ticks, u32::MAX);
    t.observe(5);
    assert_eq!(t, StallTracker { prev: Some(5), ticks: 0 });
}

#[test]
fn orders_are_each_members_own() {
    let world = world_of(vec![creep(1, 0, pos(20, 20)), creep(2, 0, pos(21, 20)), creep(3, 0, pos(22, 20))]);
    let mine = FocusTarget { pos: pos(30, 30), id: 5 };
    let shared = FocusTarget { pos: pos(31, 30), id: 6 };
    let decided = SquadDecision {
        center: None,
        focus: Some(shared),
        focus_assignments: vec![Some(mine), None],
        heal_assignments: vec![
            HealAssignment { healer_idx: 2, target_idx: 0 },
            HealAssignment { healer_idx: 2, target_idx: 1 },
            HealAssignment { healer_idx: 1, target_idx: 9 },
        ],
        member_goals: vec![None, Some(pos(26, 26))],
        member_intents: vec![vec![], vec![CombatIntent::Act(CombatAction::RangedAttack(4))]],
        ..decision(SquadOrderState::Engaged)
    };
    let (intents, tick) = step(&mut squad(vec![1, 2, 3]), &world, &decided, &still);
    let [a, b, c] = [tick.maneuvers[0], tick.maneuvers[1], tick.maneuvers[2]];
    assert_eq!([a.focus, b.focus, c.focus], [Some(mine), Some(shared), Some(shared)]);
    assert_eq!([a.heal_target, b.heal_target], [None, None]);
    assert_eq!(c.heal_target, Some(FocusTarget { pos: pos(20, 20), id: 101 }));
    assert_eq!(a.movement, MemberMovement::Shared);
    assert_eq!(b.movement, MemberMovement::Advance { goal: pos(26, 26), range: 0 });
    // Without a center the block is round the objective.
    assert_eq!((a.center, a.room, a.cohesion_radius), (pos(25, 25), named("W1N1"), 2));
    // The kernel's own choice of actions wins over the member's, where it made one.
    assert_eq!(tick.fights.iter().map(|o| o.member).collect::<Vec<_>>(), vec![1, 3]);
    assert_eq!(intents.creeps.get(&1), Some(&vec![CombatAction::Attack(9)]));
    assert_eq!(intents.creeps.get(&2), Some(&vec![CombatAction::RangedAttack(4)]));
}

#[test]
fn fighters_go_first_and_keep_to_the_block() {
    let world = world_of(vec![creep(1, 0, pos(20, 20)), creep(2, 0, pos(21, 20))]);
    let moves = |id: CreepId| {
        if id == 1 {
            vec![CombatIntent::Idle, CombatIntent::MoveTo { target: pos(24, 20), range: 2 }, CombatIntent::Idle]
        } else {
            vec![CombatIntent::Flee { from: vec![pos(22, 20)], range: 4 }]
        }
    };
    let mut s = squad(vec![1, 2]).with_priority_bids(HashMap::from([(1, 50)]));
    let (_, tick) = step(&mut s, &world, &decision(SquadOrderState::Engaged), &moves);
    let (a, b) = (&tick.reqs[0], &tick.reqs[1]);
    assert!(matches!(a.goal, MoveGoal::To { target, range: 2 } if target == pos(24, 20)));
    assert_eq!((a.priority, a.priority_value, a.shove), (MovementPriority::High, Some(50), Some(true)));
    assert_eq!((a.anchor, a.engaged), (Some((pos(24, 24), 2)), true));
    // One that flees never shoves.
    assert!(matches!(b.goal, MoveGoal::Flee { .. }));
    assert_eq!((b.priority_value, b.shove, b.engaged), (None, Some(false), true));
    // Not engaged, or with no cohesion asked for, there is no block to keep to.
    let (_, tick) = step(&mut s, &world, &decision(SquadOrderState::Retreating), &moves);
    assert_eq!(tick.reqs[0].anchor, None);
    let loose = SquadDecision { cohesion_radius: 0, ..decision(SquadOrderState::Engaged) };
    let mut s = s.with_shove(false);
    let (_, tick) = step(&mut s, &world, &loose, &moves);
    assert_eq!((tick.reqs[0].anchor, tick.reqs[0].shove), (None, Some(false)));
}

#[test]
fn a_doomed_member_stands_after_three_ticks() {
    let world = world_of(vec![creep(1, 0, pos(20, 20)), creep(2, 0, pos(21, 20))]);
    let moves = |id: CreepId| {
        if id == 1 {
            vec![CombatIntent::MoveTo { target: pos(21, 20), range: 0 }]
        } else {
            vec![]
        }
    };
    let mut s = squad(vec![1, 2]).with_priority_bids(HashMap::from([(1, 50), (2, 60)]));
    for tick_no in 1..=4u16 {
        let (_, tick) = step(&mut s, &world, &decision(SquadOrderState::Engaged), &moves);
        assert_eq!(is_hold(&tick.reqs[0], pos(20, 20)), tick_no >= 3);
        assert_eq!(s.doomed_streaks.get(&1), Some(&(pos(21, 20), tick_no)));
        // A hold never bids.
        assert_eq!(tick.reqs[0].priority_value, if tick_no >= 3 { None } else { Some(50) });
        assert!(is_hold(&tick.reqs[1], pos(21, 20)));
        assert_eq!(tick.reqs[1].priority_value, None);
    }
    let (_, _) = step(&mut s, &world, &decision(SquadOrderState::Engaged), &still);
    assert!(s.doomed_streaks.is_empty());
}

#[test]
fn what_the_kernel_and_the_mover_keep_is_handed_on() {
    let mut world = world_of(vec![creep(1, 0, pos(20, 20))]);
    let mut s = squad(vec![1]);
    s.retreat_threshold_bits = 0.335f32.to_bits();
    let (_, _) = step(&mut s, &world, &decision(SquadOrderState::Other(77)), &still);
    assert_eq!(s.state, SquadOrderState::Other(77));
    let (_, tick) = step(&mut s, &world, &decision(SquadOrderState::Retreating), &still);
    let asked = tick.situation.unwrap();
    assert_eq!(asked.current_state, SquadOrderState::Other(77));
    assert_eq!(f32::from_bits(asked.retreat_threshold_bits), 0.335);
    assert_eq!(s.move_cache, 2);
    // Also where everybody travels the mover has its pass; with nobody left it has none.
    world.creeps[0].pos = west(3, 3);
    let (_, _) = step(&mut s, &world, &decision(SquadOrderState::Engaged), &still);
    assert_eq!(s.move_cache, 3);
    world.creeps[0].alive = false;
    let (_, _) = step(&mut s, &world, &decision(SquadOrderState::Engaged), &still);
    assert_eq!(s.move_cache, 3);
}
