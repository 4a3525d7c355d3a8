//! Requests to the mover: holds, and the damper on doomed goals.
use screeps_combat_agent::movement::{
    convert_persistent_doomed_goals, move_request_from_intent, push_hold_requests, MoveGoal, MoveRequest,
    MovementPriority, DOOMED_GOAL_HOLD_AFTER,
};
use screeps_combat_agent::pathing::CombatIntent;
use screeps_combat_agent::world::{CombatAction, CombatWorld, CreepId, SimBody, SimCreep};
use screeps_combat_agent::{Position, RoomName};
use std::collections::HashMap;

fn pos(x: u8, y: u8) -> Position {
    Position::new(x, y, RoomName { packed: screeps::RoomName::new("W1N1").unwrap().packed_repr() })
}

fn creep(id: CreepId, x: u8, y: u8) -> SimCreep {
    SimCreep {
        id,
        owner: 0,
        pos: pos(x, y),
        body: SimBody { hits: 100, hits_max: 100, attack_power: 0, ranged_attack_power: 0 },
        alive: true,
    }
}

fn world_of(creeps: Vec<SimCreep>) -> CombatWorld {
    CombatWorld { creeps, structures: vec![], towers: vec![], safe_mode_owner: None }
}

fn go(id: CreepId, target: Position, range: u32) -> MoveRequest {
    MoveRequest::new(id, MoveGoal::To { target, range })
}

fn target_of(req: &MoveRequest) -> Option<(Position, u32)> {
    match req.goal {
        MoveGoal::To { target, range } => Some((target, range)),
        MoveGoal::Flee { .. } => None,
    }
}

fn holds(req: &MoveRequest, at: Position) -> bool {
    req.priority == MovementPriority::Immovable && target_of(req) == Some((at, 0))
}

#[test]
fn intents_become_requests() {
    let req = move_request_from_intent(4, &CombatIntent::MoveTo { target: pos(3, 4), range: 2 }).unwrap();
    assert_eq!((req.creep, target_of(&req)), (4, Some((pos(3, 4), 2))));
    assert_eq!((req.priority, req.priority_value), (MovementPriority::Standard, None));
    assert_eq!((req.shove, req.anchor, req.engaged), (None, None, false));
    let req = move_request_from_intent(4, &CombatIntent::Flee { from: vec![pos(1, 1), pos(2, 2)], range: 8 }).unwrap();
    assert!(matches!(req.goal, MoveGoal::Flee { ref from, range: 8 } if *from == vec![pos(1, 1), pos(2, 2)]));
    assert!(move_request_from_intent(4, &CombatIntent::Idle).is_none());
    assert!(move_request_from_intent(4, &CombatIntent::Unresolved).is_none());
    assert!(move_request_from_intent(4, &CombatIntent::Act(CombatAction::Attack(1))).is_none());
}

#[test]
fn every_living_member_without_a_request_holds() {
    let world = world_of(vec![creep(1, 5, 5), creep(2, 6, 5), SimCreep { alive: false, ..creep(3, 7, 5) }]);
    let mut reqs = vec![go(1, pos(9, 9), 1)];
    push_hold_requests(&world, &vec![1, 2, 3, 4], &mut reqs);
    assert_eq!(reqs.iter().map(|r| r.creep).collect::<Vec<_>>(), vec![1, 2]);
    assert_eq!(target_of(&reqs[0]), Some((pos(9, 9), 1)));
    assert!(holds(&reqs[1], pos(6, 5)));
    // A second round finds nothing to add.
    push_hold_requests(&world, &vec![1, 2, 3, 4], &mut reqs);
    assert_eq!(reqs.len(), 2);
}

/// Creep 1 stands at (5,5) and wants (6,5), which creep 2 holds.
fn doomed() -> (CombatWorld, Vec<MoveRequest>) {
    (
        world_of(vec![creep(1, 5, 5), creep(2, 6, 5)]),
        vec![go(1, pos(6, 5), 0), MoveRequest::hold(2, pos(6, 5))],
    )
}

#[test]
fn a_doomed_goal_becomes_a_hold_after_its_grace() {
    let (world, start) = doomed();
    let mut streaks = HashMap::new();
    for tick in 1..=5u16 {
        let mut reqs = start.clone();
        convert_persistent_doomed_goals(&world, &mut reqs, &mut streaks);
        assert_eq!(streaks.get(&1), Some(&(pos(6, 5), tick)));
        assert_eq!(holds(&reqs[0], pos(5, 5)), tick >= DOOMED_GOAL_HOLD_AFTER);
        assert!(holds(&reqs[1], pos(6, 5)));
        assert_eq!(streaks.len(), 1);
    }
    assert_eq!(DOOMED_GOAL_HOLD_AFTER, 3);
}

#[test]
fn a_changed_goal_starts_a_new_streak() {
    let (world, start) = doomed();
    let mut streaks = HashMap::from([(1, (pos(4, 4), 9u16)), (2, (pos(8, 8), 5u16))]);
    let mut reqs = start.clone();
    convert_persistent_doomed_goals(&world, &mut reqs, &mut streaks);
    assert_eq!(streaks, HashMap::from([(1, (pos(6, 5), 1u16))]));
    // The holder leaves: the streak is gone.
    let mut reqs = vec![go(1, pos(6, 5), 0), go(2, pos(9, 5), 0)];
    convert_persistent_doomed_goals(&world, &mut reqs, &mut streaks);
    assert!(streaks.is_empty());
    assert_eq!(target_of(&reqs[0]), Some((pos(6, 5), 0)));
}

#[test]
fn only_a_doomed_goal_is_touched() {
    let at = |x: u8| world_of(vec![creep(1, x, 5), creep(2, 6, 5)]);
    let run = |world: &CombatWorld, req: MoveRequest| {
        let mut streaks = HashMap::from([(1, (pos(6, 5), 7u16))]);
        let mut reqs = vec![req, MoveRequest::hold(2, pos(6, 5))];
        convert_persistent_doomed_goals(world, &mut reqs, &mut streaks);
        (holds(&reqs[0], world.creeps[0].pos), streaks.get(&1).map(|s| s.1))
    };
    assert_eq!(run(&at(5), go(1, pos(6, 5), 0)), (true, Some(8)));
    // Two tiles off, or content to be near, or after another tile: left alone.
    assert_eq!(run(&at(4), go(1, pos(6, 5), 0)), (false, None));
    assert_eq!(run(&at(5), go(1, pos(6, 5), 1)), (false, None));
    assert_eq!(run(&at(5), go(1, pos(5, 6), 0)), (false, None));
    // A creep that is gone, or that flees, has no streak.
    let mut gone = at(5);
    gone.creeps[0].alive = false;
    assert_eq!(run(&gone, go(1, pos(6, 5), 0)), (false, None));
    let flee = MoveRequest::new(1, MoveGoal::Flee { from: vec![pos(6, 5)], range: 0 });
    assert_eq!(run(&at(5), flee), (false, None));
}
