//! The siege bed: a defended core, the defence that holds it, and the siege that tries to breach
//! it.
//!
//! The defence focuses the hostile closest to the core with every tower but one, and keeps that
//! one for maintenance while there is something to mend: it heals the most damaged defender, or
//! else repairs the most damaged rampart.
use crate::geometry::{range, Direction, Position, RoomName};
use crate::pathing::{resolve_move_direction, resolves_to, CombatCostSource, CombatIntent};
use crate::pathing::SearchRequest;
use crate::select::{count_where, find_first_min, first_min, is_first_min, lemma_first_min};
use crate::select::{filter_map, lemma_filter_map_contains, lemma_filter_map_count};
use crate::select::{lemma_filter_map_rest, lemma_filter_map_take, lemma_first_min_exists};
use crate::world::{CombatAction, CombatWorld, CreepId, Intents, IntentsView, PlayerId, SimCreep};
use crate::world::{SimStructure, SimTower, StructureId, StructureKind, Terrain, TowerAction};
use vstd::prelude::*;

verus! {

/// Who won the siege.
#[derive(Clone, Copy, Debug, PartialEq, Eq, Structural)]
pub enum SiegeResult {
    /// The attacker destroyed the core.
    CoreBreached,
    /// Every attacker died before breaching.
    AttackersWiped,
    /// The core outlasted the ticks of the siege.
    Held,
}

/// How a siege ended.
#[derive(Clone, Copy, Debug, PartialEq, Eq, Structural)]
pub struct SiegeOutcome {
    pub result: SiegeResult,
    pub ticks: u32,
    /// The core's remaining hits; 0 where it was breached.
    pub core_hits: u32,
    pub attackers_alive: usize,
}

/// How far each living hostile stands from the core.
pub open spec fn hostile_ranges(creeps: Seq<SimCreep>, core_owner: PlayerId, core_pos: Position) -> Seq<
    Option<u32>,
> {
    Seq::new(
        creeps.len(),
        |i: int|
            if creeps[i].alive && creeps[i].owner != core_owner {
                Some(range(core_pos, creeps[i].pos) as u32)
            } else {
                None
            },
    )
}

/// The hits left to each living defender that has lost some.
pub open spec fn defender_wounds(creeps: Seq<SimCreep>, core_owner: PlayerId) -> Seq<Option<u32>> {
    Seq::new(
        creeps.len(),
        |i: int|
            if creeps[i].alive && creeps[i].owner == core_owner && creeps[i].body.hits
                < creeps[i].body.hits_max {
                Some(creeps[i].body.hits)
            } else {
                None
            },
    )
}

/// The hits left to each of the defender's standing ramparts that has lost some.
pub open spec fn rampart_wounds(structures: Seq<SimStructure>, core_owner: PlayerId) -> Seq<
    Option<u32>,
> {
    Seq::new(
        structures.len(),
        |i: int|
            if structures[i].alive && structures[i].kind == StructureKind::Rampart
                && structures[i].owner == Some(core_owner) && structures[i].hits
                < structures[i].hits_max {
                Some(structures[i].hits)
            } else {
                None
            },
    )
}

/// The living hostile closest to the core, the first such one on a tie.
pub open spec fn focus(creeps: Seq<SimCreep>, core_owner: PlayerId, core_pos: Position) -> Option<
    SimCreep,
> {
    match first_min(hostile_ranges(creeps, core_owner, core_pos)) {
        Some(i) => Some(creeps[i]),
        None => None,
    }
}

/// The living defender with the fewest hits among those that have lost some.
pub open spec fn wounded_defender(creeps: Seq<SimCreep>, core_owner: PlayerId) -> Option<CreepId> {
    match first_min(defender_wounds(creeps, core_owner)) {
        Some(i) => Some(creeps[i].id),
        None => None,
    }
}

/// The defender's standing rampart with the fewest hits among those that have lost some.
pub open spec fn damaged_rampart(structures: Seq<SimStructure>, core_owner: PlayerId) -> Option<
    StructureId,
> {
    match first_min(rampart_wounds(structures, core_owner)) {
        Some(i) => Some(structures[i].id),
        None => None,
    }
}

pub open spec fn standing_tower(core_owner: PlayerId) -> spec_fn(SimTower) -> Option<StructureId> {
    |tower: SimTower|
        if tower.alive && tower.owner == core_owner {
            Some(tower.id)
        } else {
            None
        }
}

/// The defender's standing towers, in the order of the world.
pub open spec fn own_towers(towers: Seq<SimTower>, core_owner: PlayerId) -> Seq<StructureId> {
    filter_map(towers, standing_tower(core_owner))
}

/// What there is to mend: the most damaged defender before the most damaged rampart.
pub open spec fn mending(world: &CombatWorld, core_owner: PlayerId) -> Option<TowerAction> {
    match wounded_defender(world.creeps@, core_owner) {
        Some(defender) => Some(TowerAction::Heal(defender)),
        None => match damaged_rampart(world.structures@, core_owner) {
            Some(rampart) => Some(TowerAction::Repair(rampart)),
            None => None,
        },
    }
}

/// The tower kept for maintenance, with its action: the last standing one, while there is
/// something to mend.
pub open spec fn maintenance(world: &CombatWorld, core_owner: PlayerId) -> Option<
    (StructureId, TowerAction),
> {
    let towers = own_towers(world.towers@, core_owner);
    match mending(world, core_owner) {
        Some(action) if towers.len() > 0 => Some((towers.last(), action)),
        _ => None,
    }
}

/// The towers that fire: all but the one kept for maintenance.
pub open spec fn firing_towers(world: &CombatWorld, core_owner: PlayerId) -> Seq<StructureId> {
    let towers = own_towers(world.towers@, core_owner);
    if maintenance(world, core_owner) is Some {
        towers.drop_last()
    } else {
        towers
    }
}

/// `orders` with `action` for each of `ids`.
pub open spec fn order_all(
    orders: Map<StructureId, TowerAction>,
    ids: Seq<StructureId>,
    action: TowerAction,
) -> Map<StructureId, TowerAction> {
    Map::new(
        |id: StructureId| orders.dom().contains(id) || ids.contains(id),
        |id: StructureId|
            if ids.contains(id) {
                action
            } else {
                orders[id]
            },
    )
}

/// How a defender strikes the focus: ranged within 3 (a mass attack when adjacent), else in melee
/// when adjacent.
pub open spec fn defender_action(defender: SimCreep, target: SimCreep) -> Option<CombatAction> {
    let r = range(defender.pos, target.pos);
    if defender.body.ranged_attack_power > 0 && r <= 3 {
        Some(
            if r == 1 {
                CombatAction::RangedMassAttack
            } else {
                CombatAction::RangedAttack(target.id)
            },
        )
    } else if defender.body.attack_power > 0 && r == 1 {
        Some(CombatAction::Attack(target.id))
    } else {
        None
    }
}

/// `orders` with the strike of each living defender that has one.
pub open spec fn defender_orders(
    orders: Map<CreepId, Seq<CombatAction>>,
    creeps: Seq<SimCreep>,
    core_owner: PlayerId,
    target: SimCreep,
) -> Map<CreepId, Seq<CombatAction>>
    decreases creeps.len(),
{
    if creeps.len() == 0 {
        orders
    } else {
        let defender = creeps.last();
        let before = defender_orders(orders, creeps.drop_last(), core_owner, target);
        if defender.alive && defender.owner == core_owner {
            match defender_action(defender, target) {
                Some(action) => before.insert(defender.id, seq![action]),
                None => before,
            }
        } else {
            before
        }
    }
}

/// The intents once the defence has added its own.
pub open spec fn defence(
    world: &CombatWorld,
    core_owner: PlayerId,
    core_pos: Position,
    before: IntentsView,
) -> IntentsView {
    let maintained = match maintenance(world, core_owner) {
        Some((tower, action)) => before.towers.insert(tower, action),
        None => before.towers,
    };
    match focus(world.creeps@, core_owner, core_pos) {
        Some(target) => IntentsView {
            creeps: defender_orders(before.creeps, world.creeps@, core_owner, target),
            moves: before.moves,
            towers: order_all(
                maintained,
                firing_towers(world, core_owner),
                TowerAction::Attack(target.id),
            ),
        },
        None => IntentsView { towers: maintained, ..before },
    }
}

fn find_focus(world: &CombatWorld, core_owner: PlayerId, core_pos: Position) -> (target: Option<
    SimCreep,
>)
    ensures
        target == focus(world.creeps@, core_owner, core_pos),
{
    let mut keys: Vec<Option<u32>> = Vec::new();
    let mut i: usize = 0;
    while i < world.creeps.len()
        invariant
            i <= world.creeps@.len(),
            keys@ =~= hostile_ranges(world.creeps@, core_owner, core_pos).take(i as int),
        decreases world.creeps@.len() - i,
    {
        let c = world.creeps[i];
        if c.alive && c.owner != core_owner {
            let r: u32 = core_pos.get_range_to(c.pos);
            keys.push(Some(r));
        } else {
            keys.push(None);
        }
        i = i + 1;
    }
    proof {
        assert(keys@ =~= hostile_ranges(world.creeps@, core_owner, core_pos));
    }
    match find_first_min(&keys) {
        Some(k) => Some(world.creeps[k]),
        None => None,
    }
}

fn find_wounded_defender(world: &CombatWorld, core_owner: PlayerId) -> (id: Option<CreepId>)
    ensures
        id == wounded_defender(world.creeps@, core_owner),
{
    let mut keys: Vec<Option<u32>> = Vec::new();
    let mut i: usize = 0;
    while i < world.creeps.len()
        invariant
            i <= world.creeps@.len(),
            keys@ =~= defender_wounds(world.creeps@, core_owner).take(i as int),
        decreases world.creeps@.len() - i,
    {
        let c = world.creeps[i];
        if c.alive && c.owner == core_owner && c.body.hits < c.body.hits_max {
            keys.push(Some(c.body.hits));
        } else {
            keys.push(None);
        }
        i = i + 1;
    }
    proof {
        assert(keys@ =~= defender_wounds(world.creeps@, core_owner));
    }
    match find_first_min(&keys) {
        Some(k) => Some(world.creeps[k].id),
        None => None,
    }
}

fn is_owned_by(owner: Option<PlayerId>, player: PlayerId) -> (owned: bool)
    ensures
        owned == (owner == Some(player)),
{
    match owner {
        Some(o) => o == player,
        None => false,
    }
}

fn find_damaged_rampart(world: &CombatWorld, core_owner: PlayerId) -> (id: Option<StructureId>)
    ensures
        id == damaged_rampart(world.structures@, core_owner),
{
    let mut keys: Vec<Option<u32>> = Vec::new();
    let mut i: usize = 0;
    while i < world.structures.len()
        invariant
            i <= world.structures@.len(),
            keys@ =~= rampart_wounds(world.structures@, core_owner).take(i as int),
        decreases world.structures@.len() - i,
    {
        let s = world.structures[i];
        if s.alive && s.kind == StructureKind::Rampart && is_owned_by(s.owner, core_owner) && s.hits
            < s.hits_max {
            keys.push(Some(s.hits));
        } else {
            keys.push(None);
        }
        i = i + 1;
    }
    proof {
        assert(keys@ =~= rampart_wounds(world.structures@, core_owner));
    }
    match find_first_min(&keys) {
        Some(k) => Some(world.structures[k].id),
        None => None,
    }
}

fn find_own_towers(world: &CombatWorld, core_owner: PlayerId) -> (ids: Vec<StructureId>)
    ensures
        ids@ == own_towers(world.towers@, core_owner),
{
    let mut ids: Vec<StructureId> = Vec::new();
    let ghost keep = standing_tower(core_owner);
    let mut i: usize = 0;
    while i < world.towers.len()
        invariant
            i <= world.towers@.len(),
            keep == standing_tower(core_owner),
            ids@ == filter_map(world.towers@.take(i as int), keep),
        decreases world.towers@.len() - i,
    {
        let t = world.towers[i];
        proof {
            lemma_filter_map_take(world.towers@, keep, i as int);
        }
        if t.alive && t.owner == core_owner {
            ids.push(t.id);
        }
        i = i + 1;
    }
    proof {
        assert(world.towers@.take(world.towers@.len() as int) =~= world.towers@);
    }
    ids
}

/// Add the defence's tower and creep intents for a tick to `intents`: `core_owner` defends, and
/// `core_pos` is what the focus is closest to. Without a hostile in the world nobody strikes, and
/// the towers still maintain.
pub fn defense_intents(
    world: &CombatWorld,
    core_owner: PlayerId,
    core_pos: Position,
    intents: &mut Intents,
)
    ensures
        final(intents)@ == defence(world, core_owner, core_pos, old(intents)@),
{
    let target = find_focus(world, core_owner, core_pos);
    let mut towers: Vec<StructureId> = find_own_towers(world, core_owner);
    let ghost all = towers@;
    let defender = find_wounded_defender(world, core_owner);
    let rampart = find_damaged_rampart(world, core_owner);
    if defender.is_some() || rampart.is_some() {
        if let Some(maintainer) = towers.pop() {
            if let Some(id) = defender {
                intents.set_tower(maintainer, TowerAction::Heal(id));
            } else if let Some(id) = rampart {
                intents.set_tower(maintainer, TowerAction::Repair(id));
            }
        }
    }
    let ghost maintained = intents@;
    proof {
        assert(towers@ =~= firing_towers(world, core_owner));
    }
    if let Some(t) = target {
        let mut k: usize = 0;
        proof {
            assert(intents@.towers =~= order_all(
                maintained.towers,
                towers@.take(0),
                TowerAction::Attack(t.id),
            ));
        }
        while k < towers.len()
            invariant
                k <= towers@.len(),
                intents@.creeps == maintained.creeps,
                intents@.moves == maintained.moves,
                intents@.towers == order_all(
                    maintained.towers,
                    towers@.take(k as int),
                    TowerAction::Attack(t.id),
                ),
            decreases towers@.len() - k,
        {
            let id: StructureId = towers[k];
            intents.set_tower(id, TowerAction::Attack(t.id));
            proof {
                let before = towers@.take(k as int);
                let after = towers@.take(k + 1);
                assert(after =~= before.push(id));
                assert forall|x: StructureId| #[trigger] after.contains(x) <==> before.contains(x)
                    || x == id by {
                    if before.contains(x) {
                        let j = choose|j: int| 0 <= j < before.len() && before[j] == x;
                        assert(after[j] == x);
                    }
                    if x == id {
                        assert(after[k as int] == x);
                    }
                }
                assert(intents@.towers =~= order_all(
                    maintained.towers,
                    after,
                    TowerAction::Attack(t.id),
                ));
            }
            k = k + 1;
        }
        proof {
            assert(towers@.take(towers@.len() as int) =~= towers@);
        }
        let ghost fired = intents@;
        let mut i: usize = 0;
        while i < world.creeps.len()
            invariant
                i <= world.creeps@.len(),
                intents@.towers == fired.towers,
                intents@.moves == fired.moves,
                intents@.creeps == defender_orders(
                    fired.creeps,
                    world.creeps@.take(i as int),
                    core_owner,
                    t,
                ),
            decreases world.creeps@.len() - i,
        {
            let d = world.creeps[i];
            proof {
                assert(world.creeps@.take(i + 1).drop_last() =~= world.creeps@.take(i as int));
            }
            if d.alive && d.owner == core_owner {
                let r: u32 = d.pos.get_range_to(t.pos);
                let action = if d.body.ranged_attack_power > 0 && r <= 3 {
                    Some(
                        if r == 1 {
                            CombatAction::RangedMassAttack
                        } else {
                            CombatAction::RangedAttack(t.id)
                        },
                    )
                } else if d.body.attack_power > 0 && r == 1 {
                    Some(CombatAction::Attack(t.id))
                } else {
                    None
                };
                if let Some(a) = action {
                    let mut actions: Vec<CombatAction> = Vec::new();
                    actions.push(a);
                    proof {
                        assert(actions@ =~= seq![a]);
                    }
                    intents.set(d.id, actions);
                }
            }
            i = i + 1;
        }
        proof {
            assert(world.creeps@.take(world.creeps@.len() as int) =~= world.creeps@);
        }
    }
}

/// How far each standing rampart is from `from`.
pub open spec fn rampart_ranges(structures: Seq<SimStructure>, from: Position) -> Seq<Option<u32>> {
    Seq::new(
        structures.len(),
        |i: int|
            if structures[i].alive && structures[i].kind == StructureKind::Rampart {
                Some(range(from, structures[i].pos) as u32)
            } else {
                None
            },
    )
}

/// What an attacker at `from` breaks: the nearest standing rampart, or the core once none is left.
pub open spec fn breach_target(
    structures: Seq<SimStructure>,
    from: Position,
    core_id: StructureId,
    core_pos: Position,
) -> (Position, StructureId) {
    match first_min(rampart_ranges(structures, from)) {
        Some(i) => (structures[i].pos, structures[i].id),
        None => (core_pos, core_id),
    }
}

fn find_breach_target(
    world: &CombatWorld,
    from: Position,
    core_id: StructureId,
    core_pos: Position,
) -> (target: (Position, StructureId))
    ensures
        target == breach_target(world.structures@, from, core_id, core_pos),
{
    let mut keys: Vec<Option<u32>> = Vec::new();
    let mut i: usize = 0;
    while i < world.structures.len()
        invariant
            i <= world.structures@.len(),
            keys@ =~= rampart_ranges(world.structures@, from).take(i as int),
        decreases world.structures@.len() - i,
    {
        let s = world.structures[i];
        if s.alive && s.kind == StructureKind::Rampart {
            let r: u32 = from.get_range_to(s.pos);
            keys.push(Some(r));
        } else {
            keys.push(None);
        }
        i = i + 1;
    }
    proof {
        assert(keys@ =~= rampart_ranges(world.structures@, from));
    }
    match find_first_min(&keys) {
        Some(k) => (world.structures[k].pos, world.structures[k].id),
        None => (core_pos, core_id),
    }
}

/// Whether a creep besieges and must still walk to what it breaks.
pub open spec fn must_walk(
    world: &CombatWorld,
    creep: SimCreep,
    attacker_owner: PlayerId,
    core_id: StructureId,
    core_pos: Position,
) -> bool {
    &&& creep.alive
    &&& creep.owner == attacker_owner
    &&& range(creep.pos, breach_target(world.structures@, creep.pos, core_id, core_pos).0) > 1
}

/// Whether `steps` holds, for each creep that must walk, a step that its way to the target came
/// to.
pub open spec fn steps_resolve<
    H: Fn(RoomName) -> Terrain,
    S: Fn(&CombatCostSource, &SearchRequest) -> Vec<Position>,
>(
    world: &CombatWorld,
    attacker_owner: PlayerId,
    core_id: StructureId,
    core_pos: Position,
    terrain: H,
    search: S,
    steps: Seq<Option<Direction>>,
) -> bool {
    &&& steps.len() == world.creeps@.len()
    &&& forall|i: int|
        #![trigger steps[i]]
        0 <= i < steps.len() && must_walk(
            world,
            world.creeps@[i],
            attacker_owner,
            core_id,
            core_pos,
        ) ==> resolves_to(
            world,
            world.creeps@[i].pos,
            attacker_owner,
            CombatIntent::MoveTo {
                target: breach_target(
                    world.structures@,
                    world.creeps@[i].pos,
                    core_id,
                    core_pos,
                ).0,
                range: 1,
            },
            terrain,
            search,
            steps[i],
        )
}

/// The besiegers' intents: dismantle what is in reach, walk toward what is not.
pub open spec fn besieging(
    creeps: Seq<SimCreep>,
    structures: Seq<SimStructure>,
    attacker_owner: PlayerId,
    core_id: StructureId,
    core_pos: Position,
    steps: Seq<Option<Direction>>,
) -> IntentsView
    decreases creeps.len(),
{
    if creeps.len() == 0 {
        IntentsView::empty()
    } else {
        let c = creeps.last();
        let step = steps[creeps.len() - 1];
        let target = breach_target(structures, c.pos, core_id, core_pos);
        let before = besieging(
            creeps.drop_last(),
            structures,
            attacker_owner,
            core_id,
            core_pos,
            steps,
        );
        if !c.alive || c.owner != attacker_owner {
            before
        } else if range(c.pos, target.0) <= 1 {
            IntentsView {
                creeps: before.creeps.insert(c.id, seq![CombatAction::Dismantle(target.1)]),
                ..before
            }
        } else {
            match step {
                Some(direction) => IntentsView {
                    moves: before.moves.insert(c.id, direction),
                    ..before
                },
                None => before,
            }
        }
    }
}

/// A scripted besieger: every attacker dismantles the nearest standing rampart, and the core once
/// no rampart is left; one that is not adjacent to its target walks toward it by the caller's
/// pathfinder.
pub fn dismantler_intents<
    H: Fn(RoomName) -> Terrain,
    S: Fn(&CombatCostSource, &SearchRequest) -> Vec<Position>,
>(
    world: &CombatWorld,
    attacker_owner: PlayerId,
    core_id: StructureId,
    core_pos: Position,
    terrain: &H,
    search: &S,
) -> (intents: Intents)
    requires
        forall|room: RoomName| #[trigger] call_requires(*terrain, (room,)),
        forall|source: &CombatCostSource, request: &SearchRequest| #[trigger]
            call_requires(*search, (source, request)),
    ensures
        exists|steps: Seq<Option<Direction>>|
            {
                &&& #[trigger] steps_resolve(
                    world,
                    attacker_owner,
                    core_id,
                    core_pos,
                    *terrain,
                    *search,
                    steps,
                )
                &&& intents@ == besieging(
                    world.creeps@,
                    world.structures@,
                    attacker_owner,
                    core_id,
                    core_pos,
                    steps,
                )
            },
{
    let mut intents = Intents::new();
    let ghost mut steps: Seq<Option<Direction>> = Seq::empty();
    let mut i: usize = 0;
    while i < world.creeps.len()
        invariant
            i <= world.creeps@.len(),
            steps.len() == i,
            forall|room: RoomName| #[trigger] call_requires(*terrain, (room,)),
            forall|source: &CombatCostSource, request: &SearchRequest| #[trigger]
                call_requires(*search, (source, request)),
            forall|k: int|
                #![trigger steps[k]]
                0 <= k < i && must_walk(
                    world,
                    world.creeps@[k],
                    attacker_owner,
                    core_id,
                    core_pos,
                ) ==> resolves_to(
                    world,
                    world.creeps@[k].pos,
                    attacker_owner,
                    CombatIntent::MoveTo {
                        target: breach_target(
                            world.structures@,
                            world.creeps@[k].pos,
                            core_id,
                            core_pos,
                        ).0,
                        range: 1,
                    },
                    *terrain,
                    *search,
                    steps[k],
                ),
            intents@ == besieging(
                world.creeps@.take(i as int),
                world.structures@,
                attacker_owner,
                core_id,
                core_pos,
                steps,
            ),
        decreases world.creeps@.len() - i,
    {
        let c = world.creeps[i];
        let ghost before = steps;
        let ghost mut step: Option<Direction> = None;
        if c.alive && c.owner == attacker_owner {
            let (target_pos, target_id) = find_breach_target(world, c.pos, core_id, core_pos);
            let r: u32 = c.pos.get_range_to(target_pos);
            if r <= 1 {
                let mut actions: Vec<CombatAction> = Vec::new();
                actions.push(CombatAction::Dismantle(target_id));
                proof {
                    assert(actions@ =~= seq![CombatAction::Dismantle(target_id)]);
                }
                intents.set(c.id, actions);
            } else {
                let direction = resolve_move_direction(
                    world,
                    c.pos,
                    attacker_owner,
                    &CombatIntent::MoveTo { target: target_pos, range: 1 },
                    terrain,
                    search,
                );
                proof {
                    step = direction;
                }
                if let Some(dir) = direction {
                    intents.set_move(c.id, dir);
                }
            }
        }
        proof {
            steps = before.push(step);
            let prefix = world.creeps@.take(i as int);
            assert(world.creeps@.take(i + 1).drop_last() =~= prefix);
            lemma_besieging_prefix(
                prefix,
                world.structures@,
                attacker_owner,
                core_id,
                core_pos,
                before,
                steps,
            );
        }
        i = i + 1;
    }
    proof {
        assert(world.creeps@.take(world.creeps@.len() as int) =~= world.creeps@);
        assert(steps_resolve(
            world,
            attacker_owner,
            core_id,
            core_pos,
            *terrain,
            *search,
            steps,
        ));
    }
    intents
}

proof fn lemma_besieging_prefix(
    creeps: Seq<SimCreep>,
    structures: Seq<SimStructure>,
    attacker_owner: PlayerId,
    core_id: StructureId,
    core_pos: Position,
    a: Seq<Option<Direction>>,
    b: Seq<Option<Direction>>,
)
    requires
        creeps.len() <= a.len() <= b.len(),
        forall|i: int| 0 <= i < a.len() ==> a[i] == b[i],
    ensures
        besieging(creeps, structures, attacker_owner, core_id, core_pos, a) == besieging(
            creeps,
            structures,
            attacker_owner,
            core_id,
            core_pos,
            b,
        ),
    decreases creeps.len(),
{
    if creeps.len() > 0 {
        lemma_besieging_prefix(
            creeps.drop_last(),
            structures,
            attacker_owner,
            core_id,
            core_pos,
            a,
            b,
        );
    }
}

pub open spec fn besieger(core_owner: PlayerId) -> spec_fn(SimCreep) -> Option<CreepId> {
    |creep: SimCreep|
        if creep.alive && creep.owner != core_owner {
            Some(creep.id)
        } else {
            None
        }
}

/// The living creeps that are not the defender's.
pub open spec fn besiegers(creeps: Seq<SimCreep>, core_owner: PlayerId) -> Seq<CreepId> {
    filter_map(creeps, besieger(core_owner))
}

fn count_besiegers(world: &CombatWorld, core_owner: PlayerId) -> (n: usize)
    ensures
        n == besiegers(world.creeps@, core_owner).len(),
{
    let ghost keep = besieger(core_owner);
    let mut n: usize = 0;
    let mut i: usize = 0;
    while i < world.creeps.len()
        invariant
            n <= i <= world.creeps@.len(),
            keep == besieger(core_owner),
            n == filter_map(world.creeps@.take(i as int), keep).len(),
        decreases world.creeps@.len() - i,
    {
        let c = world.creeps[i];
        proof {
            lemma_filter_map_take(world.creeps@, keep, i as int);
        }
        if c.alive && c.owner != core_owner {
            n = n + 1;
        }
        i = i + 1;
    }
    proof {
        assert(world.creeps@.take(world.creeps@.len() as int) =~= world.creeps@);
    }
    n
}

/// The hits of the first structure of that id.
pub open spec fn structure_hits(structures: Seq<SimStructure>, id: StructureId) -> Option<u32>
    decreases structures.len(),
{
    if structures.len() == 0 {
        None
    } else if structures[0].id == id {
        Some(structures[0].hits)
    } else {
        structure_hits(structures.skip(1), id)
    }
}

/// The hits of the first tower of that id.
pub open spec fn tower_hits(towers: Seq<SimTower>, id: StructureId) -> Option<u32>
    decreases towers.len(),
{
    if towers.len() == 0 {
        None
    } else if towers[0].id == id {
        Some(towers[0].hits)
    } else {
        tower_hits(towers.skip(1), id)
    }
}

/// The core's hits, looked up among the structures, then among the towers; 0 once it is gone.
pub open spec fn core_hits(world: &CombatWorld, core_id: StructureId) -> u32 {
    match structure_hits(world.structures@, core_id) {
        Some(hits) => hits,
        None => match tower_hits(world.towers@, core_id) {
            Some(hits) => hits,
            None => 0,
        },
    }
}

fn find_core_hits(world: &CombatWorld, core_id: StructureId) -> (hits: u32)
    ensures
        hits == core_hits(world, core_id),
{
    let mut i: usize = 0;
    proof {
        assert(world.structures@.skip(0) =~= world.structures@);
        assert(world.towers@.skip(0) =~= world.towers@);
    }
    while i < world.structures.len()
        invariant
            i <= world.structures@.len(),
            structure_hits(world.structures@, core_id) == structure_hits(
                world.structures@.skip(i as int),
                core_id,
            ),
        decreases world.structures@.len() - i,
    {
        if world.structures[i].id == core_id {
            return world.structures[i].hits;
        }
        proof {
            assert(world.structures@.skip(i as int).skip(1) =~= world.structures@.skip(i + 1));
        }
        i = i + 1;
    }
    let mut k: usize = 0;
    while k < world.towers.len()
        invariant
            k <= world.towers@.len(),
            structure_hits(world.structures@, core_id) is None,
            tower_hits(world.towers@, core_id) == tower_hits(
                world.towers@.skip(k as int),
                core_id,
            ),
        decreases world.towers@.len() - k,
    {
        if world.towers[k].id == core_id {
            return world.towers[k].hits;
        }
        proof {
            assert(world.towers@.skip(k as int).skip(1) =~= world.towers@.skip(k + 1));
        }
        k = k + 1;
    }
    0
}

/// How a siege stands after `ticks`: breached, wiped, held at the last tick, or still on.
pub open spec fn verdict(
    world: &CombatWorld,
    core_owner: PlayerId,
    core_id: StructureId,
    ticks: u32,
    max_ticks: u32,
) -> Option<SiegeOutcome> {
    let hits = core_hits(world, core_id);
    let alive = besiegers(world.creeps@, core_owner).len() as usize;
    if hits == 0 {
        Some(
            SiegeOutcome {
                result: SiegeResult::CoreBreached,
                ticks,
                core_hits: 0,
                attackers_alive: alive,
            },
        )
    } else if alive == 0 {
        Some(
            SiegeOutcome {
                result: SiegeResult::AttackersWiped,
                ticks,
                core_hits: hits,
                attackers_alive: 0,
            },
        )
    } else if ticks >= max_ticks {
        Some(
            SiegeOutcome {
                result: SiegeResult::Held,
                ticks,
                core_hits: hits,
                attackers_alive: alive,
            },
        )
    } else {
        None
    }
}

/// Judge a siege after `ticks`; `None` while it is still on.
pub fn siege_verdict(
    world: &CombatWorld,
    core_owner: PlayerId,
    core_id: StructureId,
    ticks: u32,
    max_ticks: u32,
) -> (outcome: Option<SiegeOutcome>)
    ensures
        outcome == verdict(world, core_owner, core_id, ticks, max_ticks),
{
    let hits: u32 = find_core_hits(world, core_id);
    let alive: usize = count_besiegers(world, core_owner);
    if hits == 0 {
        return Some(
            SiegeOutcome {
                result: SiegeResult::CoreBreached,
                ticks,
                core_hits: 0,
                attackers_alive: alive,
            },
        );
    }
    if alive == 0 {
        return Some(
            SiegeOutcome {
                result: SiegeResult::AttackersWiped,
                ticks,
                core_hits: hits,
                attackers_alive: 0,
            },
        );
    }
    if ticks >= max_ticks {
        return Some(
            SiegeOutcome {
                result: SiegeResult::Held,
                ticks,
                core_hits: hits,
                attackers_alive: alive,
            },
        );
    }
    None
}

/// Whether `after` is what a tick makes of `before`, each a world with what the two sides keep: the
/// attacker's intents, with the defence added, resolved.
pub open spec fn siege_tick<
    W,
    A: Fn(&CombatWorld, &W) -> (Intents, W),
    E: Fn(&CombatWorld, &Intents, &W) -> (CombatWorld, W),
>(
    before: (CombatWorld, W),
    after: (CombatWorld, W),
    core_owner: PlayerId,
    core_pos: Position,
    attacker: A,
    resolve: E,
) -> bool {
    exists|ordered: (Intents, W), intents: Intents|
        {
            &&& #[trigger] call_ensures(attacker, (&before.0, &before.1), ordered)
            &&& intents@ == defence(&before.0, core_owner, core_pos, ordered.0@)
            &&& #[trigger] call_ensures(resolve, (&before.0, &intents, &ordered.1), after)
        }
}

/// Whether `course` is a siege's course, tick by tick, each world but the last still undecided.
pub open spec fn siege_course<
    W,
    A: Fn(&CombatWorld, &W) -> (Intents, W),
    E: Fn(&CombatWorld, &Intents, &W) -> (CombatWorld, W),
>(
    course: Seq<(CombatWorld, W)>,
    core_owner: PlayerId,
    core_id: StructureId,
    core_pos: Position,
    attacker: A,
    resolve: E,
    max_ticks: u32,
) -> bool {
    &&& 0 < course.len() <= max_ticks + 1
    &&& forall|i: int|
        #![trigger course[i]]
        0 <= i < course.len() - 1 ==> {
            &&& verdict(&course[i].0, core_owner, core_id, i as u32, max_ticks) is None
            &&& siege_tick(course[i], course[i + 1], core_owner, core_pos, attacker, resolve)
        }
}

/// Whether a siege that took this course ends with `outcome`.
pub open spec fn ends_with<W>(
    course: Seq<(CombatWorld, W)>,
    core_owner: PlayerId,
    core_id: StructureId,
    max_ticks: u32,
    outcome: SiegeOutcome,
) -> bool {
    &&& outcome.ticks == course.len() - 1
    &&& verdict(&course.last().0, core_owner, core_id, outcome.ticks, max_ticks) == Some(outcome)
}

/// Run a siege: each tick the attacker gives its intents, the defence adds its own, and the engine
/// resolves them. It ends when the core falls, when no attacker lives, or after `max_ticks`.
///
/// `kept` is whatever the attacker and the engine keep between ticks; each of their calls is given
/// it and gives it back.
pub fn run_siege<
    W,
    A: Fn(&CombatWorld, &W) -> (Intents, W),
    E: Fn(&CombatWorld, &Intents, &W) -> (CombatWorld, W),
>(
    world: CombatWorld,
    core_owner: PlayerId,
    core_id: StructureId,
    core_pos: Position,
    kept: &mut W,
    attacker: &A,
    resolve: &E,
    max_ticks: u32,
) -> (outcome: SiegeOutcome)
    requires
        forall|w: &CombatWorld, k: &W| #[trigger] call_requires(*attacker, (w, k)),
        forall|w: &CombatWorld, intents: &Intents, k: &W| #[trigger]
            call_requires(*resolve, (w, intents, k)),
    ensures
        exists|course: Seq<(CombatWorld, W)>|
            {
                &&& #[trigger] siege_course(
                    course,
                    core_owner,
                    core_id,
                    core_pos,
                    *attacker,
                    *resolve,
                    max_ticks,
                )
                &&& course[0] == (world, *old(kept))
                &&& course.last().1 == *final(kept)
                &&& ends_with(course, core_owner, core_id, max_ticks, outcome)
            },
        outcome.ticks <= max_ticks,
{
    let ghost mut course: Seq<(CombatWorld, W)> = seq![(world, *kept)];
    let mut current = world;
    let mut ticks: u32 = 0;
    loop
        invariant
            ticks <= max_ticks,
            course.len() == ticks + 1,
            course.last() == (current, *kept),
            course[0] == (world, *old(kept)),
            siege_course(
                course,
                core_owner,
                core_id,
                core_pos,
                *attacker,
                *resolve,
                max_ticks,
            ),
            forall|w: &CombatWorld, k: &W| #[trigger] call_requires(*attacker, (w, k)),
            forall|w: &CombatWorld, intents: &Intents, k: &W| #[trigger]
                call_requires(*resolve, (w, intents, k)),
        decreases max_ticks - ticks,
    {
        if let Some(outcome) = siege_verdict(&current, core_owner, core_id, ticks, max_ticks) {
            assert(ends_with(course, core_owner, core_id, max_ticks, outcome));
            return outcome;
        }
        let ghost before = (current, *kept);
        let ordered = attacker(&current, kept);
        let ghost answered = ordered;
        let (mut intents, planned) = ordered;
        defense_intents(&current, core_owner, core_pos, &mut intents);
        let resolved = resolve(&current, &intents, &planned);
        proof {
            let prefix = course;
            assert(call_ensures(*attacker, (&before.0, &before.1), answered));
            assert(call_ensures(*resolve, (&before.0, &intents, &answered.1), resolved));
            assert(siege_tick(before, resolved, core_owner, core_pos, *attacker, *resolve));
            course = prefix.push(resolved);
            assert forall|i: int| #![trigger course[i]] 0 <= i < course.len() - 1 implies {
                &&& verdict(&course[i].0, core_owner, core_id, i as u32, max_ticks) is None
                &&& siege_tick(
                    course[i],
                    course[i + 1],
                    core_owner,
                    core_pos,
                    *attacker,
                    *resolve,
                )
            } by {
                if i < prefix.len() - 1 {
                    assert(prefix[i] == course[i]);
                    assert(prefix[i + 1] == course[i + 1]);
                }
            }
        }
        let (next, carried) = resolved;
        current = next;
        *kept = carried;
        ticks = ticks + 1;
    }
}

/// The focus is a living hostile, none is closer to the core, and there is one exactly where a
/// hostile lives.
pub proof fn law_focus_is_the_closest_hostile(
    creeps: Seq<SimCreep>,
    core_owner: PlayerId,
    core_pos: Position,
)
    ensures
        focus(creeps, core_owner, core_pos) is Some <==> exists|i: int|
            0 <= i < creeps.len() && (#[trigger] creeps[i]).alive && creeps[i].owner != core_owner,
        focus(creeps, core_owner, core_pos) matches Some(target) ==> {
            &&& creeps.contains(target)
            &&& target.alive
            &&& target.owner != core_owner
            &&& forall|j: int|
                0 <= j < creeps.len() && (#[trigger] creeps[j]).alive && creeps[j].owner
                    != core_owner ==> range(core_pos, target.pos) <= range(core_pos, creeps[j].pos)
        },
{
    let keys = hostile_ranges(creeps, core_owner, core_pos);
    lemma_first_min_exists(keys);
    assert forall|i: int|
        0 <= i < creeps.len() && (#[trigger] creeps[i]).alive && creeps[i].owner
            != core_owner implies first_min(keys) is Some by {
        assert(keys[i] is Some);
    }
    if first_min(keys) is Some {
        let i = first_min(keys)->0;
        assert(keys[i] is Some);
        assert(creeps[i].alive && creeps[i].owner != core_owner);
        assert forall|j: int|
            0 <= j < creeps.len() && (#[trigger] creeps[j]).alive && creeps[j].owner
                != core_owner implies range(core_pos, creeps[i].pos) <= range(
            core_pos,
            creeps[j].pos,
        ) by {
            assert(keys[j] is Some);
            lemma_range_fits(core_pos, creeps[i].pos);
            lemma_range_fits(core_pos, creeps[j].pos);
        }
    }
}

proof fn lemma_range_fits(a: Position, b: Position)
    ensures
        0 <= range(a, b) <= u32::MAX,
{
}

/// While a defender is wounded no tower repairs; a rampart is repaired only where every living
/// defender is whole.
pub proof fn law_heal_comes_before_repair(world: &CombatWorld, core_owner: PlayerId)
    ensures
        maintenance(world, core_owner) matches Some((_, action)) ==> match action {
            TowerAction::Heal(id) => wounded_defender(world.creeps@, core_owner) == Some(id),
            TowerAction::Repair(_) => forall|i: int|
                {
                    &&& 0 <= i < world.creeps@.len()
                    &&& (#[trigger] world.creeps@[i]).alive
                    &&& world.creeps@[i].owner == core_owner
                } ==> world.creeps@[i].body.hits >= world.creeps@[i].body.hits_max,
            TowerAction::Attack(_) => false,
        },
{
    let keys = defender_wounds(world.creeps@, core_owner);
    lemma_first_min_exists(keys);
    assert forall|i: int|
        {
            &&& 0 <= i < world.creeps@.len()
            &&& (#[trigger] world.creeps@[i]).alive
            &&& world.creeps@[i].owner == core_owner
            &&& world.creeps@[i].body.hits < world.creeps@[i].body.hits_max
        } implies wounded_defender(world.creeps@, core_owner) is Some by {
        assert(keys[i] is Some);
    }
}

/// Without a living hostile no creep strikes, and at most the one tower kept for maintenance gets
/// an order.
pub proof fn law_no_hostile_no_strike(
    world: &CombatWorld,
    core_owner: PlayerId,
    core_pos: Position,
    before: IntentsView,
)
    requires
        forall|i: int|
            0 <= i < world.creeps@.len() && (#[trigger] world.creeps@[i]).alive
                ==> world.creeps@[i].owner == core_owner,
    ensures
        defence(world, core_owner, core_pos, before) == (IntentsView {
            towers: match maintenance(world, core_owner) {
                Some((tower, action)) => before.towers.insert(tower, action),
                None => before.towers,
            },
            ..before
        }),
{
    law_focus_is_the_closest_hostile(world.creeps@, core_owner, core_pos);
}

/// Where the defender's towers have ids of their own and a hostile lives, one tower mends while
/// there is something to mend, and each of the others fires at the focus.
pub proof fn law_one_tower_mends_and_the_rest_fire(
    world: &CombatWorld,
    core_owner: PlayerId,
    core_pos: Position,
    before: IntentsView,
)
    requires
        own_towers(world.towers@, core_owner).no_duplicates(),
        focus(world.creeps@, core_owner, core_pos) is Some,
    ensures
        ({
            let after = defence(world, core_owner, core_pos, before).towers;
            let towers = own_towers(world.towers@, core_owner);
            let target = focus(world.creeps@, core_owner, core_pos)->0;
            &&& forall|i: int|
                0 <= i < towers.len() ==> after.dom().contains(#[trigger] towers[i])
            &&& mending(world, core_owner) matches Some(action) ==> forall|i: int|
                0 <= i < towers.len() ==> after[#[trigger] towers[i]] == (if i == towers.len() - 1 {
                    action
                } else {
                    TowerAction::Attack(target.id)
                })
            &&& mending(world, core_owner) is None ==> forall|i: int|
                0 <= i < towers.len() ==> after[#[trigger] towers[i]] == TowerAction::Attack(
                    target.id,
                )
        }),
{
    let towers = own_towers(world.towers@, core_owner);
    let firing = firing_towers(world, core_owner);
    assert forall|i: int| 0 <= i < towers.len() implies (firing.contains(#[trigger] towers[i])
        <==> i < firing.len()) by {
        if i < firing.len() {
            assert(firing[i] == towers[i]);
        } else if firing.contains(towers[i]) {
            let j = choose|j: int| 0 <= j < firing.len() && firing[j] == towers[i];
            assert(towers[j] == towers[i]);
        }
    }
}

/// The defence moves nobody, and orders no creep that is not a living one of its own: what the
/// attacker ordered stands.
pub proof fn law_defence_leaves_the_attackers_alone(
    world: &CombatWorld,
    core_owner: PlayerId,
    core_pos: Position,
    before: IntentsView,
    id: CreepId,
)
    requires
        forall|i: int|
            0 <= i < world.creeps@.len() && (#[trigger] world.creeps@[i]).alive
                && world.creeps@[i].owner == core_owner ==> world.creeps@[i].id != id,
    ensures
        defence(world, core_owner, core_pos, before).moves == before.moves,
        defence(world, core_owner, core_pos, before).creeps.dom().contains(id)
            == before.creeps.dom().contains(id),
        defence(world, core_owner, core_pos, before).creeps[id] == before.creeps[id],
{
    if let Some(target) = focus(world.creeps@, core_owner, core_pos) {
        lemma_orders_spare(before.creeps, world.creeps@, core_owner, target, id);
    }
}

proof fn lemma_orders_spare(
    orders: Map<CreepId, Seq<CombatAction>>,
    creeps: Seq<SimCreep>,
    core_owner: PlayerId,
    target: SimCreep,
    id: CreepId,
)
    requires
        forall|i: int|
            0 <= i < creeps.len() && (#[trigger] creeps[i]).alive && creeps[i].owner == core_owner
                ==> creeps[i].id != id,
    ensures
        defender_orders(orders, creeps, core_owner, target).dom().contains(id)
            == orders.dom().contains(id),
        defender_orders(orders, creeps, core_owner, target)[id] == orders[id],
    decreases creeps.len(),
{
    if creeps.len() > 0 {
        let init = creeps.drop_last();
        assert forall|i: int|
            0 <= i < init.len() && (#[trigger] init[i]).alive && init[i].owner
                == core_owner implies init[i].id != id by {
            assert(creeps[i] == init[i]);
        }
        lemma_orders_spare(orders, init, core_owner, target, id);
        assert(creeps[creeps.len() - 1] == creeps.last());
    }
}

/// A besieger breaks a standing rampart while there is one, and none is nearer to it; the core only
/// once no rampart stands.
pub proof fn law_ramparts_fall_before_the_core(
    structures: Seq<SimStructure>,
    from: Position,
    core_id: StructureId,
    core_pos: Position,
)
    ensures
        ({
            let (pos, id) = breach_target(structures, from, core_id, core_pos);
            ||| {
                &&& forall|j: int|
                    0 <= j < structures.len() ==> !((#[trigger] structures[j]).alive
                        && structures[j].kind == StructureKind::Rampart)
                &&& (pos, id) == (core_pos, core_id)
            }
            ||| exists|i: int|
                {
                    &&& 0 <= i < structures.len()
                    &&& (#[trigger] structures[i]).alive
                    &&& structures[i].kind == StructureKind::Rampart
                    &&& (pos, id) == (structures[i].pos, structures[i].id)
                    &&& forall|j: int|
                        0 <= j < structures.len() && (#[trigger] structures[j]).alive
                            && structures[j].kind == StructureKind::Rampart ==> range(from, pos)
                            <= range(from, structures[j].pos)
                }
        }),
{
    let keys = rampart_ranges(structures, from);
    lemma_first_min_exists(keys);
    match first_min(keys) {
        Some(i) => {
            assert(keys[i] is Some);
            assert(structures[i].alive);
            assert forall|j: int|
                0 <= j < structures.len() && (#[trigger] structures[j]).alive && structures[j].kind
                    == StructureKind::Rampart implies range(from, structures[i].pos) <= range(
                from,
                structures[j].pos,
            ) by {
                assert(keys[j] is Some);
                lemma_range_fits(from, structures[i].pos);
                lemma_range_fits(from, structures[j].pos);
            }
        },
        None => {
            assert forall|j: int| 0 <= j < structures.len() implies !((#[trigger] structures[j]).alive
                && structures[j].kind == StructureKind::Rampart) by {
                assert(keys[j] is None);
            }
        },
    }
}

/// A siege ends breached exactly where the core has no hits left, wiped only with the core standing
/// and no attacker alive, and held only with both left when the ticks ran out.
pub proof fn law_outcome_tells_who_won(
    world: &CombatWorld,
    core_owner: PlayerId,
    core_id: StructureId,
    ticks: u32,
    max_ticks: u32,
)
    ensures
        verdict(world, core_owner, core_id, ticks, max_ticks) matches Some(outcome) ==> {
            &&& outcome.core_hits == core_hits(world, core_id)
            &&& outcome.ticks == ticks
            &&& outcome.result == SiegeResult::CoreBreached <==> outcome.core_hits == 0
            &&& outcome.result == SiegeResult::AttackersWiped <==> outcome.core_hits > 0
                && outcome.attackers_alive == 0
            &&& outcome.result == SiegeResult::Held ==> outcome.attackers_alive > 0 && ticks
                >= max_ticks
        },
        verdict(world, core_owner, core_id, ticks, max_ticks) is None ==> ticks < max_ticks,
{
}

/// Whether two worlds hold the same.
pub open spec fn same_world(a: CombatWorld, b: CombatWorld) -> bool {
    &&& a.creeps@ == b.creeps@
    &&& a.structures@ == b.structures@
    &&& a.towers@ == b.towers@
    &&& a.safe_mode_owner == b.safe_mode_owner
}

/// Whether an attacker depends on nothing but what it is given.
pub open spec fn attacks_by_arguments<W, A: Fn(&CombatWorld, &W) -> (Intents, W)>(
    attacker: A,
) -> bool {
    forall|a: CombatWorld, b: CombatWorld, k: W, p: (Intents, W), q: (Intents, W)|
        same_world(a, b) && #[trigger] call_ensures(attacker, (&a, &k), p)
            && #[trigger] call_ensures(attacker, (&b, &k), q) ==> p.0@ == q.0@ && p.1 == q.1
}

/// Whether an engine depends on nothing but what it is given.
pub open spec fn resolves_by_arguments<
    W,
    E: Fn(&CombatWorld, &Intents, &W) -> (CombatWorld, W),
>(resolve: E) -> bool {
    forall|
        a: CombatWorld,
        b: CombatWorld,
        i: Intents,
        j: Intents,
        k: W,
        p: (CombatWorld, W),
        q: (CombatWorld, W),
    |
        same_world(a, b) && i@ == j@ && #[trigger] call_ensures(resolve, (&a, &i, &k), p)
            && #[trigger] call_ensures(resolve, (&b, &j, &k), q) ==> same_world(p.0, q.0) && p.1
            == q.1
}

proof fn lemma_courses_agree<
    W,
    A: Fn(&CombatWorld, &W) -> (Intents, W),
    E: Fn(&CombatWorld, &Intents, &W) -> (CombatWorld, W),
>(
    a: Seq<(CombatWorld, W)>,
    b: Seq<(CombatWorld, W)>,
    core_owner: PlayerId,
    core_id: StructureId,
    core_pos: Position,
    attacker: A,
    resolve: E,
    a_ticks: u32,
    b_ticks: u32,
    i: int,
)
    requires
        siege_course(a, core_owner, core_id, core_pos, attacker, resolve, a_ticks),
        siege_course(b, core_owner, core_id, core_pos, attacker, resolve, b_ticks),
        attacks_by_arguments(attacker),
        resolves_by_arguments(resolve),
        same_world(a[0].0, b[0].0),
        a[0].1 == b[0].1,
        0 <= i < a.len(),
        i < b.len(),
    ensures
        same_world(a[i].0, b[i].0),
        a[i].1 == b[i].1,
    decreases i,
{
    if i > 0 {
        lemma_courses_agree(
            a,
            b,
            core_owner,
            core_id,
            core_pos,
            attacker,
            resolve,
            a_ticks,
            b_ticks,
            i - 1,
        );
        let before_a = a[i - 1];
        let before_b = b[i - 1];
        assert(siege_tick(before_a, a[i], core_owner, core_pos, attacker, resolve)) by {
            assert(a[i - 1 + 1] == a[i]);
        }
        assert(siege_tick(before_b, b[i], core_owner, core_pos, attacker, resolve)) by {
            assert(b[i - 1 + 1] == b[i]);
        }
        let (x, p) = choose|x: (Intents, W), p: Intents|
            {
                &&& #[trigger] call_ensures(attacker, (&before_a.0, &before_a.1), x)
                &&& p@ == defence(&before_a.0, core_owner, core_pos, x.0@)
                &&& #[trigger] call_ensures(resolve, (&before_a.0, &p, &x.1), a[i])
            };
        let (y, q) = choose|y: (Intents, W), q: Intents|
            {
                &&& #[trigger] call_ensures(attacker, (&before_b.0, &before_b.1), y)
                &&& q@ == defence(&before_b.0, core_owner, core_pos, y.0@)
                &&& #[trigger] call_ensures(resolve, (&before_b.0, &q, &y.1), b[i])
            };
        assert(x.0@ == y.0@ && x.1 == y.1);
        assert(p@ == q@);
    }
}

/// A larger limit never changes a siege that is already decided: with an attacker and an engine
/// that go by what they are given, the shorter of two sieges from the same start lasts as long as
/// the longer one or until its own limit, and where it was decided both ended alike.
pub proof fn law_larger_limit_keeps_a_decided_siege<
    W,
    A: Fn(&CombatWorld, &W) -> (Intents, W),
    E: Fn(&CombatWorld, &Intents, &W) -> (CombatWorld, W),
>(
    short: Seq<(CombatWorld, W)>,
    long: Seq<(CombatWorld, W)>,
    core_owner: PlayerId,
    core_id: StructureId,
    core_pos: Position,
    attacker: A,
    resolve: E,
    short_limit: u32,
    long_limit: u32,
    short_outcome: SiegeOutcome,
    long_outcome: SiegeOutcome,
)
    requires
        attacks_by_arguments(attacker),
        resolves_by_arguments(resolve),
        siege_course(short, core_owner, core_id, core_pos, attacker, resolve, short_limit),
        ends_with(short, core_owner, core_id, short_limit, short_outcome),
        siege_course(long, core_owner, core_id, core_pos, attacker, resolve, long_limit),
        ends_with(long, core_owner, core_id, long_limit, long_outcome),
        same_world(short[0].0, long[0].0),
        short[0].1 == long[0].1,
        short_limit <= long_limit,
    ensures
        short_outcome.ticks == (if long_outcome.ticks < short_limit {
            long_outcome.ticks
        } else {
            short_limit
        }),
        short_outcome.result != SiegeResult::Held ==> long_outcome == short_outcome,
{
    let s = short.len() - 1;
    let l = long.len() - 1;
    let last = if s < l {
        s
    } else {
        l
    };
    lemma_courses_agree(
        short,
        long,
        core_owner,
        core_id,
        core_pos,
        attacker,
        resolve,
        short_limit,
        long_limit,
        last,
    );
    assert(core_hits(&short[last].0, core_id) == core_hits(&long[last].0, core_id));
    if s < l {
        assert(verdict(&long[s].0, core_owner, core_id, s as u32, long_limit) is None);
    } else if l < s {
        assert(verdict(&short[l].0, core_owner, core_id, l as u32, short_limit) is None);
    }
}

/// Whether creep `h` is a living hostile, no hostile is closer to the core, and none before it as
/// close.
pub open spec fn closest_hostile(
    creeps: Seq<SimCreep>,
    core_owner: PlayerId,
    core_pos: Position,
    h: int,
) -> bool {
    &&& 0 <= h < creeps.len()
    &&& creeps[h].alive
    &&& creeps[h].owner != core_owner
    &&& forall|j: int|
        0 <= j < creeps.len() && (#[trigger] creeps[j]).alive && creeps[j].owner != core_owner ==> {
            &&& range(core_pos, creeps[h].pos) <= range(core_pos, creeps[j].pos)
            &&& j < h ==> range(core_pos, creeps[h].pos) < range(core_pos, creeps[j].pos)
        }
}

/// Whether creep `d` is a living defender that has lost hits.
pub open spec fn is_wounded(creeps: Seq<SimCreep>, core_owner: PlayerId, d: int) -> bool {
    &&& 0 <= d < creeps.len()
    &&& creeps[d].alive
    &&& creeps[d].owner == core_owner
    &&& creeps[d].body.hits < creeps[d].body.hits_max
}

/// Whether creep `d` is a wounded defender, none has fewer hits, and none before it as few.
pub open spec fn worst_wounded(creeps: Seq<SimCreep>, core_owner: PlayerId, d: int) -> bool {
    &&& is_wounded(creeps, core_owner, d)
    &&& forall|j: int| #[trigger]
        is_wounded(creeps, core_owner, j) ==> {
            &&& creeps[d].body.hits <= creeps[j].body.hits
            &&& j < d ==> creeps[d].body.hits < creeps[j].body.hits
        }
}

/// Whether structure `r` is a standing rampart of the defender that has lost hits.
pub open spec fn is_damaged(structures: Seq<SimStructure>, core_owner: PlayerId, r: int) -> bool {
    &&& 0 <= r < structures.len()
    &&& structures[r].alive
    &&& structures[r].kind == StructureKind::Rampart
    &&& structures[r].owner == Some(core_owner)
    &&& structures[r].hits < structures[r].hits_max
}

/// Whether structure `r` is a damaged rampart, none has fewer hits, and none before it as few.
pub open spec fn worst_damaged(
    structures: Seq<SimStructure>,
    core_owner: PlayerId,
    r: int,
) -> bool {
    &&& is_damaged(structures, core_owner, r)
    &&& forall|j: int| #[trigger]
        is_damaged(structures, core_owner, j) ==> {
            &&& structures[r].hits <= structures[j].hits
            &&& j < r ==> structures[r].hits < structures[j].hits
        }
}

/// Whether tower `t` is a standing one of the defender.
pub open spec fn stands(towers: Seq<SimTower>, core_owner: PlayerId, t: int) -> bool {
    &&& 0 <= t < towers.len()
    &&& towers[t].alive
    &&& towers[t].owner == core_owner
}

/// Whether tower `t` is the last standing one of the defender.
pub open spec fn stands_last(towers: Seq<SimTower>, core_owner: PlayerId, t: int) -> bool {
    &&& stands(towers, core_owner, t)
    &&& forall|j: int| #[trigger] stands(towers, core_owner, j) ==> j <= t
}

/// Whether no other standing tower of the defender has the id of tower `t`.
pub open spec fn tower_id_is_its_own(towers: Seq<SimTower>, core_owner: PlayerId, t: int) -> bool {
    forall|j: int| #[trigger]
        stands(towers, core_owner, j) && j != t ==> towers[j].id != towers[t].id
}

proof fn lemma_focus_is(creeps: Seq<SimCreep>, core_owner: PlayerId, core_pos: Position, h: int)
    requires
        closest_hostile(creeps, core_owner, core_pos, h),
    ensures
        focus(creeps, core_owner, core_pos) == Some(creeps[h]),
{
    let keys = hostile_ranges(creeps, core_owner, core_pos);
    assert forall|j: int| 0 <= j < keys.len() && #[trigger] keys[j] is Some implies {
        &&& keys[h]->0 <= keys[j]->0
        &&& j < h ==> keys[h]->0 < keys[j]->0
    } by {
        assert(creeps[j].alive && creeps[j].owner != core_owner);
        lemma_range_fits(core_pos, creeps[h].pos);
        lemma_range_fits(core_pos, creeps[j].pos);
    }
    assert(is_first_min(keys, h));
    lemma_first_min(keys, h);
}

proof fn lemma_wounded_is(creeps: Seq<SimCreep>, core_owner: PlayerId, d: int)
    requires
        worst_wounded(creeps, core_owner, d),
    ensures
        wounded_defender(creeps, core_owner) == Some(creeps[d].id),
{
    let keys = defender_wounds(creeps, core_owner);
    assert forall|j: int| 0 <= j < keys.len() && #[trigger] keys[j] is Some implies {
        &&& keys[d]->0 <= keys[j]->0
        &&& j < d ==> keys[d]->0 < keys[j]->0
    } by {
        assert(is_wounded(creeps, core_owner, j));
    }
    assert(is_first_min(keys, d));
    lemma_first_min(keys, d);
}

proof fn lemma_nobody_wounded(creeps: Seq<SimCreep>, core_owner: PlayerId)
    requires
        forall|j: int| !(#[trigger] is_wounded(creeps, core_owner, j)),
    ensures
        wounded_defender(creeps, core_owner) is None,
{
    let keys = defender_wounds(creeps, core_owner);
    lemma_first_min_exists(keys);
    if first_min(keys) is Some {
        let j = first_min(keys)->0;
        assert(is_wounded(creeps, core_owner, j));
    }
}

proof fn lemma_damaged_is(structures: Seq<SimStructure>, core_owner: PlayerId, r: int)
    requires
        worst_damaged(structures, core_owner, r),
    ensures
        damaged_rampart(structures, core_owner) == Some(structures[r].id),
{
    let keys = rampart_wounds(structures, core_owner);
    assert forall|j: int| 0 <= j < keys.len() && #[trigger] keys[j] is Some implies {
        &&& keys[r]->0 <= keys[j]->0
        &&& j < r ==> keys[r]->0 < keys[j]->0
    } by {
        assert(is_damaged(structures, core_owner, j));
    }
    assert(is_first_min(keys, r));
    lemma_first_min(keys, r);
}

proof fn lemma_nothing_damaged(structures: Seq<SimStructure>, core_owner: PlayerId)
    requires
        forall|j: int| !(#[trigger] is_damaged(structures, core_owner, j)),
    ensures
        damaged_rampart(structures, core_owner) is None,
{
    let keys = rampart_wounds(structures, core_owner);
    lemma_first_min_exists(keys);
    if first_min(keys) is Some {
        let j = first_min(keys)->0;
        assert(is_damaged(structures, core_owner, j));
    }
}

/// The defender's towers up to the last standing one, with that one at the end.
proof fn lemma_last_tower(towers: Seq<SimTower>, core_owner: PlayerId, t: int)
    requires
        stands_last(towers, core_owner, t),
    ensures
        own_towers(towers, core_owner) == own_towers(towers.take(t), core_owner).push(towers[t].id),
{
    let keep = standing_tower(core_owner);
    assert forall|j: int| t + 1 <= j < towers.len() implies #[trigger] keep(
        towers[j],
    ) is None by {
        if keep(towers[j]) is Some {
            assert(stands(towers, core_owner, j));
        }
    }
    lemma_filter_map_rest(towers, keep, t + 1);
    lemma_filter_map_take(towers, keep, t);
}

proof fn lemma_tower_is_own(towers: Seq<SimTower>, core_owner: PlayerId, upto: int, t: int)
    requires
        0 <= t < upto <= towers.len(),
        stands(towers, core_owner, t),
    ensures
        own_towers(towers.take(upto), core_owner).contains(towers[t].id),
{
    let keep = standing_tower(core_owner);
    lemma_filter_map_contains(towers.take(upto), keep, towers[t].id);
    assert(keep(towers.take(upto)[t]) == Some(towers[t].id));
}

proof fn lemma_own_tower_stands(
    towers: Seq<SimTower>,
    core_owner: PlayerId,
    upto: int,
    id: StructureId,
) -> (t: int)
    requires
        0 <= upto <= towers.len(),
        own_towers(towers.take(upto), core_owner).contains(id),
    ensures
        t < upto,
        stands(towers, core_owner, t),
        towers[t].id == id,
{
    let keep = standing_tower(core_owner);
    let prefix = towers.take(upto);
    lemma_filter_map_contains(prefix, keep, id);
    let t = choose|t: int| 0 <= t < prefix.len() && #[trigger] keep(prefix[t]) == Some(id);
    t
}

/// The last standing tower heals the living defender with the fewest hits among the wounded, the
/// first of them on a tie.
pub proof fn law_last_tower_heals_the_worst_wounded(
    world: &CombatWorld,
    core_owner: PlayerId,
    core_pos: Position,
    before: IntentsView,
    t: int,
    d: int,
)
    requires
        stands_last(world.towers@, core_owner, t),
        tower_id_is_its_own(world.towers@, core_owner, t),
        worst_wounded(world.creeps@, core_owner, d),
    ensures
        ({
            let after = defence(world, core_owner, core_pos, before).towers;
            let id = world.towers@[t].id;
            after.dom().contains(id) && after[id] == TowerAction::Heal(world.creeps@[d].id)
        }),
{
    lemma_wounded_is(world.creeps@, core_owner, d);
    lemma_last_tower(world.towers@, core_owner, t);
    lemma_maintainer_spared(world, core_owner, t);
}

/// Where every living defender is whole, the last standing tower repairs the standing rampart of
/// the defender with the fewest hits among the damaged, the first of them on a tie.
pub proof fn law_last_tower_repairs_the_worst_damaged(
    world: &CombatWorld,
    core_owner: PlayerId,
    core_pos: Position,
    before: IntentsView,
    t: int,
    r: int,
)
    requires
        stands_last(world.towers@, core_owner, t),
        tower_id_is_its_own(world.towers@, core_owner, t),
        forall|j: int| !(#[trigger] is_wounded(world.creeps@, core_owner, j)),
        worst_damaged(world.structures@, core_owner, r),
    ensures
        ({
            let after = defence(world, core_owner, core_pos, before).towers;
            let id = world.towers@[t].id;
            after.dom().contains(id) && after[id] == TowerAction::Repair(world.structures@[r].id)
        }),
{
    lemma_nobody_wounded(world.creeps@, core_owner);
    lemma_damaged_is(world.structures@, core_owner, r);
    lemma_last_tower(world.towers@, core_owner, t);
    lemma_maintainer_spared(world, core_owner, t);
}

proof fn lemma_maintainer_spared(world: &CombatWorld, core_owner: PlayerId, t: int)
    requires
        stands_last(world.towers@, core_owner, t),
        tower_id_is_its_own(world.towers@, core_owner, t),
    ensures
        maintenance(world, core_owner) is Some ==> !firing_towers(world, core_owner).contains(
            world.towers@[t].id,
        ),
{
    let towers = world.towers@;
    lemma_last_tower(towers, core_owner, t);
    let early = own_towers(towers.take(t), core_owner);
    assert(early.push(towers[t].id).drop_last() =~= early);
    if early.contains(towers[t].id) {
        let j = lemma_own_tower_stands(towers, core_owner, t, towers[t].id);
        assert(stands(towers, core_owner, j));
    }
}

/// Every standing tower but the last, and the last one too where nothing is wounded or damaged,
/// fires at the living hostile closest to the core, the first of them on a tie.
pub proof fn law_towers_fire_at_the_closest_hostile(
    world: &CombatWorld,
    core_owner: PlayerId,
    core_pos: Position,
    before: IntentsView,
    t: int,
    h: int,
)
    requires
        stands(world.towers@, core_owner, t),
        tower_id_is_its_own(world.towers@, core_owner, t),
        closest_hostile(world.creeps@, core_owner, core_pos, h),
        !stands_last(world.towers@, core_owner, t) || {
            &&& forall|j: int| !(#[trigger] is_wounded(world.creeps@, core_owner, j))
            &&& forall|j: int| !(#[trigger] is_damaged(world.structures@, core_owner, j))
        },
    ensures
        ({
            let after = defence(world, core_owner, core_pos, before).towers;
            let id = world.towers@[t].id;
            after.dom().contains(id) && after[id] == TowerAction::Attack(world.creeps@[h].id)
        }),
{
    let towers = world.towers@;
    lemma_focus_is(world.creeps@, core_owner, core_pos, h);
    assert(towers.take(towers.len() as int) =~= towers);
    lemma_tower_is_own(towers, core_owner, towers.len() as int, t);
    if stands_last(towers, core_owner, t) {
        lemma_nobody_wounded(world.creeps@, core_owner);
        lemma_nothing_damaged(world.structures@, core_owner);
    } else {
        let l = lemma_some_tower_last(towers, core_owner, t, t);
        lemma_last_tower(towers, core_owner, l);
        let early = own_towers(towers.take(l), core_owner);
        assert(early.push(towers[l].id).drop_last() =~= early);
        lemma_tower_is_own(towers, core_owner, l, t);
    }
}

proof fn lemma_some_tower_last(
    towers: Seq<SimTower>,
    core_owner: PlayerId,
    t: int,
    from: int,
) -> (l: int)
    requires
        stands(towers, core_owner, t),
        t <= from < towers.len(),
        forall|j: int| t < j <= from ==> !(#[trigger] stands(towers, core_owner, j)),
    ensures
        stands_last(towers, core_owner, l),
        t <= l,
    decreases towers.len() - from,
{
    if from + 1 == towers.len() {
        t
    } else if stands(towers, core_owner, from + 1) {
        lemma_some_tower_last(towers, core_owner, from + 1, from + 1)
    } else {
        lemma_some_tower_last(towers, core_owner, t, from + 1)
    }
}

/// A tower that is no standing one of the defender keeps what it was told; and with no hostile
/// alive so does every tower but the last standing one.
pub proof fn law_other_towers_keep_their_orders(
    world: &CombatWorld,
    core_owner: PlayerId,
    core_pos: Position,
    before: IntentsView,
    id: StructureId,
)
    requires
        forall|j: int| #[trigger]
            stands(world.towers@, core_owner, j) && world.towers@[j].id == id ==> {
                &&& !stands_last(world.towers@, core_owner, j)
                &&& forall|h: int|
                    0 <= h < world.creeps@.len() && (#[trigger] world.creeps@[h]).alive
                        ==> world.creeps@[h].owner == core_owner
            },
    ensures
        ({
            let after = defence(world, core_owner, core_pos, before).towers;
            &&& after.dom().contains(id) == before.towers.dom().contains(id)
            &&& after.dom().contains(id) ==> after[id] == before.towers[id]
        }),
{
    let towers = world.towers@;
    let own = own_towers(towers, core_owner);
    assert(towers.take(towers.len() as int) =~= towers);
    law_focus_is_the_closest_hostile(world.creeps@, core_owner, core_pos);
    if own.contains(id) {
        let j = lemma_own_tower_stands(towers, core_owner, towers.len() as int, id);
        assert(stands(towers, core_owner, j) && towers[j].id == id);
    }
    if own.len() > 0 {
        assert(own.contains(own.last()));
        let j = lemma_own_tower_stands(towers, core_owner, towers.len() as int, own.last());
        let l = lemma_some_tower_last(towers, core_owner, j, j);
        lemma_last_tower(towers, core_owner, l);
        assert(stands(towers, core_owner, l));
        assert(own.last() != id);
        let firing = firing_towers(world, core_owner);
        if firing.contains(id) {
            let k = choose|k: int| 0 <= k < firing.len() && firing[k] == id;
            assert(own[k] == id);
        }
    }
}

/// A living defender with an id of its own strikes the hostile closest to the core: ranged within
/// three tiles, as a mass attack next to it, or else in melee next to it; out of reach of both it
/// keeps what it was told.
pub proof fn law_defenders_strike_the_closest_hostile(
    world: &CombatWorld,
    core_owner: PlayerId,
    core_pos: Position,
    before: IntentsView,
    d: int,
    h: int,
)
    requires
        0 <= d < world.creeps@.len(),
        world.creeps@[d].alive,
        world.creeps@[d].owner == core_owner,
        forall|j: int|
            0 <= j < world.creeps@.len() && j != d && (#[trigger] world.creeps@[j]).alive
                && world.creeps@[j].owner == core_owner ==> world.creeps@[j].id
                != world.creeps@[d].id,
        closest_hostile(world.creeps@, core_owner, core_pos, h),
    ensures
        ({
            let after = defence(world, core_owner, core_pos, before).creeps;
            let c = world.creeps@[d];
            let target = world.creeps@[h];
            let r = range(c.pos, target.pos);
            let ranged = c.body.ranged_attack_power > 0 && r <= 3;
            let melee = c.body.attack_power > 0 && r == 1;
            &&& ranged || melee ==> after.dom().contains(c.id) && after[c.id].len() == 1
            &&& ranged && r == 1 ==> after[c.id][0] == CombatAction::RangedMassAttack
            &&& ranged && r != 1 ==> after[c.id][0] == CombatAction::RangedAttack(target.id)
            &&& !ranged && melee ==> after[c.id][0] == CombatAction::Attack(target.id)
            &&& !ranged && !melee ==> {
                &&& after.dom().contains(c.id) == before.creeps.dom().contains(c.id)
                &&& after[c.id] == before.creeps[c.id]
            }
        }),
{
    lemma_focus_is(world.creeps@, core_owner, core_pos, h);
    lemma_strike_at(before.creeps, world.creeps@, core_owner, world.creeps@[h], d);
}

proof fn lemma_strike_at(
    orders: Map<CreepId, Seq<CombatAction>>,
    creeps: Seq<SimCreep>,
    core_owner: PlayerId,
    target: SimCreep,
    d: int,
)
    requires
        0 <= d < creeps.len(),
        creeps[d].alive,
        creeps[d].owner == core_owner,
        forall|j: int|
            0 <= j < creeps.len() && j != d && (#[trigger] creeps[j]).alive && creeps[j].owner
                == core_owner ==> creeps[j].id != creeps[d].id,
    ensures
        ({
            let after = defender_orders(orders, creeps, core_owner, target);
            let id = creeps[d].id;
            match defender_action(creeps[d], target) {
                Some(action) => after.dom().contains(id) && after[id] == seq![action],
                None => after.dom().contains(id) == orders.dom().contains(id) && after[id]
                    == orders[id],
            }
        }),
    decreases creeps.len(),
{
    let init = creeps.drop_last();
    assert(forall|j: int| 0 <= j < init.len() ==> #[trigger] init[j] == creeps[j]);
    if d == creeps.len() - 1 {
        lemma_orders_spare(orders, init, core_owner, target, creeps[d].id);
    } else {
        lemma_strike_at(orders, init, core_owner, target, d);
        assert(creeps[creeps.len() - 1] == creeps.last());
    }
}

/// Whether structure `r` is a standing rampart, none is nearer to `from`, and none before it as
/// near.
pub open spec fn nearest_rampart(structures: Seq<SimStructure>, from: Position, r: int) -> bool {
    &&& 0 <= r < structures.len()
    &&& structures[r].alive
    &&& structures[r].kind == StructureKind::Rampart
    &&& forall|j: int|
        0 <= j < structures.len() && (#[trigger] structures[j]).alive && structures[j].kind
            == StructureKind::Rampart ==> {
            &&& range(from, structures[r].pos) <= range(from, structures[j].pos)
            &&& j < r ==> range(from, structures[r].pos) < range(from, structures[j].pos)
        }
}

/// Whether what an attacker at `from` is to break is at `pos` under `id`: the rampart nearest to
/// the attacker itself, or the core where no rampart stands.
pub open spec fn to_be_broken(
    structures: Seq<SimStructure>,
    from: Position,
    core_id: StructureId,
    core_pos: Position,
    pos: Position,
    id: StructureId,
) -> bool {
    ||| exists|r: int|
        {
            &&& #[trigger] nearest_rampart(structures, from, r)
            &&& structures[r].pos == pos
            &&& structures[r].id == id
        }
    ||| {
        &&& forall|j: int|
            0 <= j < structures.len() && (#[trigger] structures[j]).alive ==> structures[j].kind
                != StructureKind::Rampart
        &&& (pos, id) == (core_pos, core_id)
    }
}

proof fn lemma_breach_target_is(
    structures: Seq<SimStructure>,
    from: Position,
    core_id: StructureId,
    core_pos: Position,
    pos: Position,
    id: StructureId,
)
    requires
        to_be_broken(structures, from, core_id, core_pos, pos, id),
    ensures
        breach_target(structures, from, core_id, core_pos) == (pos, id),
{
    let keys = rampart_ranges(structures, from);
    if exists|r: int|
        {
            &&& #[trigger] nearest_rampart(structures, from, r)
            &&& structures[r].pos == pos
            &&& structures[r].id == id
        } {
        let r = choose|r: int|
            {
                &&& #[trigger] nearest_rampart(structures, from, r)
                &&& structures[r].pos == pos
                &&& structures[r].id == id
            };
        assert forall|j: int| 0 <= j < keys.len() && #[trigger] keys[j] is Some implies {
            &&& keys[r]->0 <= keys[j]->0
            &&& j < r ==> keys[r]->0 < keys[j]->0
        } by {
            assert(structures[j].alive && structures[j].kind == StructureKind::Rampart);
            lemma_range_fits(from, structures[r].pos);
            lemma_range_fits(from, structures[j].pos);
        }
        assert(is_first_min(keys, r));
        lemma_first_min(keys, r);
    } else {
        lemma_first_min_exists(keys);
        if first_min(keys) is Some {
            let j = first_min(keys)->0;
            assert(keys[j] is Some);
            assert(structures[j].alive && structures[j].kind == StructureKind::Rampart);
        }
    }
}

/// A living attacker with an id of its own breaks the standing rampart nearest to itself, or the
/// core where no rampart stands: within one tile of it, it dismantles it and stays; farther off it
/// has no action and takes the step, if any, of its way to within one tile of it.
pub proof fn law_besiegers_break_what_is_nearest_to_them<
    H: Fn(RoomName) -> Terrain,
    S: Fn(&CombatCostSource, &SearchRequest) -> Vec<Position>,
>(
    world: &CombatWorld,
    attacker_owner: PlayerId,
    core_id: StructureId,
    core_pos: Position,
    terrain: H,
    search: S,
    steps: Seq<Option<Direction>>,
    i: int,
    pos: Position,
    id: StructureId,
)
    requires
        steps_resolve(world, attacker_owner, core_id, core_pos, terrain, search, steps),
        0 <= i < world.creeps@.len(),
        world.creeps@[i].alive,
        world.creeps@[i].owner == attacker_owner,
        forall|j: int|
            0 <= j < world.creeps@.len() && j != i && (#[trigger] world.creeps@[j]).alive
                && world.creeps@[j].owner == attacker_owner ==> world.creeps@[j].id
                != world.creeps@[i].id,
        to_be_broken(world.structures@, world.creeps@[i].pos, core_id, core_pos, pos, id),
    ensures
        ({
            let c = world.creeps@[i];
            let intents = besieging(
                world.creeps@,
                world.structures@,
                attacker_owner,
                core_id,
                core_pos,
                steps,
            );
            if range(c.pos, pos) <= 1 {
                &&& intents.creeps.dom().contains(c.id)
                &&& intents.creeps[c.id] == seq![CombatAction::Dismantle(id)]
                &&& !intents.moves.dom().contains(c.id)
            } else {
                &&& !intents.creeps.dom().contains(c.id)
                &&& resolves_to(
                    world,
                    c.pos,
                    attacker_owner,
                    CombatIntent::MoveTo { target: pos, range: 1 },
                    terrain,
                    search,
                    steps[i],
                )
                &&& intents.moves.dom().contains(c.id) == (steps[i] is Some)
                &&& steps[i] matches Some(direction) ==> intents.moves[c.id] == direction
            }
        }),
{
    let c = world.creeps@[i];
    lemma_breach_target_is(world.structures@, c.pos, core_id, core_pos, pos, id);
    if range(c.pos, pos) > 1 {
        assert(must_walk(world, c, attacker_owner, core_id, core_pos));
        assert(steps[i] == steps[i]);
    }
    lemma_besieging_at(
        world.creeps@,
        world.structures@,
        attacker_owner,
        core_id,
        core_pos,
        steps,
        i,
    );
}

/// Nobody but a living attacker is told anything, and no tower.
pub proof fn law_besiegers_order_only_themselves(
    creeps: Seq<SimCreep>,
    structures: Seq<SimStructure>,
    attacker_owner: PlayerId,
    core_id: StructureId,
    core_pos: Position,
    steps: Seq<Option<Direction>>,
    id: CreepId,
)
    requires
        forall|j: int|
            0 <= j < creeps.len() && (#[trigger] creeps[j]).alive && creeps[j].owner
                == attacker_owner ==> creeps[j].id != id,
    ensures
        ({
            let intents = besieging(creeps, structures, attacker_owner, core_id, core_pos, steps);
            &&& !intents.creeps.dom().contains(id)
            &&& !intents.moves.dom().contains(id)
            &&& intents.towers == Map::<StructureId, TowerAction>::empty()
        }),
    decreases creeps.len(),
{
    if creeps.len() > 0 {
        let init = creeps.drop_last();
        assert(forall|j: int| 0 <= j < init.len() ==> #[trigger] init[j] == creeps[j]);
        law_besiegers_order_only_themselves(
            init,
            structures,
            attacker_owner,
            core_id,
            core_pos,
            steps,
            id,
        );
        assert(creeps[creeps.len() - 1] == creeps.last());
    }
}

proof fn lemma_besieging_at(
    creeps: Seq<SimCreep>,
    structures: Seq<SimStructure>,
    attacker_owner: PlayerId,
    core_id: StructureId,
    core_pos: Position,
    steps: Seq<Option<Direction>>,
    i: int,
)
    requires
        0 <= i < creeps.len(),
        creeps[i].alive,
        creeps[i].owner == attacker_owner,
        forall|j: int|
            0 <= j < creeps.len() && j != i && (#[trigger] creeps[j]).alive && creeps[j].owner
                == attacker_owner ==> creeps[j].id != creeps[i].id,
    ensures
        ({
            let c = creeps[i];
            let (pos, id) = breach_target(structures, c.pos, core_id, core_pos);
            let intents = besieging(creeps, structures, attacker_owner, core_id, core_pos, steps);
            if range(c.pos, pos) <= 1 {
                &&& intents.creeps.dom().contains(c.id)
                &&& intents.creeps[c.id] == seq![CombatAction::Dismantle(id)]
                &&& !intents.moves.dom().contains(c.id)
            } else {
                &&& !intents.creeps.dom().contains(c.id)
                &&& intents.moves.dom().contains(c.id) == (steps[i] is Some)
                &&& steps[i] matches Some(direction) ==> intents.moves[c.id] == direction
            }
        }),
    decreases creeps.len(),
{
    let init = creeps.drop_last();
    assert(forall|j: int| 0 <= j < init.len() ==> #[trigger] init[j] == creeps[j]);
    if i == creeps.len() - 1 {
        law_besiegers_order_only_themselves(
            init,
            structures,
            attacker_owner,
            core_id,
            core_pos,
            steps,
            creeps[i].id,
        );
    } else {
        lemma_besieging_at(init, structures, attacker_owner, core_id, core_pos, steps, i);
        assert(creeps[creeps.len() - 1] == creeps.last());
    }
}

/// Whether a creep is a living one that is not the defender's.
pub open spec fn attacks(core_owner: PlayerId) -> spec_fn(SimCreep) -> bool {
    |c: SimCreep| c.alive && c.owner != core_owner
}

/// Whether the core has `hits` left: those of the first structure of its id, else of the first
/// tower of it, else none.
pub open spec fn core_has(world: &CombatWorld, core_id: StructureId, hits: u32) -> bool {
    ||| exists|k: int|
        {
            &&& 0 <= k < world.structures@.len()
            &&& (#[trigger] world.structures@[k]).id == core_id
            &&& world.structures@[k].hits == hits
            &&& forall|j: int| 0 <= j < k ==> (#[trigger] world.structures@[j]).id != core_id
        }
    ||| {
        &&& forall|j: int|
            0 <= j < world.structures@.len() ==> (#[trigger] world.structures@[j]).id != core_id
        &&& exists|k: int|
            {
                &&& 0 <= k < world.towers@.len()
                &&& (#[trigger] world.towers@[k]).id == core_id
                &&& world.towers@[k].hits == hits
                &&& forall|j: int| 0 <= j < k ==> (#[trigger] world.towers@[j]).id != core_id
            }
    }
    ||| {
        &&& forall|j: int|
            0 <= j < world.structures@.len() ==> (#[trigger] world.structures@[j]).id != core_id
        &&& forall|j: int|
            0 <= j < world.towers@.len() ==> (#[trigger] world.towers@[j]).id != core_id
        &&& hits == 0
    }
}

proof fn lemma_structure_hits_first(structures: Seq<SimStructure>, id: StructureId, k: int)
    requires
        0 <= k <= structures.len(),
        forall|j: int| 0 <= j < k ==> (#[trigger] structures[j]).id != id,
        k < structures.len() ==> structures[k].id == id,
    ensures
        structure_hits(structures, id) == (if k < structures.len() {
            Some(structures[k].hits)
        } else {
            None
        }),
    decreases k,
{
    if k > 0 {
        let rest = structures.skip(1);
        assert(forall|j: int| 0 <= j < rest.len() ==> #[trigger] rest[j] == structures[j + 1]);
        assert(structures[0].id != id);
        lemma_structure_hits_first(rest, id, k - 1);
    }
}

proof fn lemma_tower_hits_first(towers: Seq<SimTower>, id: StructureId, k: int)
    requires
        0 <= k <= towers.len(),
        forall|j: int| 0 <= j < k ==> (#[trigger] towers[j]).id != id,
        k < towers.len() ==> towers[k].id == id,
    ensures
        tower_hits(towers, id) == (if k < towers.len() {
            Some(towers[k].hits)
        } else {
            None
        }),
    decreases k,
{
    if k > 0 {
        let rest = towers.skip(1);
        assert(forall|j: int| 0 <= j < rest.len() ==> #[trigger] rest[j] == towers[j + 1]);
        assert(towers[0].id != id);
        lemma_tower_hits_first(rest, id, k - 1);
    }
}

proof fn lemma_core_hits_are(world: &CombatWorld, core_id: StructureId, hits: u32)
    requires
        core_has(world, core_id, hits),
    ensures
        core_hits(world, core_id) == hits,
{
    let structures = world.structures@;
    let towers = world.towers@;
    if exists|k: int| 0 <= k < structures.len() && (#[trigger] structures[k]).id == core_id {
        let k = choose|k: int|
            {
                &&& 0 <= k < world.structures@.len()
                &&& (#[trigger] world.structures@[k]).id == core_id
                &&& world.structures@[k].hits == hits
                &&& forall|j: int| 0 <= j < k ==> (#[trigger] world.structures@[j]).id != core_id
            };
        lemma_structure_hits_first(structures, core_id, k);
    } else {
        lemma_structure_hits_first(structures, core_id, structures.len() as int);
        if exists|k: int| 0 <= k < towers.len() && (#[trigger] towers[k]).id == core_id {
            let k = choose|k: int|
                {
                    &&& 0 <= k < world.towers@.len()
                    &&& (#[trigger] world.towers@[k]).id == core_id
                    &&& world.towers@[k].hits == hits
                    &&& forall|j: int| 0 <= j < k ==> (#[trigger] world.towers@[j]).id != core_id
                };
            lemma_tower_hits_first(towers, core_id, k);
        } else {
            lemma_tower_hits_first(towers, core_id, towers.len() as int);
        }
    }
}

/// A siege is breached exactly where the core has no hits left, else wiped exactly where no creep
/// lives but the defender's own, else held exactly where its ticks are up; its outcome counts the
/// living creeps that are not the defender's.
pub proof fn law_siege_is_judged_by_core_and_attackers(
    world: &CombatWorld,
    core_owner: PlayerId,
    core_id: StructureId,
    ticks: u32,
    max_ticks: u32,
    hits: u32,
)
    requires
        core_has(world, core_id, hits),
    ensures
        ({
            let judged = verdict(world, core_owner, core_id, ticks, max_ticks);
            let attackers = count_where(world.creeps@, attacks(core_owner));
            let wiped = forall|i: int|
                0 <= i < world.creeps@.len() && (#[trigger] world.creeps@[i]).alive
                    ==> world.creeps@[i].owner == core_owner;
            &&& judged is None <==> hits > 0 && !wiped && ticks < max_ticks
            &&& judged matches Some(outcome) ==> {
                &&& outcome.ticks == ticks
                &&& outcome.core_hits == hits
                &&& outcome.attackers_alive == attackers
                &&& outcome.result == SiegeResult::CoreBreached <==> hits == 0
                &&& outcome.result == SiegeResult::AttackersWiped <==> hits > 0 && wiped
                &&& outcome.result == SiegeResult::Held <==> hits > 0 && !wiped && ticks
                    >= max_ticks
            }
        }),
{
    let creeps = world.creeps@;
    lemma_core_hits_are(world, core_id, hits);
    lemma_filter_map_count(creeps, besieger(core_owner), attacks(core_owner));
    let all = besiegers(creeps, core_owner);
    lemma_besiegers_fit(creeps, core_owner);
    assert(world.creeps.len() == creeps.len());
    if all.len() > 0 {
        assert(all.contains(all[0]));
        lemma_filter_map_contains(creeps, besieger(core_owner), all[0]);
        let i = choose|i: int|
            0 <= i < creeps.len() && #[trigger] besieger(core_owner)(creeps[i]) == Some(all[0]);
        assert(creeps[i].alive && creeps[i].owner != core_owner);
    }
    assert forall|i: int|
        0 <= i < creeps.len() && (#[trigger] creeps[i]).alive && creeps[i].owner
            != core_owner implies all.len() > 0 by {
        lemma_filter_map_contains(creeps, besieger(core_owner), creeps[i].id);
        assert(besieger(core_owner)(creeps[i]) == Some(creeps[i].id));
    }
}

proof fn lemma_besiegers_fit(creeps: Seq<SimCreep>, core_owner: PlayerId)
    ensures
        besiegers(creeps, core_owner).len() <= creeps.len(),
    decreases creeps.len(),
{
    if creeps.len() > 0 {
        lemma_besiegers_fit(creeps.drop_last(), core_owner);
    }
}

/// Whether some living defender has that id.
pub open spec fn defends(creeps: Seq<SimCreep>, core_owner: PlayerId, id: CreepId) -> bool {
    exists|j: int|
        {
            &&& 0 <= j < creeps.len()
            &&& (#[trigger] creeps[j]).alive
            &&& creeps[j].owner == core_owner
            &&& creeps[j].id == id
        }
}

/// Whether `intents` are `ordered` with the defence of `world` laid over them: no move and no order
/// of a creep that is not a living defender changes, and each standing tower with an id of its own
/// but the last fires at the hostile closest to the core.
pub open spec fn lays_over(
    world: &CombatWorld,
    core_owner: PlayerId,
    core_pos: Position,
    ordered: IntentsView,
    intents: IntentsView,
) -> bool {
    &&& intents.moves == ordered.moves
    &&& forall|id: CreepId|
        !(#[trigger] defends(world.creeps@, core_owner, id)) ==> {
            &&& intents.creeps.dom().contains(id) == ordered.creeps.dom().contains(id)
            &&& intents.creeps[id] == ordered.creeps[id]
        }
    &&& forall|t: int, h: int|
        {
            &&& #[trigger] stands(world.towers@, core_owner, t)
            &&& !stands_last(world.towers@, core_owner, t)
            &&& tower_id_is_its_own(world.towers@, core_owner, t)
            &&& #[trigger] closest_hostile(world.creeps@, core_owner, core_pos, h)
        } ==> {
            &&& intents.towers.dom().contains(world.towers@[t].id)
            &&& intents.towers[world.towers@[t].id] == TowerAction::Attack(world.creeps@[h].id)
        }
}

proof fn lemma_lays_over(
    world: &CombatWorld,
    core_owner: PlayerId,
    core_pos: Position,
    ordered: IntentsView,
)
    ensures
        lays_over(
            world,
            core_owner,
            core_pos,
            ordered,
            defence(world, core_owner, core_pos, ordered),
        ),
{
    let laid = defence(world, core_owner, core_pos, ordered);
    assert forall|id: CreepId| !(#[trigger] defends(world.creeps@, core_owner, id)) implies {
        &&& laid.creeps.dom().contains(id) == ordered.creeps.dom().contains(id)
        &&& laid.creeps[id] == ordered.creeps[id]
    } by {
        law_defence_leaves_the_attackers_alone(world, core_owner, core_pos, ordered, id);
    }
    assert forall|t: int, h: int|
        {
            &&& #[trigger] stands(world.towers@, core_owner, t)
            &&& !stands_last(world.towers@, core_owner, t)
            &&& tower_id_is_its_own(world.towers@, core_owner, t)
            &&& #[trigger] closest_hostile(world.creeps@, core_owner, core_pos, h)
        } implies {
        &&& laid.towers.dom().contains(world.towers@[t].id)
        &&& laid.towers[world.towers@[t].id] == TowerAction::Attack(world.creeps@[h].id)
    } by {
        law_towers_fire_at_the_closest_hostile(world, core_owner, core_pos, ordered, t, h);
    }
}

/// In each tick of a siege the attacker is asked with the world as it stands, and the engine
/// resolves what it ordered with the defence laid over it.
pub proof fn law_each_tick_lays_the_defence_over_the_attack<
    W,
    A: Fn(&CombatWorld, &W) -> (Intents, W),
    E: Fn(&CombatWorld, &Intents, &W) -> (CombatWorld, W),
>(
    course: Seq<(CombatWorld, W)>,
    core_owner: PlayerId,
    core_id: StructureId,
    core_pos: Position,
    attacker: A,
    resolve: E,
    max_ticks: u32,
    i: int,
)
    requires
        siege_course(course, core_owner, core_id, core_pos, attacker, resolve, max_ticks),
        0 <= i < course.len() - 1,
    ensures
        exists|ordered: (Intents, W), intents: Intents|
            {
                &&& #[trigger] call_ensures(attacker, (&course[i].0, &course[i].1), ordered)
                &&& #[trigger] call_ensures(
                    resolve,
                    (&course[i].0, &intents, &ordered.1),
                    course[i + 1],
                )
                &&& intents@ == defence(&course[i].0, core_owner, core_pos, ordered.0@)
                &&& lays_over(&course[i].0, core_owner, core_pos, ordered.0@, intents@)
            },
{
    let before = course[i];
    let after = course[i + 1];
    assert(siege_tick(before, after, core_owner, core_pos, attacker, resolve));
    let (ordered, intents) = choose|ordered: (Intents, W), intents: Intents|
        {
            &&& #[trigger] call_ensures(attacker, (&before.0, &before.1), ordered)
            &&& intents@ == defence(&before.0, core_owner, core_pos, ordered.0@)
            &&& #[trigger] call_ensures(resolve, (&before.0, &intents, &ordered.1), after)
        };
    lemma_lays_over(&before.0, core_owner, core_pos, ordered.0@);
    assert(call_ensures(attacker, (&course[i].0, &course[i].1), ordered));
    assert(call_ensures(resolve, (&course[i].0, &intents, &ordered.1), course[i + 1]));
}

/// A siege's outcome is that of the world in which it ended: its ticks are the number of worlds
/// that came before that, never more than the limit; and in none of those was it decided, for each
/// had a core with hits left, an attacker alive and ticks to go.
pub proof fn law_siege_ends_with_the_first_decided_world<
    W,
    A: Fn(&CombatWorld, &W) -> (Intents, W),
    E: Fn(&CombatWorld, &Intents, &W) -> (CombatWorld, W),
>(
    course: Seq<(CombatWorld, W)>,
    core_owner: PlayerId,
    core_id: StructureId,
    core_pos: Position,
    attacker: A,
    resolve: E,
    max_ticks: u32,
    outcome: SiegeOutcome,
)
    requires
        siege_course(course, core_owner, core_id, core_pos, attacker, resolve, max_ticks),
        ends_with(course, core_owner, core_id, max_ticks, outcome),
    ensures
        outcome.ticks + 1 == course.len(),
        outcome.ticks <= max_ticks,
        core_has(&course.last().0, core_id, outcome.core_hits),
        outcome.attackers_alive == count_where(course.last().0.creeps@, attacks(core_owner)),
        outcome.result == SiegeResult::CoreBreached <==> outcome.core_hits == 0,
        outcome.result == SiegeResult::AttackersWiped <==> outcome.core_hits > 0
            && outcome.attackers_alive == 0,
        outcome.result == SiegeResult::Held ==> outcome.ticks == max_ticks,
        forall|i: int|
            0 <= i < course.len() - 1 ==> {
                &&& i < max_ticks
                &&& !core_has(&(#[trigger] course[i]).0, core_id, 0)
                &&& exists|j: int|
                    {
                        &&& 0 <= j < course[i].0.creeps@.len()
                        &&& (#[trigger] course[i].0.creeps@[j]).alive
                        &&& course[i].0.creeps@[j].owner != core_owner
                    }
            },
{
    let last = course.last().0;
    let hits = core_hits(&last, core_id);
    lemma_core_has_hits(&last, core_id);
    law_siege_is_judged_by_core_and_attackers(
        &last,
        core_owner,
        core_id,
        outcome.ticks,
        max_ticks,
        hits,
    );
    assert forall|i: int| 0 <= i < course.len() - 1 implies {
        &&& i < max_ticks
        &&& !core_has(&(#[trigger] course[i]).0, core_id, 0)
        &&& exists|j: int|
            {
                &&& 0 <= j < course[i].0.creeps@.len()
                &&& (#[trigger] course[i].0.creeps@[j]).alive
                &&& course[i].0.creeps@[j].owner != core_owner
            }
    } by {
        let world = course[i].0;
        lemma_core_has_hits(&world, core_id);
        law_siege_is_judged_by_core_and_attackers(
            &world,
            core_owner,
            core_id,
            i as u32,
            max_ticks,
            core_hits(&world, core_id),
        );
        if core_has(&world, core_id, 0) {
            lemma_core_hits_are(&world, core_id, 0);
        }
    }
}

proof fn lemma_core_has_hits(world: &CombatWorld, core_id: StructureId)
    ensures
        core_has(world, core_id, core_hits(world, core_id)),
{
    let structures = world.structures@;
    let towers = world.towers@;
    let k = lemma_first_structure(structures, core_id);
    lemma_structure_hits_first(structures, core_id, k);
    if k < structures.len() {
        assert(structures[k].id == core_id);
    } else {
        let t = lemma_first_tower(towers, core_id);
        lemma_tower_hits_first(towers, core_id, t);
        if t < towers.len() {
            assert(towers[t].id == core_id);
        }
    }
}

proof fn lemma_first_structure(structures: Seq<SimStructure>, id: StructureId) -> (k: int)
    ensures
        0 <= k <= structures.len(),
        forall|j: int| 0 <= j < k ==> (#[trigger] structures[j]).id != id,
        k < structures.len() ==> structures[k].id == id,
    decreases structures.len(),
{
    if structures.len() == 0 {
        0
    } else {
        let init = structures.drop_last();
        assert(forall|j: int| 0 <= j < init.len() ==> #[trigger] init[j] == structures[j]);
        let k = lemma_first_structure(init, id);
        assert forall|j: int| 0 <= j < k implies (#[trigger] structures[j]).id != id by {
            assert(init[j] == structures[j]);
        }
        if k < init.len() || structures.last().id == id {
            k
        } else {
            k + 1
        }
    }
}

proof fn lemma_first_tower(towers: Seq<SimTower>, id: StructureId) -> (k: int)
    ensures
        0 <= k <= towers.len(),
        forall|j: int| 0 <= j < k ==> (#[trigger] towers[j]).id != id,
        k < towers.len() ==> towers[k].id == id,
    decreases towers.len(),
{
    if towers.len() == 0 {
        0
    } else {
        let init = towers.drop_last();
        assert(forall|j: int| 0 <= j < init.len() ==> #[trigger] init[j] == towers[j]);
        let k = lemma_first_tower(init, id);
        assert forall|j: int| 0 <= j < k implies (#[trigger] towers[j]).id != id by {
            assert(init[j] == towers[j]);
        }
        if k < init.len() || towers.last().id == id {
            k
        } else {
            k + 1
        }
    }
}

} // verus!
