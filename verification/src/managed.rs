//! A squad without an anchor, driven by the decision kernel: one shared decision a tick, and each
//! member's own fight and move under it.
//!
//! Members in the objective's room fight. Members still outside it travel there on their own, or,
//! while the squad retreats, get away from what is near them.
use crate::geometry::{Direction, Position, RoomName};
use crate::movement::{convert_persistent_doomed_goals, damp, streak_view, streaks_fit};
use crate::movement::{hold_of, move_request_from_intent, push_hold_requests, request_of};
use crate::movement::{law_damper_only_holds_doomed_goals, law_holds_only_claim_own_tiles};
use crate::movement::{law_no_living_member_without_request, law_requested_members_need_no_hold};
use crate::movement::{claims, requested};
use crate::movement::{request_views, with_holds, MoveGoal, MoveGoalView, MoveRequest};
use crate::movement::{MoveRequestView, MovementPriority};
use crate::pathing::{carried_action, engine_actions, CombatIntent};
use crate::select::{count_where, filter_map, lemma_filter_map_contains, lemma_filter_map_count};
use crate::select::{lemma_filter_map_index, lemma_filter_map_split, lemma_filter_map_take};
use crate::view::{friend_of, law_first_friend_is_found, shown_first, FriendView, HostileView};
use crate::view::{Ownership, SimView, StructureView};
use crate::world::{first_living, law_first_living_creep_is_found, law_last_step_counts};
use crate::world::{lives_first, steps_last, with_steps, CombatAction, CombatWorld};
use crate::world::{CreepId, Intents, IntentsView, PlayerId, SimCreep};
use std::collections::HashMap;
use vstd::prelude::*;

verus! {

broadcast use vstd::std_specs::hash::group_hash_axioms;

/// How far a member outside the objective's room gets away from hostiles in a retreat.
pub const FLEE_RANGE: u32 = 8;

/// The share of hits below which a squad retreats unless it is told another: three tenths, as the
/// bits of a single-precision number.
pub const RETREAT_THRESHOLD_BITS: u32 = 0x3e99_999a;

/// What the kernel has the squad do. `S` is what the kernel tells its further states apart by.
#[derive(Clone, Copy, Debug, PartialEq, Eq)]
pub enum SquadOrderState<S> {
    Forming,
    Engaged,
    Retreating,
    /// A further state of the kernel, which the squad keeps without reading it.
    Other(S),
}

/// What the squad intends toward the enemy.
#[derive(Clone, Copy, Debug, PartialEq, Eq, Structural)]
pub enum EngageObjective {
    /// Close in and finish.
    Destroy,
    /// Pin at a distance.
    Hold,
}

/// A creep or structure to aim at, under the kernel's id.
#[derive(Clone, Copy, Debug, PartialEq, Eq, Structural)]
pub struct FocusTarget {
    pub pos: Position,
    pub id: u128,
}

/// Numbers that the kernel and the engine fix.
#[derive(Clone, Copy, Debug, PartialEq, Eq, Structural)]
pub struct CombatConstants {
    /// Ticks without headway after which a fight counts as stalled.
    pub stall_limit: u32,
    /// Melee damage of one part.
    pub attack_power: u32,
    /// Ranged damage of one part.
    pub ranged_attack_power: u32,
    /// Structure damage of one work part.
    pub dismantle_power: u32,
    /// Controller damage of one claim part.
    pub claim_power: u32,
}

/// Counts the ticks in a row over which a total has not gone down.
#[derive(Clone, Copy, Debug, PartialEq, Eq, Structural)]
pub struct StallTracker {
    /// The total of the tick before.
    pub prev: Option<u32>,
    pub ticks: u32,
}

impl StallTracker {
    /// The tracker before any tick.
    pub open spec fn fresh() -> StallTracker {
        StallTracker { prev: None, ticks: 0 }
    }

    /// The tracker once it has seen a total.
    pub open spec fn seeing(self, total: u32) -> StallTracker {
        StallTracker {
            prev: Some(total),
            ticks: match self.prev {
                Some(prev) if total >= prev => if self.ticks < u32::MAX {
                    (self.ticks + 1) as u32
                } else {
                    u32::MAX
                },
                _ => 0,
            },
        }
    }

    /// Take in this tick's total.
    pub fn observe(&mut self, total: u32)
        ensures
            *final(self) == old(self).seeing(total),
    {
        match self.prev {
            Some(prev) => {
                if total >= prev {
                    self.ticks = self.ticks.saturating_add(1);
                } else {
                    self.ticks = 0;
                }
            },
            None => {
                self.ticks = 0;
            },
        }
        self.prev = Some(total);
    }
}

/// The tracker once it has seen each of `totals`.
pub open spec fn after_totals(start: StallTracker, totals: Seq<u32>) -> StallTracker
    decreases totals.len(),
{
    if totals.len() == 0 {
        start
    } else {
        after_totals(start, totals.drop_last()).seeing(totals.last())
    }
}

/// Whether a total never goes down.
pub open spec fn never_drops(totals: Seq<u32>) -> bool {
    forall|i: int, j: int| 0 <= i <= j < totals.len() ==> totals[i] <= totals[j]
}

/// A total that has not gone down for `n` ticks since it was first seen has counted at least `n`.
pub proof fn law_stall_counts_ticks_without_headway(start: StallTracker, totals: Seq<u32>)
    requires
        0 < totals.len() <= u32::MAX,
        never_drops(totals),
    ensures
        after_totals(start, totals).ticks >= totals.len() - 1,
        after_totals(start, totals).prev == Some(totals.last()),
    decreases totals.len(),
{
    let init = totals.drop_last();
    if init.len() > 0 {
        assert(never_drops(init));
        law_stall_counts_ticks_without_headway(start, init);
        assert(init.last() == totals[totals.len() - 2]);
        assert(totals[totals.len() - 2] <= totals[totals.len() - 1]);
    }
}

/// Any headway sets the count back to zero: a slow fight is never taken for a stall.
pub proof fn law_headway_ends_a_stall(start: StallTracker, totals: Seq<u32>, next: u32)
    requires
        totals.len() > 0,
        next < totals.last(),
    ensures
        after_totals(start, totals.push(next)).ticks == 0,
{
    assert(totals.push(next).drop_last() =~= totals);
    assert(after_totals(start, totals).prev == Some(totals.last()));
}

/// The hits of the hostiles that have any.
pub open spec fn hostile_hits(hostiles: Seq<HostileView>) -> int
    decreases hostiles.len(),
{
    if hostiles.len() == 0 {
        0
    } else {
        hostile_hits(hostiles.drop_last()) + hostiles.last().hits
    }
}

/// The hits of the hostile structures that have any.
pub open spec fn hostile_structure_hits(structures: Seq<StructureView>) -> int
    decreases structures.len(),
{
    if structures.len() == 0 {
        0
    } else {
        let before = hostile_structure_hits(structures.drop_last());
        if structures.last().ownership == Ownership::Hostile {
            before + structures.last().hits
        } else {
            before
        }
    }
}

proof fn lemma_hostile_hits_grow(hostiles: Seq<HostileView>, i: int)
    requires
        0 <= i <= hostiles.len(),
    ensures
        hostile_hits(hostiles.take(i)) <= hostile_hits(hostiles),
    decreases hostiles.len(),
{
    if i < hostiles.len() {
        lemma_hostile_hits_grow(hostiles.drop_last(), i);
        assert(hostiles.drop_last().take(i) =~= hostiles.take(i));
    } else {
        assert(hostiles.take(i) =~= hostiles);
    }
}

proof fn lemma_structure_hits_grow(structures: Seq<StructureView>, i: int)
    requires
        0 <= i <= structures.len(),
    ensures
        hostile_structure_hits(structures.take(i)) <= hostile_structure_hits(structures),
    decreases structures.len(),
{
    if i < structures.len() {
        lemma_structure_hits_grow(structures.drop_last(), i);
        assert(structures.drop_last().take(i) =~= structures.take(i));
    } else {
        assert(structures.take(i) =~= structures);
    }
}

fn sum_hostile_hits(view: &SimView) -> (total: u32)
    requires
        hostile_hits(view.hostiles@) <= u32::MAX,
    ensures
        total == hostile_hits(view.hostiles@),
{
    let mut total: u32 = 0;
    let mut i: usize = 0;
    while i < view.hostiles.len()
        invariant
            i <= view.hostiles@.len(),
            hostile_hits(view.hostiles@) <= u32::MAX,
            total == hostile_hits(view.hostiles@.take(i as int)),
        decreases view.hostiles@.len() - i,
    {
        proof {
            assert(view.hostiles@.take(i + 1).drop_last() =~= view.hostiles@.take(i as int));
            lemma_hostile_hits_grow(view.hostiles@, i + 1);
        }
        if view.hostiles[i].hits > 0 {
            total = total + view.hostiles[i].hits;
        }
        i = i + 1;
    }
    proof {
        assert(view.hostiles@.take(view.hostiles@.len() as int) =~= view.hostiles@);
    }
    total
}

fn sum_structure_hits(view: &SimView) -> (total: u32)
    requires
        hostile_structure_hits(view.structures@) <= u32::MAX,
    ensures
        total == hostile_structure_hits(view.structures@),
{
    let mut total: u32 = 0;
    let mut i: usize = 0;
    while i < view.structures.len()
        invariant
            i <= view.structures@.len(),
            hostile_structure_hits(view.structures@) <= u32::MAX,
            total == hostile_structure_hits(view.structures@.take(i as int)),
        decreases view.structures@.len() - i,
    {
        proof {
            assert(view.structures@.take(i + 1).drop_last() =~= view.structures@.take(i as int));
            lemma_structure_hits_grow(view.structures@, i + 1);
        }
        let s = view.structures[i];
        if s.ownership == Ownership::Hostile && s.hits > 0 {
            total = total + s.hits;
        }
        i = i + 1;
    }
    proof {
        assert(view.structures@.take(view.structures@.len() as int) =~= view.structures@);
    }
    total
}

/// A member as the kernel sees it.
#[derive(Clone, Copy, Debug, PartialEq, Eq, Structural)]
pub struct MemberView {
    pub hits: u32,
    pub hits_max: u32,
    /// Working heal parts.
    pub heal_power: u32,
    pub pos: Position,
    pub has_ranged: bool,
    /// Damage per tick, by kind of attack.
    pub melee_power: u32,
    pub ranged_power: u32,
    pub damage_taken_last_tick: u32,
    pub id: u128,
    pub dismantle_power: u32,
    pub claim_power: u32,
}

impl CombatConstants {
    /// Whether what a friend deals per tick fits a machine integer.
    pub open spec fn powers_fit(self, friend: FriendView) -> bool {
        &&& friend.attack_parts * self.attack_power <= u32::MAX
        &&& friend.ranged_attack_parts * self.ranged_attack_power <= u32::MAX
        &&& friend.work_parts * self.dismantle_power <= u32::MAX
        &&& friend.claim_parts * self.claim_power <= u32::MAX
    }

    /// A friend as a member of the squad.
    pub open spec fn member(self, friend: FriendView) -> MemberView {
        MemberView {
            hits: friend.hits,
            hits_max: friend.hits_max,
            heal_power: friend.heal_parts,
            pos: friend.pos,
            has_ranged: friend.has_ranged,
            melee_power: (friend.attack_parts * self.attack_power) as u32,
            ranged_power: (friend.ranged_attack_parts * self.ranged_attack_power) as u32,
            damage_taken_last_tick: 0,
            id: friend.id,
            dismantle_power: (friend.work_parts * self.dismantle_power) as u32,
            claim_power: (friend.claim_parts * self.claim_power) as u32,
        }
    }

    /// A friend as a member of the squad: its parts, times what each deals.
    pub fn member_view(&self, friend: &FriendView) -> (member: MemberView)
        requires
            self.powers_fit(*friend),
        ensures
            member == self.member(*friend),
    {
        MemberView {
            hits: friend.hits,
            hits_max: friend.hits_max,
            heal_power: friend.heal_parts,
            pos: friend.pos,
            has_ranged: friend.has_ranged,
            melee_power: friend.attack_parts * self.attack_power,
            ranged_power: friend.ranged_attack_parts * self.ranged_attack_power,
            damage_taken_last_tick: 0,
            id: friend.id,
            dismantle_power: friend.work_parts * self.dismantle_power,
            claim_power: friend.claim_parts * self.claim_power,
        }
    }
}

/// What the kernel decides over, besides the view itself.
#[derive(Clone, Debug)]
pub struct SquadSituation<S> {
    /// The members present in the objective's room, in slot order.
    pub members: Vec<MemberView>,
    /// The share of hits below which the squad retreats, as the bits of a single-precision number.
    pub retreat_threshold_bits: u32,
    pub current_state: SquadOrderState<S>,
    /// Whether another player's safe mode makes all combat void.
    pub enemy_safe_mode: bool,
    pub engage_objective: EngageObjective,
    /// Whether the enemy's creeps, and its structures, have long lost no hits.
    pub enemy_stalled: bool,
    pub structure_stalled: bool,
    pub drain_stance: bool,
}

/// Who heals whom, as indices of the members present.
#[derive(Clone, Copy, Debug, PartialEq, Eq, Structural)]
pub struct HealAssignment {
    pub healer_idx: usize,
    pub target_idx: usize,
}

/// What the kernel decided for the squad. The lists follow the members present. `P` is how the
/// kernel writes down a movement of the whole squad.
#[derive(Clone, Debug)]
pub struct SquadDecision<S, P> {
    pub state: SquadOrderState<S>,
    pub center: Option<Position>,
    /// How the squad moves as a whole.
    pub movement: P,
    pub cohesion_radius: u32,
    pub heal_assignments: Vec<HealAssignment>,
    /// Each member's own focus; `None` is the shared one.
    pub focus_assignments: Vec<Option<FocusTarget>>,
    pub focus: Option<FocusTarget>,
    /// Each member's own tile; `None` is the shared movement.
    pub member_goals: Vec<Option<Position>>,
    /// Each member's actions, where the kernel chose them with its tile.
    pub member_intents: Vec<Vec<CombatIntent>>,
}

/// How a member moves.
#[derive(Clone, Copy, Debug, PartialEq, Eq, Structural)]
pub enum MemberMovement {
    /// As the decision has the whole squad move.
    Shared,
    /// To a tile of its own.
    Advance { goal: Position, range: u32 },
}

/// One member's share of the decision.
#[derive(Clone, Copy, Debug, PartialEq, Eq, Structural)]
pub struct MemberOrders {
    pub member: CreepId,
    /// Its index among the view's friends.
    pub friend: usize,
    pub center: Position,
    pub room: RoomName,
    pub movement: MemberMovement,
    pub cohesion_radius: u32,
    pub focus: Option<FocusTarget>,
    pub heal_target: Option<FocusTarget>,
}

/// A squad driven by the kernel. `S` tells the kernel's further states apart, `T` is what its
/// scoring is tuned by, `C` what its mover is, and `K` what the mover keeps from tick to tick.
pub struct ManagedSimSquad<S, T, C, K> {
    pub owner: PlayerId,
    /// Members in slot order.
    pub members: Vec<CreepId>,
    /// Where the squad fights.
    pub objective: Position,
    /// The share of hits below which the squad retreats, as the bits of a single-precision number.
    pub retreat_threshold_bits: u32,
    pub state: SquadOrderState<S>,
    pub tactics: T,
    pub intent: EngageObjective,
    /// Headway against the enemy's creeps, and against its structures.
    pub enemy_stall: StallTracker,
    pub structure_stall: StallTracker,
    /// Whether members may shove others aside.
    pub shove_enabled: bool,
    /// Whether the squad stands off while finite towers bleed dry.
    pub drain_stance: bool,
    pub mover_config: C,
    /// What the mover keeps between ticks.
    pub move_cache: K,
    /// Numeric bids of members in the mover's contention. A hold never bids.
    pub priority_bids: HashMap<CreepId, i64>,
    /// For each member, the doomed goal it has and for how many ticks.
    pub doomed_streaks: HashMap<CreepId, (Position, u16)>,
    pub constants: CombatConstants,
}

impl<S: Copy, T, C, K> ManagedSimSquad<S, T, C, K> {
    /// A squad that has yet to form, with no order but to destroy.
    pub fn new(
        owner: PlayerId,
        members: Vec<CreepId>,
        objective: Position,
        tactics: T,
        mover_config: C,
        move_cache: K,
        constants: CombatConstants,
    ) -> (squad: ManagedSimSquad<S, T, C, K>)
        ensures
            squad.owner == owner,
            squad.members == members,
            squad.objective == objective,
            squad.retreat_threshold_bits == RETREAT_THRESHOLD_BITS,
            squad.retreat_threshold_bits == 0x3e99_999a,
            squad.state is Forming,
            squad.tactics == tactics,
            squad.intent == EngageObjective::Destroy,
            squad.enemy_stall == StallTracker::fresh(),
            squad.structure_stall == StallTracker::fresh(),
            squad.shove_enabled,
            !squad.drain_stance,
            squad.mover_config == mover_config,
            squad.move_cache == move_cache,
            squad.priority_bids@ == Map::<CreepId, i64>::empty(),
            squad.doomed_streaks@ == Map::<CreepId, (Position, u16)>::empty(),
            squad.constants == constants,
    {
        ManagedSimSquad {
            owner,
            members,
            objective,
            retreat_threshold_bits: RETREAT_THRESHOLD_BITS,
            state: SquadOrderState::Forming,
            tactics,
            intent: EngageObjective::Destroy,
            enemy_stall: StallTracker { prev: None, ticks: 0 },
            structure_stall: StallTracker { prev: None, ticks: 0 },
            shove_enabled: true,
            drain_stance: false,
            mover_config,
            move_cache,
            priority_bids: HashMap::new(),
            doomed_streaks: HashMap::new(),
            constants,
        }
    }

    /// Tune the mover of this squad.
    pub fn with_mover_config(self, config: C) -> (squad: ManagedSimSquad<S, T, C, K>)
        ensures
            squad == (ManagedSimSquad { mover_config: config, ..self }),
    {
        ManagedSimSquad { mover_config: config, ..self }
    }

    /// Set the members' numeric bids; a member without one keeps its priority.
    pub fn with_priority_bids(self, bids: HashMap<CreepId, i64>) -> (squad: ManagedSimSquad<
        S,
        T,
        C,
        K,
    >)
        ensures
            squad == (ManagedSimSquad { priority_bids: bids, ..self }),
    {
        ManagedSimSquad { priority_bids: bids, ..self }
    }

    /// Allow or forbid shoving.
    pub fn with_shove(self, shove: bool) -> (squad: ManagedSimSquad<S, T, C, K>)
        ensures
            squad == (ManagedSimSquad { shove_enabled: shove, ..self }),
    {
        ManagedSimSquad { shove_enabled: shove, ..self }
    }

    /// Field the squad to drain towers, or not.
    pub fn with_drain_stance(self, drain: bool) -> (squad: ManagedSimSquad<S, T, C, K>)
        ensures
            squad == (ManagedSimSquad { drain_stance: drain, ..self }),
    {
        ManagedSimSquad { drain_stance: drain, ..self }
    }

    /// Tune the scoring of positions.
    pub fn with_tactics(self, tactics: T) -> (squad: ManagedSimSquad<S, T, C, K>)
        ensures
            squad == (ManagedSimSquad { tactics, ..self }),
    {
        ManagedSimSquad { tactics, ..self }
    }

    /// Set what the squad intends toward the enemy.
    pub fn with_intent(self, intent: EngageObjective) -> (squad: ManagedSimSquad<S, T, C, K>)
        ensures
            squad == (ManagedSimSquad { intent, ..self }),
    {
        ManagedSimSquad { intent, ..self }
    }
}

/// Whether a living creep of that id is in `room`.
pub open spec fn in_room(creeps: Seq<SimCreep>, room: RoomName, id: CreepId) -> bool {
    exists|i: int|
        {
            &&& 0 <= i < creeps.len()
            &&& (#[trigger] creeps[i]).id == id
            &&& creeps[i].alive
            &&& creeps[i].pos.room_name() == room
        }
}

fn is_in_room(world: &CombatWorld, room: RoomName, id: CreepId) -> (found: bool)
    ensures
        found == in_room(world.creeps@, room, id),
{
    let mut i: usize = 0;
    while i < world.creeps.len()
        invariant
            i <= world.creeps@.len(),
            forall|k: int|
                0 <= k < i ==> !((#[trigger] world.creeps@[k]).id == id && world.creeps@[k].alive
                    && world.creeps@[k].pos.room_name() == room),
        decreases world.creeps@.len() - i,
    {
        let c = world.creeps[i];
        if c.id == id && c.alive && c.pos.room_name() == room {
            return true;
        }
        i = i + 1;
    }
    false
}

pub open spec fn living_outside(creeps: Seq<SimCreep>, room: RoomName) -> spec_fn(
    CreepId,
) -> Option<CreepId> {
    |id: CreepId|
        if first_living(creeps, id) is Some && !in_room(creeps, room, id) {
            Some(id)
        } else {
            None
        }
}

pub open spec fn shown_inside(
    creeps: Seq<SimCreep>,
    room: RoomName,
    friends: Seq<FriendView>,
) -> spec_fn(CreepId) -> Option<(CreepId, usize)> {
    |id: CreepId|
        match friend_of(friends, id) {
            Some(friend) if in_room(creeps, room, id) => Some((id, friend as usize)),
            _ => None,
        }
}

pub open spec fn hostile_pos(room: RoomName, owner: PlayerId) -> spec_fn(SimCreep) -> Option<
    Position,
> {
    |c: SimCreep|
        if c.alive && c.owner != owner && c.pos.room_name() == room {
            Some(c.pos)
        } else {
            None
        }
}

/// The first of `intents` that moves.
pub open spec fn first_move(intents: Seq<CombatIntent>) -> Option<CombatIntent>
    decreases intents.len(),
{
    if intents.len() == 0 {
        None
    } else {
        match intents[0] {
            CombatIntent::MoveTo { .. } => Some(intents[0]),
            CombatIntent::Flee { .. } => Some(intents[0]),
            _ => first_move(intents.skip(1)),
        }
    }
}

/// A healer's first assignment.
pub open spec fn assignment_of(assignments: Seq<HealAssignment>, healer: int) -> Option<
    HealAssignment,
>
    decreases assignments.len(),
{
    if assignments.len() == 0 {
        None
    } else if assignments[0].healer_idx == healer {
        Some(assignments[0])
    } else {
        assignment_of(assignments.skip(1), healer)
    }
}

impl<S: Copy, P> SquadDecision<S, P> {
    /// Whom the member at `idx` heals: the member that its first assignment names, where it is
    /// present.
    pub open spec fn heal_target(
        self,
        present: Seq<(CreepId, usize)>,
        friends: Seq<FriendView>,
        idx: int,
    ) -> Option<FocusTarget> {
        match assignment_of(self.heal_assignments@, idx) {
            Some(a) if a.target_idx < present.len() => {
                let f = friends[present[a.target_idx as int].1 as int];
                Some(FocusTarget { pos: f.pos, id: f.id })
            },
            _ => None,
        }
    }

    /// What the member at `idx` aims at: its own focus, or else the shared one.
    pub open spec fn focus_of(self, idx: int) -> Option<FocusTarget> {
        if idx < self.focus_assignments@.len() && self.focus_assignments@[idx] is Some {
            self.focus_assignments@[idx]
        } else {
            self.focus
        }
    }

    /// How the member at `idx` moves: to its own tile, or else as the squad does.
    pub open spec fn movement_of(self, idx: int) -> MemberMovement {
        if idx < self.member_goals@.len() && self.member_goals@[idx] is Some {
            MemberMovement::Advance { goal: self.member_goals@[idx]->0, range: 0 }
        } else {
            MemberMovement::Shared
        }
    }

    /// Whether the kernel chose the actions of the member at `idx` itself.
    pub open spec fn acts(self, idx: int) -> bool {
        idx < self.member_intents@.len() && self.member_intents@[idx]@.len() > 0
    }

    /// One member's share of the decision.
    pub open spec fn orders(
        self,
        objective: Position,
        present: Seq<(CreepId, usize)>,
        friends: Seq<FriendView>,
        idx: int,
    ) -> MemberOrders {
        MemberOrders {
            member: present[idx].0,
            friend: present[idx].1,
            center: match self.center {
                Some(center) => center,
                None => objective,
            },
            room: objective.room_name(),
            movement: self.movement_of(idx),
            cohesion_radius: self.cohesion_radius,
            focus: self.focus_of(idx),
            heal_target: self.heal_target(present, friends, idx),
        }
    }

    /// Work out one member's share of the decision.
    pub fn member_orders(
        &self,
        objective: Position,
        present: &Vec<(CreepId, usize)>,
        view: &SimView,
        idx: usize,
    ) -> (orders: MemberOrders)
        requires
            idx < present@.len(),
            forall|i: int|
                0 <= i < present@.len() ==> (#[trigger] present@[i]).1 < view.friends@.len(),
        ensures
            orders == self.orders(objective, present@, view.friends@, idx as int),
    {
        let assignment = self.find_assignment(idx);
        let heal_target = match assignment {
            Some(a) => {
                if a.target_idx < present.len() {
                    let (_, friend) = present[a.target_idx];
                    let f = view.friends[friend];
                    Some(FocusTarget { pos: f.pos, id: f.id })
                } else {
                    None
                }
            },
            None => None,
        };
        let own_focus = if idx < self.focus_assignments.len() {
            self.focus_assignments[idx]
        } else {
            None
        };
        let focus = match own_focus {
            Some(target) => Some(target),
            None => self.focus,
        };
        let own_goal = if idx < self.member_goals.len() {
            self.member_goals[idx]
        } else {
            None
        };
        let movement = match own_goal {
            Some(goal) => MemberMovement::Advance { goal, range: 0 },
            None => MemberMovement::Shared,
        };
        let center = match self.center {
            Some(center) => center,
            None => objective,
        };
        let (member, friend) = present[idx];
        MemberOrders {
            member,
            friend,
            center,
            room: objective.room_name(),
            movement,
            cohesion_radius: self.cohesion_radius,
            focus,
            heal_target,
        }
    }

    fn find_assignment(&self, healer: usize) -> (found: Option<HealAssignment>)
        ensures
            found == assignment_of(self.heal_assignments@, healer as int),
    {
        let mut i: usize = 0;
        proof {
            assert(self.heal_assignments@.skip(0) =~= self.heal_assignments@);
        }
        while i < self.heal_assignments.len()
            invariant
                i <= self.heal_assignments@.len(),
                assignment_of(self.heal_assignments@, healer as int) == assignment_of(
                    self.heal_assignments@.skip(i as int),
                    healer as int,
                ),
            decreases self.heal_assignments@.len() - i,
        {
            let a = self.heal_assignments[i];
            if a.healer_idx == healer {
                return Some(a);
            }
            proof {
                assert(self.heal_assignments@.skip(i as int).skip(1)
                    =~= self.heal_assignments@.skip(i + 1));
            }
            i = i + 1;
        }
        None
    }
}

fn find_first_move(intents: &Vec<CombatIntent>) -> (index: Option<usize>)
    ensures
        index matches Some(i) ==> i < intents@.len() && first_move(intents@) == Some(
            intents@[i as int],
        ),
        index is None ==> first_move(intents@) is None,
{
    let mut i: usize = 0;
    proof {
        assert(intents@.skip(0) =~= intents@);
    }
    while i < intents.len()
        invariant
            i <= intents@.len(),
            first_move(intents@) == first_move(intents@.skip(i as int)),
        decreases intents@.len() - i,
    {
        proof {
            assert(intents@.skip(i as int).skip(1) =~= intents@.skip(i + 1));
        }
        let moves = match &intents[i] {
            CombatIntent::MoveTo { target: _, range: _ } => true,
            CombatIntent::Flee { from: _, range: _ } => true,
            _ => false,
        };
        if moves {
            return Some(i);
        }
        i = i + 1;
    }
    None
}

impl<S: Copy, T, C, K> ManagedSimSquad<S, T, C, K> {
    /// The living members that are not in the objective's room.
    pub open spec fn outsiders(self, creeps: Seq<SimCreep>) -> Seq<CreepId> {
        filter_map(self.members@, living_outside(creeps, self.objective.room_name()))
    }

    /// The members in the objective's room that the view shows, each with its index there.
    pub open spec fn present(self, creeps: Seq<SimCreep>, friends: Seq<FriendView>) -> Seq<
        (CreepId, usize),
    > {
        filter_map(self.members@, shown_inside(creeps, self.objective.room_name(), friends))
    }

    /// A member's numeric bid.
    pub open spec fn bid(self, id: CreepId) -> Option<i64> {
        if self.priority_bids@.dom().contains(id) {
            Some(self.priority_bids@[id])
        } else {
            None
        }
    }

    /// Where a member outside the objective's room goes: to the objective, or, in retreat, away
    /// from the hostiles of its own room, and nowhere where there are none.
    pub open spec fn travel_goal(self, creeps: Seq<SimCreep>, id: CreepId) -> Option<MoveGoalView> {
        if self.state is Retreating {
            match first_living(creeps, id) {
                Some(c) => {
                    let threats = filter_map(
                        creeps,
                        hostile_pos(c.pos.room_name(), self.owner),
                    );
                    if threats.len() > 0 {
                        Some(MoveGoalView::Flee { from: threats, range: FLEE_RANGE })
                    } else {
                        None
                    }
                },
                None => None,
            }
        } else {
            Some(MoveGoalView::To { target: self.objective, range: 1 })
        }
    }

    pub open spec fn travel_request(self, creeps: Seq<SimCreep>) -> spec_fn(CreepId) -> Option<
        MoveRequestView,
    > {
        |id: CreepId|
            match self.travel_goal(creeps, id) {
                Some(goal) => Some(
                    MoveRequestView {
                        priority_value: self.bid(id),
                        ..MoveRequestView::plain(id, goal)
                    },
                ),
                None => None,
            }
    }

    /// The requests of the members outside the objective's room; one with nowhere to go holds.
    pub open spec fn travel(self, creeps: Seq<SimCreep>) -> Seq<MoveRequestView> {
        let ids = self.outsiders(creeps);
        with_holds(creeps, ids, filter_map(ids, self.travel_request(creeps)))
    }

    /// Whether `situation` is what the kernel is to decide over, with the trackers as they are once
    /// they have seen this tick.
    pub open spec fn poses(
        self,
        world: &CombatWorld,
        friends: Seq<FriendView>,
        enemy: StallTracker,
        structures: StallTracker,
        situation: SquadSituation<S>,
    ) -> bool {
        let present = self.present(world.creeps@, friends);
        &&& situation.members@ == Seq::new(
            present.len(),
            |i: int| self.constants.member(friends[present[i].1 as int]),
        )
        &&& situation.retreat_threshold_bits == self.retreat_threshold_bits
        &&& situation.current_state == self.state
        &&& situation.enemy_safe_mode == (world.safe_mode_owner is Some
            && world.safe_mode_owner->0 != self.owner)
        &&& situation.engage_objective == self.intent
        &&& situation.enemy_stalled == (enemy.ticks >= self.constants.stall_limit)
        &&& situation.structure_stalled == (structures.ticks >= self.constants.stall_limit)
        &&& situation.drain_stance == self.drain_stance
    }

    /// The request of a member that fights: a combat creep goes first, a fleeing one never shoves,
    /// and while the squad is engaged nobody is pushed off its block.
    pub open spec fn member_request<P>(
        self,
        decision: SquadDecision<S, P>,
        id: CreepId,
        friend: FriendView,
        intent: CombatIntent,
    ) -> MoveRequestView {
        MoveRequestView {
            priority: if friend.has_ranged || friend.attack_parts > 0 {
                MovementPriority::High
            } else {
                MovementPriority::Standard
            },
            priority_value: self.bid(id),
            shove: Some(!(intent is Flee) && self.shove_enabled),
            anchor: match decision.center {
                Some(center) if decision.state is Engaged
                    && decision.cohesion_radius > 0 => Some((center, decision.cohesion_radius)),
                _ => None,
            },
            engaged: true,
            ..request_of(id, intent)->0
        }
    }

    /// The requests of the first `k` members present, where they move.
    pub open spec fn fight_requests<P>(
        self,
        decision: SquadDecision<S, P>,
        present: Seq<(CreepId, usize)>,
        friends: Seq<FriendView>,
        maneuvers: Seq<Vec<CombatIntent>>,
        k: int,
    ) -> Seq<MoveRequestView>
        decreases k,
    {
        if k <= 0 {
            Seq::empty()
        } else {
            let before = self.fight_requests(decision, present, friends, maneuvers, k - 1);
            let (id, friend) = present[k - 1];
            match first_move(maneuvers[k - 1]@) {
                Some(intent) => before.push(
                    self.member_request(decision, id, friends[friend as int], intent),
                ),
                None => before,
            }
        }
    }

    /// Turn a member's movement intent into its request.
    pub fn build_member_request<P>(
        &self,
        decision: &SquadDecision<S, P>,
        id: CreepId,
        friend: &FriendView,
        intent: &CombatIntent,
    ) -> (req: Option<MoveRequest>)
        ensures
            req is Some <==> request_of(id, *intent) is Some,
            req matches Some(r) ==> r@ == self.member_request(*decision, id, *friend, *intent),
    {
        match move_request_from_intent(id, intent) {
            None => None,
            Some(mut req) => {
                if friend.has_ranged || friend.attack_parts > 0 {
                    req.priority = MovementPriority::High;
                }
                if let Some(bid) = self.priority_bids.get(&id) {
                    req.priority_value = Some(*bid);
                }
                let flees = match intent {
                    CombatIntent::Flee { from: _, range: _ } => true,
                    _ => false,
                };
                req.shove = Some(!flees && self.shove_enabled);
                let engaged = matches!(decision.state, SquadOrderState::Engaged);
                if engaged && decision.cohesion_radius > 0 {
                    if let Some(center) = decision.center {
                        req.anchor = Some((center, decision.cohesion_radius));
                    }
                }
                req.engaged = true;
                Some(req)
            },
        }
    }

    /// The members outside the objective's room.
    pub fn find_outsiders(&self, world: &CombatWorld) -> (ids: Vec<CreepId>)
        ensures
            ids@ == self.outsiders(world.creeps@),
    {
        let room = self.objective.room_name();
        let ghost keep = living_outside(world.creeps@, room);
        let mut ids: Vec<CreepId> = Vec::new();
        let mut i: usize = 0;
        while i < self.members.len()
            invariant
                i <= self.members@.len(),
                keep == living_outside(world.creeps@, room),
                ids@ == filter_map(self.members@.take(i as int), keep),
            decreases self.members@.len() - i,
        {
            let id: CreepId = self.members[i];
            proof {
                lemma_filter_map_take(self.members@, keep, i as int);
            }
            if world.living_creep(id).is_some() && !is_in_room(world, room, id) {
                ids.push(id);
            }
            i = i + 1;
        }
        proof {
            assert(self.members@.take(self.members@.len() as int) =~= self.members@);
        }
        ids
    }

    /// The members in the objective's room that the view shows.
    pub fn find_present(&self, world: &CombatWorld, view: &SimView) -> (present: Vec<
        (CreepId, usize),
    >)
        ensures
            present@ == self.present(world.creeps@, view.friends@),
            forall|i: int|
                0 <= i < present@.len() ==> (#[trigger] present@[i]).1 < view.friends@.len(),
    {
        let room = self.objective.room_name();
        let ghost keep = shown_inside(world.creeps@, room, view.friends@);
        let mut present: Vec<(CreepId, usize)> = Vec::new();
        let mut i: usize = 0;
        while i < self.members.len()
            invariant
                i <= self.members@.len(),
                keep == shown_inside(world.creeps@, room, view.friends@),
                present@ == filter_map(self.members@.take(i as int), keep),
                forall|k: int|
                    0 <= k < present@.len() ==> (#[trigger] present@[k]).1 < view.friends@.len(),
            decreases self.members@.len() - i,
        {
            let id: CreepId = self.members[i];
            proof {
                lemma_filter_map_take(self.members@, keep, i as int);
            }
            if is_in_room(world, room, id) {
                if let Some(friend) = view.friend_index(id) {
                    present.push((id, friend));
                }
            }
            i = i + 1;
        }
        proof {
            assert(self.members@.take(self.members@.len() as int) =~= self.members@);
        }
        present
    }

    fn find_threats(&self, world: &CombatWorld, room: RoomName) -> (threats: Vec<Position>)
        ensures
            threats@ == filter_map(world.creeps@, hostile_pos(room, self.owner)),
    {
        let ghost keep = hostile_pos(room, self.owner);
        let mut threats: Vec<Position> = Vec::new();
        let mut i: usize = 0;
        while i < world.creeps.len()
            invariant
                i <= world.creeps@.len(),
                keep == hostile_pos(room, self.owner),
                threats@ == filter_map(world.creeps@.take(i as int), keep),
            decreases world.creeps@.len() - i,
        {
            let c = world.creeps[i];
            proof {
                lemma_filter_map_take(world.creeps@, keep, i as int);
            }
            if c.alive && c.owner != self.owner && c.pos.room_name() == room {
                threats.push(c.pos);
            }
            i = i + 1;
        }
        proof {
            assert(world.creeps@.take(world.creeps@.len() as int) =~= world.creeps@);
        }
        threats
    }

    fn find_travel_goal(&self, world: &CombatWorld, id: CreepId) -> (goal: Option<MoveGoal>)
        ensures
            goal is Some <==> self.travel_goal(world.creeps@, id) is Some,
            goal matches Some(g) ==> g@ == self.travel_goal(world.creeps@, id)->0,
    {
        if matches!(self.state, SquadOrderState::Retreating) {
            match world.living_creep(id) {
                Some(c) => {
                    let threats = self.find_threats(world, c.pos.room_name());
                    if threats.len() > 0 {
                        Some(MoveGoal::Flee { from: threats, range: FLEE_RANGE })
                    } else {
                        None
                    }
                },
                None => None,
            }
        } else {
            Some(MoveGoal::To { target: self.objective, range: 1 })
        }
    }

    /// The requests of the members outside the objective's room, holds and all.
    pub fn travel_requests(&self, world: &CombatWorld) -> (reqs: Vec<MoveRequest>)
        ensures
            request_views(reqs@) == self.travel(world.creeps@),
    {
        let ids = self.find_outsiders(world);
        let ghost keep = self.travel_request(world.creeps@);
        let mut reqs: Vec<MoveRequest> = Vec::new();
        let mut i: usize = 0;
        proof {
            assert(request_views(reqs@) =~= filter_map(ids@.take(0), keep));
        }
        while i < ids.len()
            invariant
                i <= ids@.len(),
                keep == self.travel_request(world.creeps@),
                request_views(reqs@) == filter_map(ids@.take(i as int), keep),
            decreases ids@.len() - i,
        {
            let id: CreepId = ids[i];
            proof {
                lemma_filter_map_take(ids@, keep, i as int);
            }
            if let Some(goal) = self.find_travel_goal(world, id) {
                let mut req = MoveRequest::new(id, goal);
                if let Some(bid) = self.priority_bids.get(&id) {
                    req.priority_value = Some(*bid);
                }
                let ghost before = reqs@;
                reqs.push(req);
                proof {
                    assert(request_views(reqs@) =~= request_views(before).push(req@));
                }
            }
            i = i + 1;
        }
        proof {
            assert(ids@.take(ids@.len() as int) =~= ids@);
        }
        push_hold_requests(world, &ids, &mut reqs);
        reqs
    }
}

/// How often an id occurs in a list.
pub open spec fn occurrences(ids: Seq<CreepId>, id: CreepId) -> int
    decreases ids.len(),
{
    if ids.len() == 0 {
        0
    } else {
        occurrences(ids.drop_last(), id) + if ids.last() == id {
            1int
        } else {
            0int
        }
    }
}

/// How many requests of a creep are not holds.
spec fn movable(reqs: Seq<MoveRequestView>, id: CreepId) -> int
    decreases reqs.len(),
{
    if reqs.len() == 0 {
        0
    } else {
        movable(reqs.drop_last(), id) + if reqs.last().creep == id && reqs.last().priority
            != MovementPriority::Immovable {
            1int
        } else {
            0int
        }
    }
}

proof fn lemma_movable_concat(a: Seq<MoveRequestView>, b: Seq<MoveRequestView>, id: CreepId)
    ensures
        movable(a + b, id) == movable(a, id) + movable(b, id),
    decreases b.len(),
{
    if b.len() == 0 {
        assert(a + b =~= a);
    } else {
        lemma_movable_concat(a, b.drop_last(), id);
        assert((a + b).drop_last() =~= a + b.drop_last());
    }
}

proof fn lemma_movable_prefix(reqs: Seq<MoveRequestView>, id: CreepId, k: int)
    requires
        0 <= k <= reqs.len(),
    ensures
        0 <= movable(reqs.take(k), id) <= movable(reqs, id),
    decreases reqs.len(),
{
    if k < reqs.len() {
        lemma_movable_prefix(reqs.drop_last(), id, k);
        assert(reqs.drop_last().take(k) =~= reqs.take(k));
    } else {
        assert(reqs.take(k) =~= reqs);
        if reqs.len() > 0 {
            lemma_movable_prefix(reqs.drop_last(), id, k - 1);
            assert(reqs.drop_last().take(k - 1) =~= reqs.drop_last());
        }
    }
}

proof fn lemma_holds_not_movable(
    creeps: Seq<SimCreep>,
    members: Seq<CreepId>,
    reqs: Seq<MoveRequestView>,
    id: CreepId,
)
    ensures
        movable(filter_map(members, hold_of(creeps, reqs)), id) == 0,
        movable(with_holds(creeps, members, reqs), id) == movable(reqs, id),
    decreases members.len(),
{
    if members.len() > 0 {
        lemma_holds_not_movable(creeps, members.drop_last(), reqs, id);
        let before = filter_map(members.drop_last(), hold_of(creeps, reqs));
        let after = filter_map(members, hold_of(creeps, reqs));
        if hold_of(creeps, reqs)(members.last()) is Some {
            assert(after.drop_last() =~= before);
        }
    }
    lemma_movable_concat(reqs, filter_map(members, hold_of(creeps, reqs)), id);
}

proof fn lemma_damp_bound(
    reqs: Seq<MoveRequestView>,
    creeps: Seq<SimCreep>,
    streaks: Map<CreepId, (Position, int)>,
    k: int,
    id: CreepId,
)
    requires
        0 <= k <= reqs.len(),
        streaks.dom().contains(id) ==> streaks[id].1 >= 0,
    ensures
        damp(reqs, creeps, streaks, k).streaks.dom().contains(id) ==> damp(
            reqs,
            creeps,
            streaks,
            k,
        ).streaks[id].1 <= (if streaks.dom().contains(id) {
            streaks[id].1
        } else {
            0
        }) + movable(reqs.take(k), id),
    decreases k,
{
    lemma_movable_prefix(reqs, id, k);
    if k > 0 {
        lemma_damp_bound(reqs, creeps, streaks, k - 1, id);
        lemma_movable_prefix(reqs, id, k - 1);
        assert(reqs.take(k).drop_last() =~= reqs.take(k - 1));
        assert(reqs.take(k).last() == reqs[k - 1]);
    }
}

/// What the kernel, the fighters, the movers and the router answered in one tick of a squad.
pub struct ManagedTick<S, P> {
    pub situation: SquadSituation<S>,
    pub decision: SquadDecision<S, P>,
    pub fights: Seq<Vec<CombatIntent>>,
    pub maneuvers: Seq<Vec<CombatIntent>>,
    pub reqs: Vec<MoveRequest>,
    pub steps: Vec<(CreepId, Direction)>,
}

impl<S: Copy, T, C, K> ManagedSimSquad<S, T, C, K> {
    /// Whether some member lives.
    pub open spec fn has_living(self, creeps: Seq<SimCreep>) -> bool {
        exists|i: int|
            0 <= i < self.members@.len() && first_living(
                creeps,
                #[trigger] self.members@[i],
            ) is Some
    }

    /// The actions of the first `k` members present: those the kernel chose with their tiles, else
    /// those of their own fight.
    pub open spec fn fight_orders<P>(
        self,
        decision: SquadDecision<S, P>,
        present: Seq<(CreepId, usize)>,
        fights: Seq<Vec<CombatIntent>>,
        k: int,
    ) -> Map<CreepId, Seq<CombatAction>>
        decreases k,
    {
        if k <= 0 {
            Map::empty()
        } else {
            let before = self.fight_orders(decision, present, fights, k - 1);
            let chosen = if decision.acts(k - 1) {
                decision.member_intents@[k - 1]@
            } else {
                fights[k - 1]@
            };
            let actions = filter_map(chosen, carried_action());
            if actions.len() > 0 {
                before.insert(present[k - 1].0, actions)
            } else {
                before
            }
        }
    }

    /// Whether `fights` and `maneuvers` hold what was answered for each of the first `k` members
    /// present. A member whose actions the kernel chose is not asked how it fights.
    pub open spec fn consulted<
        P,
        F: Fn(&SimView, &SquadDecision<S, P>, &MemberOrders) -> Vec<CombatIntent>,
        G: Fn(&SimView, &SquadDecision<S, P>, &MemberOrders) -> Vec<CombatIntent>,
    >(
        self,
        decision: SquadDecision<S, P>,
        present: Seq<(CreepId, usize)>,
        view: &SimView,
        fight: F,
        maneuver: G,
        fights: Seq<Vec<CombatIntent>>,
        maneuvers: Seq<Vec<CombatIntent>>,
        k: int,
    ) -> bool {
        &&& forall|i: int|
            #![trigger fights[i]]
            0 <= i < k && !decision.acts(i) ==> call_ensures(
                fight,
                (view, &decision, &decision.orders(self.objective, present, view.friends@, i)),
                fights[i],
            )
        &&& forall|i: int|
            #![trigger maneuvers[i]]
            0 <= i < k ==> call_ensures(
                maneuver,
                (view, &decision, &decision.orders(self.objective, present, view.friends@, i)),
                maneuvers[i],
            )
    }

    /// All requests of a tick, before the damper: travellers, fighters, and a hold for whoever has
    /// none.
    pub open spec fn all_requests<P>(
        self,
        creeps: Seq<SimCreep>,
        friends: Seq<FriendView>,
        decision: SquadDecision<S, P>,
        maneuvers: Seq<Vec<CombatIntent>>,
    ) -> Seq<MoveRequestView> {
        let present = self.present(creeps, friends);
        with_holds(
            creeps,
            self.members@,
            self.travel(creeps) + self.fight_requests(
                decision,
                present,
                friends,
                maneuvers,
                present.len() as int,
            ),
        )
    }

    /// Whether what this tick adds up fits machine integers.
    pub open spec fn fits(self, world: &CombatWorld, view: &SimView) -> bool {
        let present = self.present(world.creeps@, view.friends@);
        &&& present.len() > 0 ==> {
            &&& hostile_hits(view.hostiles@) <= u32::MAX
            &&& hostile_structure_hits(view.structures@) <= u32::MAX
            &&& forall|id: CreepId|
                (if #[trigger] self.doomed_streaks@.dom().contains(id) {
                    self.doomed_streaks@[id].1 as int
                } else {
                    0
                }) + occurrences(self.members@, id) <= u16::MAX
        }
        &&& forall|i: int|
            0 <= i < present.len() ==> self.constants.powers_fit(
                view.friends@[(#[trigger] present[i]).1 as int],
            )
    }

    /// Whether `after` and `intents` are what one tick makes of this squad, with the answers of
    /// `tick`.
    ///
    /// Without a living member nothing happens. Without one present in the objective's room the
    /// others travel, and nothing else is decided. Else the kernel decides for those present, they
    /// fight and move under it, the others travel, and all requests are routed in one pass.
    pub open spec fn steps_to<
        P,
        D: Fn(&CombatWorld, PlayerId, &SimView, &SquadSituation<S>, &T) -> SquadDecision<S, P>,
        F: Fn(&SimView, &SquadDecision<S, P>, &MemberOrders) -> Vec<CombatIntent>,
        G: Fn(&SimView, &SquadDecision<S, P>, &MemberOrders) -> Vec<CombatIntent>,
        R: Fn(&CombatWorld, PlayerId, &Vec<MoveRequest>, &C, &K) -> (Vec<(CreepId, Direction)>, K),
    >(
        self,
        world: &CombatWorld,
        view: &SimView,
        decide: D,
        fight: F,
        maneuver: G,
        route: R,
        tick: ManagedTick<S, P>,
        after: ManagedSimSquad<S, T, C, K>,
        intents: IntentsView,
    ) -> bool {
        let creeps = world.creeps@;
        let friends = view.friends@;
        let present = self.present(creeps, friends);
        let n = present.len() as int;
        let enemy = self.enemy_stall.seeing(hostile_hits(view.hostiles@) as u32);
        let structures = self.structure_stall.seeing(
            hostile_structure_hits(view.structures@) as u32,
        );
        let decision = tick.decision;
        if !self.has_living(creeps) {
            &&& after == self
            &&& intents == IntentsView::empty()
        } else if n == 0 {
            &&& request_views(tick.reqs@) == self.travel(creeps)
            &&& call_ensures(
                route,
                (world, self.owner, &tick.reqs, &self.mover_config, &self.move_cache),
                (tick.steps, after.move_cache),
            )
            &&& after == ManagedSimSquad { move_cache: after.move_cache, ..self }
            &&& intents == IntentsView {
                moves: with_steps(Map::empty(), tick.steps@),
                ..IntentsView::empty()
            }
        } else {
            let all = self.all_requests(creeps, friends, decision, tick.maneuvers);
            let damped = damp(
                all,
                creeps,
                streak_view(self.doomed_streaks@),
                all.len() as int,
            );
            &&& self.poses(world, friends, enemy, structures, tick.situation)
            &&& call_ensures(
                decide,
                (world, self.owner, view, &tick.situation, &self.tactics),
                decision,
            )
            &&& self.consulted(
                decision,
                present,
                view,
                fight,
                maneuver,
                tick.fights,
                tick.maneuvers,
                n,
            )
            &&& request_views(tick.reqs@) == damped.reqs
            &&& call_ensures(
                route,
                (world, self.owner, &tick.reqs, &self.mover_config, &self.move_cache),
                (tick.steps, after.move_cache),
            )
            &&& after == ManagedSimSquad {
                state: decision.state,
                enemy_stall: enemy,
                structure_stall: structures,
                doomed_streaks: after.doomed_streaks,
                move_cache: after.move_cache,
                ..self
            }
            &&& streak_view(after.doomed_streaks@) == damped.doomed
            &&& intents == IntentsView {
                creeps: self.fight_orders(decision, present, tick.fights, n),
                moves: with_steps(Map::empty(), tick.steps@),
                towers: Map::empty(),
            }
        }
    }
}

/// How often an id occurs among the members present.
spec fn showings(present: Seq<(CreepId, usize)>, id: CreepId) -> int
    decreases present.len(),
{
    if present.len() == 0 {
        0
    } else {
        showings(present.drop_last(), id) + if present.last().0 == id {
            1int
        } else {
            0int
        }
    }
}

proof fn lemma_outsiders_occur(
    creeps: Seq<SimCreep>,
    room: RoomName,
    members: Seq<CreepId>,
    id: CreepId,
)
    ensures
        0 <= occurrences(filter_map(members, living_outside(creeps, room)), id) <= occurrences(
            members,
            id,
        ),
        in_room(creeps, room, id) ==> occurrences(
            filter_map(members, living_outside(creeps, room)),
            id,
        ) == 0,
    decreases members.len(),
{
    if members.len() > 0 {
        lemma_outsiders_occur(creeps, room, members.drop_last(), id);
        let before = filter_map(members.drop_last(), living_outside(creeps, room));
        let after = filter_map(members, living_outside(creeps, room));
        if living_outside(creeps, room)(members.last()) is Some {
            assert(after.drop_last() =~= before);
        }
    }
}

proof fn lemma_present_occur(
    creeps: Seq<SimCreep>,
    room: RoomName,
    friends: Seq<FriendView>,
    members: Seq<CreepId>,
    id: CreepId,
)
    ensures
        0 <= showings(filter_map(members, shown_inside(creeps, room, friends)), id) <= occurrences(
            members,
            id,
        ),
        !in_room(creeps, room, id) ==> showings(
            filter_map(members, shown_inside(creeps, room, friends)),
            id,
        ) == 0,
    decreases members.len(),
{
    if members.len() > 0 {
        lemma_present_occur(creeps, room, friends, members.drop_last(), id);
        let before = filter_map(members.drop_last(), shown_inside(creeps, room, friends));
        let after = filter_map(members, shown_inside(creeps, room, friends));
        if shown_inside(creeps, room, friends)(members.last()) is Some {
            assert(after.drop_last() =~= before);
        }
    }
}

impl<S: Copy, T, C, K> ManagedSimSquad<S, T, C, K> {
    proof fn lemma_travel_movable(self, creeps: Seq<SimCreep>, ids: Seq<CreepId>, id: CreepId)
        ensures
            movable(filter_map(ids, self.travel_request(creeps)), id) <= occurrences(ids, id),
        decreases ids.len(),
    {
        if ids.len() > 0 {
            self.lemma_travel_movable(creeps, ids.drop_last(), id);
            let before = filter_map(ids.drop_last(), self.travel_request(creeps));
            let after = filter_map(ids, self.travel_request(creeps));
            if self.travel_request(creeps)(ids.last()) is Some {
                assert(after.drop_last() =~= before);
            }
        }
    }

    proof fn lemma_fight_movable<P>(
        self,
        decision: SquadDecision<S, P>,
        present: Seq<(CreepId, usize)>,
        friends: Seq<FriendView>,
        maneuvers: Seq<Vec<CombatIntent>>,
        k: int,
        id: CreepId,
    )
        requires
            0 <= k <= present.len(),
        ensures
            movable(self.fight_requests(decision, present, friends, maneuvers, k), id) <= showings(
                present.take(k),
                id,
            ),
        decreases k,
    {
        if k > 0 {
            self.lemma_fight_movable(decision, present, friends, maneuvers, k - 1, id);
            assert(present.take(k).drop_last() =~= present.take(k - 1));
            let before = self.fight_requests(decision, present, friends, maneuvers, k - 1);
            let after = self.fight_requests(decision, present, friends, maneuvers, k);
            if first_move(maneuvers[k - 1]@) is Some {
                assert(after.drop_last() =~= before);
                lemma_first_move(maneuvers[k - 1]@, present[k - 1].0);
            }
        }
    }

    /// No member makes more requests that move than it occurs in the squad, so the streaks fit.
    proof fn lemma_streaks_fit<P>(
        self,
        world: &CombatWorld,
        view: &SimView,
        decision: SquadDecision<S, P>,
        maneuvers: Seq<Vec<CombatIntent>>,
    )
        requires
            self.fits(world, view),
            self.present(world.creeps@, view.friends@).len() > 0,
        ensures
            streaks_fit(
                self.all_requests(world.creeps@, view.friends@, decision, maneuvers),
                world.creeps@,
                streak_view(self.doomed_streaks@),
            ),
    {
        let creeps = world.creeps@;
        let friends = view.friends@;
        let room = self.objective.room_name();
        let present = self.present(creeps, friends);
        let n = present.len() as int;
        let all = self.all_requests(creeps, friends, decision, maneuvers);
        let streaks = streak_view(self.doomed_streaks@);
        let fights = self.fight_requests(decision, present, friends, maneuvers, n);
        let ids = self.outsiders(creeps);
        let moving = filter_map(ids, self.travel_request(creeps));
        assert forall|k: int, id: CreepId|
            0 <= k <= all.len() && #[trigger] damp(
                all,
                creeps,
                streaks,
                k,
            ).streaks.dom().contains(id) implies damp(all, creeps, streaks, k).streaks[id].1
            <= u16::MAX by {
            lemma_damp_bound(all, creeps, streaks, k, id);
            lemma_movable_prefix(all, id, k);
            lemma_holds_not_movable(creeps, self.members@, self.travel(creeps) + fights, id);
            lemma_movable_concat(self.travel(creeps), fights, id);
            lemma_holds_not_movable(creeps, ids, moving, id);
            self.lemma_travel_movable(creeps, ids, id);
            self.lemma_fight_movable(decision, present, friends, maneuvers, n, id);
            assert(present.take(n) =~= present);
            lemma_outsiders_occur(creeps, room, self.members@, id);
            lemma_present_occur(creeps, room, friends, self.members@, id);
            assert(self.doomed_streaks@.dom().contains(id) == streaks.dom().contains(id));
        }
    }

    proof fn lemma_fights_prefix<P>(
        self,
        decision: SquadDecision<S, P>,
        present: Seq<(CreepId, usize)>,
        friends: Seq<FriendView>,
        a: Seq<Vec<CombatIntent>>,
        b: Seq<Vec<CombatIntent>>,
        k: int,
    )
        requires
            0 <= k <= a.len() <= b.len(),
            forall|i: int| 0 <= i < a.len() ==> a[i] == b[i],
        ensures
            self.fight_orders(decision, present, a, k) == self.fight_orders(
                decision,
                present,
                b,
                k,
            ),
            self.fight_requests(decision, present, friends, a, k) == self.fight_requests(
                decision,
                present,
                friends,
                b,
                k,
            ),
        decreases k,
    {
        if k > 0 {
            self.lemma_fights_prefix(decision, present, friends, a, b, k - 1);
        }
    }

    fn any_living(&self, world: &CombatWorld) -> (found: bool)
        ensures
            found == self.has_living(world.creeps@),
    {
        let mut i: usize = 0;
        while i < self.members.len()
            invariant
                i <= self.members@.len(),
                forall|k: int|
                    0 <= k < i ==> first_living(
                        world.creeps@,
                        #[trigger] self.members@[k],
                    ) is None,
            decreases self.members@.len() - i,
        {
            let id: CreepId = self.members[i];
            if world.living_creep(id).is_some() {
                assert(self.members@[i as int] == id);
                return true;
            }
            i = i + 1;
        }
        false
    }

    /// Pose to the kernel what it decides over, for the members present.
    fn pose(
        &self,
        world: &CombatWorld,
        view: &SimView,
        present: &Vec<(CreepId, usize)>,
    ) -> (situation: SquadSituation<S>)
        requires
            present@ == self.present(world.creeps@, view.friends@),
            forall|i: int|
                0 <= i < present@.len() ==> (#[trigger] present@[i]).1 < view.friends@.len(),
            forall|i: int|
                0 <= i < present@.len() ==> self.constants.powers_fit(
                    view.friends@[(#[trigger] present@[i]).1 as int],
                ),
        ensures
            self.poses(
                world,
                view.friends@,
                self.enemy_stall,
                self.structure_stall,
                situation,
            ),
    {
        let mut members: Vec<MemberView> = Vec::new();
        let mut i: usize = 0;
        while i < present.len()
            invariant
                i <= present@.len(),
                forall|k: int|
                    0 <= k < present@.len() ==> (#[trigger] present@[k]).1 < view.friends@.len(),
                forall|k: int|
                    0 <= k < present@.len() ==> self.constants.powers_fit(
                        view.friends@[(#[trigger] present@[k]).1 as int],
                    ),
                members@ =~= Seq::new(
                    i as nat,
                    |k: int| self.constants.member(view.friends@[present@[k].1 as int]),
                ),
            decreases present@.len() - i,
        {
            let (_, friend) = present[i];
            assert(present@[i as int].1 == friend);
            members.push(self.constants.member_view(&view.friends[friend]));
            i = i + 1;
        }
        let enemy_safe_mode = match world.safe_mode_owner {
            Some(owner) => owner != self.owner,
            None => false,
        };
        SquadSituation {
            members,
            retreat_threshold_bits: self.retreat_threshold_bits,
            current_state: self.state,
            enemy_safe_mode,
            engage_objective: self.intent,
            enemy_stalled: self.enemy_stall.ticks >= self.constants.stall_limit,
            structure_stalled: self.structure_stall.ticks >= self.constants.stall_limit,
            drain_stance: self.drain_stance,
        }
    }

    /// Advance the squad by one tick and give its orders.
    ///
    /// `look` is what the squad sees of its objective's room; the rest is as in
    /// [`ManagedSimSquad::step_in_view`].
    pub fn step<
        P,
        L: Fn(&CombatWorld, PlayerId, Position, RoomName) -> SimView,
        D: Fn(&CombatWorld, PlayerId, &SimView, &SquadSituation<S>, &T) -> SquadDecision<S, P>,
        F: Fn(&SimView, &SquadDecision<S, P>, &MemberOrders) -> Vec<CombatIntent>,
        G: Fn(&SimView, &SquadDecision<S, P>, &MemberOrders) -> Vec<CombatIntent>,
        R: Fn(&CombatWorld, PlayerId, &Vec<MoveRequest>, &C, &K) -> (Vec<(CreepId, Direction)>, K),
    >(
        &mut self,
        world: &CombatWorld,
        look: &L,
        decide: &D,
        fight: &F,
        maneuver: &G,
        route: &R,
    ) -> (intents: Intents)
        requires
            call_requires(
                *look,
                (
                    world,
                    old(self).owner,
                    old(self).objective,
                    old(self).objective.room_name(),
                ),
            ),
            forall|view: SimView| #[trigger]
                call_ensures(
                    *look,
                    (
                        world,
                        old(self).owner,
                        old(self).objective,
                        old(self).objective.room_name(),
                    ),
                    view,
                ) ==> old(self).fits(world, &view),
            forall|view: &SimView, situation: &SquadSituation<S>, tactics: &T| #[trigger]
                call_requires(*decide, (world, old(self).owner, view, situation, tactics)),
            forall|view: &SimView, decision: &SquadDecision<S, P>, orders: &MemberOrders| #[trigger]
                call_requires(*fight, (view, decision, orders)),
            forall|view: &SimView, decision: &SquadDecision<S, P>, orders: &MemberOrders| #[trigger]
                call_requires(*maneuver, (view, decision, orders)),
            forall|reqs: &Vec<MoveRequest>, config: &C, cache: &K| #[trigger]
                call_requires(*route, (world, old(self).owner, reqs, config, cache)),
        ensures
            exists|view: SimView, tick: ManagedTick<S, P>|
                {
                    &&& call_ensures(
                        *look,
                        (
                            world,
                            old(self).owner,
                            old(self).objective,
                            old(self).objective.room_name(),
                        ),
                        view,
                    )
                    &&& #[trigger] old(self).steps_to(
                        world,
                        &view,
                        *decide,
                        *fight,
                        *maneuver,
                        *route,
                        tick,
                        *final(self),
                        intents@,
                    )
                },
    {
        let view = look(world, self.owner, self.objective, self.objective.room_name());
        self.step_in_view(world, &view, decide, fight, maneuver, route)
    }

    /// One tick of the squad with `view` before it.
    ///
    /// `decide` is the kernel's one decision for the squad, `fight` and `maneuver` pick a member's
    /// combat and movement intents under that decision, and `route` turns all requests into steps
    /// in one pass and gives what the mover keeps for the next.
    pub fn step_in_view<
        P,
        D: Fn(&CombatWorld, PlayerId, &SimView, &SquadSituation<S>, &T) -> SquadDecision<S, P>,
        F: Fn(&SimView, &SquadDecision<S, P>, &MemberOrders) -> Vec<CombatIntent>,
        G: Fn(&SimView, &SquadDecision<S, P>, &MemberOrders) -> Vec<CombatIntent>,
        R: Fn(&CombatWorld, PlayerId, &Vec<MoveRequest>, &C, &K) -> (Vec<(CreepId, Direction)>, K),
    >(
        &mut self,
        world: &CombatWorld,
        view: &SimView,
        decide: &D,
        fight: &F,
        maneuver: &G,
        route: &R,
    ) -> (intents: Intents)
        requires
            old(self).fits(world, view),
            forall|situation: &SquadSituation<S>, tactics: &T| #[trigger]
                call_requires(*decide, (world, old(self).owner, view, situation, tactics)),
            forall|decision: &SquadDecision<S, P>, orders: &MemberOrders| #[trigger]
                call_requires(*fight, (view, decision, orders)),
            forall|decision: &SquadDecision<S, P>, orders: &MemberOrders| #[trigger]
                call_requires(*maneuver, (view, decision, orders)),
            forall|reqs: &Vec<MoveRequest>, config: &C, cache: &K| #[trigger]
                call_requires(*route, (world, old(self).owner, reqs, config, cache)),
        ensures
            exists|tick: ManagedTick<S, P>| #[trigger]
                old(self).steps_to(
                    world,
                    view,
                    *decide,
                    *fight,
                    *maneuver,
                    *route,
                    tick,
                    *final(self),
                    intents@,
                ),
    {
        let ghost before = *self;
        let ghost mut tick: ManagedTick<S, P> = arbitrary();
        if !self.any_living(world) {
            let intents = Intents::new();
            assert(old(self).steps_to(
                world,
                view,
                *decide,
                *fight,
                *maneuver,
                *route,
                tick,
                *final(self),
                intents@,
            ));
            return intents;
        }
        let mut move_reqs = self.travel_requests(world);
        let present = self.find_present(world, view);
        let mut intents = Intents::new();
        if present.len() == 0 {
            let (steps, cache) = route(
                world,
                self.owner,
                &move_reqs,
                &self.mover_config,
                &self.move_cache,
            );
            intents.set_moves(&steps);
            self.move_cache = cache;
            proof {
                tick = ManagedTick { reqs: move_reqs, steps, ..tick };
            }
            assert(old(self).steps_to(
                world,
                view,
                *decide,
                *fight,
                *maneuver,
                *route,
                tick,
                *final(self),
                intents@,
            ));
            return intents;
        }
        self.enemy_stall.observe(sum_hostile_hits(view));
        self.structure_stall.observe(sum_structure_hits(view));
        let situation = self.pose(world, view, &present);
        let decision = decide(world, self.owner, view, &situation, &self.tactics);
        self.state = decision.state;
        let ghost travelling = request_views(move_reqs@);
        let ghost mut fights: Seq<Vec<CombatIntent>> = Seq::empty();
        let ghost mut maneuvers: Seq<Vec<CombatIntent>> = Seq::empty();
        let mut idx: usize = 0;
        proof {
            assert(request_views(move_reqs@) =~= travelling + before.fight_requests(
                decision,
                present@,
                view.friends@,
                maneuvers,
                0,
            ));
        }
        while idx < present.len()
            invariant
                idx <= present@.len(),
                fights.len() == idx,
                maneuvers.len() == idx,
                *self == (ManagedSimSquad {
                    state: self.state,
                    enemy_stall: self.enemy_stall,
                    structure_stall: self.structure_stall,
                    ..before
                }),
                forall|decision: &SquadDecision<S, P>, orders: &MemberOrders| #[trigger]
                    call_requires(*fight, (view, decision, orders)),
                forall|decision: &SquadDecision<S, P>, orders: &MemberOrders| #[trigger]
                    call_requires(*maneuver, (view, decision, orders)),
                forall|i: int|
                    0 <= i < present@.len() ==> (#[trigger] present@[i]).1 < view.friends@.len(),
                before.consulted(
                    decision,
                    present@,
                    view,
                    *fight,
                    *maneuver,
                    fights,
                    maneuvers,
                    idx as int,
                ),
                request_views(move_reqs@) == travelling + before.fight_requests(
                    decision,
                    present@,
                    view.friends@,
                    maneuvers,
                    idx as int,
                ),
                intents@ == (IntentsView {
                    creeps: before.fight_orders(decision, present@, fights, idx as int),
                    moves: Map::empty(),
                    towers: Map::empty(),
                }),
            decreases present@.len() - idx,
        {
            let (member_id, friend) = present[idx];
            let orders = decision.member_orders(self.objective, &present, view, idx);
            let ghost mut fought: Vec<CombatIntent> = arbitrary();
            let chosen_by_kernel = idx < decision.member_intents.len()
                && decision.member_intents[idx].len() > 0;
            let actions = if chosen_by_kernel {
                engine_actions(&decision.member_intents[idx])
            } else {
                let own = fight(view, &decision, &orders);
                proof {
                    fought = own;
                }
                engine_actions(&own)
            };
            if actions.len() > 0 {
                intents.set(member_id, actions);
            }
            let moving = maneuver(view, &decision, &orders);
            let ghost seen_fights = fights;
            let ghost seen_maneuvers = maneuvers;
            let ghost built = move_reqs@;
            proof {
                fights = seen_fights.push(fought);
                maneuvers = seen_maneuvers.push(moving);
                before.lemma_fights_prefix(
                    decision,
                    present@,
                    view.friends@,
                    seen_fights,
                    fights,
                    idx as int,
                );
                before.lemma_fights_prefix(
                    decision,
                    present@,
                    view.friends@,
                    seen_maneuvers,
                    maneuvers,
                    idx as int,
                );
                lemma_first_move(moving@, member_id);
            }
            if let Some(m) = find_first_move(&moving) {
                let request = self.build_member_request(
                    &decision,
                    member_id,
                    &view.friends[friend],
                    &moving[m],
                );
                if let Some(req) = request {
                    move_reqs.push(req);
                    proof {
                        assert(request_views(move_reqs@) =~= request_views(built).push(req@));
                    }
                }
            }
            proof {
                assert(request_views(move_reqs@) =~= travelling + before.fight_requests(
                    decision,
                    present@,
                    view.friends@,
                    maneuvers,
                    idx + 1,
                ));
            }
            idx = idx + 1;
        }
        push_hold_requests(world, &self.members, &mut move_reqs);
        proof {
            before.lemma_streaks_fit(world, view, decision, maneuvers);
        }
        convert_persistent_doomed_goals(world, &mut move_reqs, &mut self.doomed_streaks);
        let (steps, cache) = route(
            world,
            self.owner,
            &move_reqs,
            &self.mover_config,
            &self.move_cache,
        );
        intents.set_moves(&steps);
        self.move_cache = cache;
        proof {
            tick = ManagedTick { situation, decision, fights, maneuvers, reqs: move_reqs, steps };
        }
        assert(old(self).steps_to(
            world,
            view,
            *decide,
            *fight,
            *maneuver,
            *route,
            tick,
            *final(self),
            intents@,
        ));
        intents
    }
}

/// The first of some intents that moves comes to a request, and one that is not a hold.
proof fn lemma_first_move(intents: Seq<CombatIntent>, id: CreepId)
    ensures
        first_move(intents) matches Some(intent) ==> {
            &&& request_of(id, intent) is Some
            &&& request_of(id, intent)->0.creep == id
        },
    decreases intents.len(),
{
    if intents.len() > 0 {
        lemma_first_move(intents.skip(1), id);
    }
}

impl<S: Copy, T, C, K> ManagedSimSquad<S, T, C, K> {
    /// A living member is either outside the objective's room, or in it; only one in it is ever
    /// decided for, and only one outside it ever travels.
    pub proof fn law_members_fight_or_travel(
        self,
        creeps: Seq<SimCreep>,
        friends: Seq<FriendView>,
        id: CreepId,
    )
        ensures
            self.outsiders(creeps).contains(id) <==> self.members@.contains(id) && first_living(
                creeps,
                id,
            ) is Some && !in_room(creeps, self.objective.room_name(), id),
            forall|i: int|
                0 <= i < self.present(creeps, friends).len() ==> {
                    let shown = #[trigger] self.present(creeps, friends)[i];
                    &&& self.members@.contains(shown.0)
                    &&& in_room(creeps, self.objective.room_name(), shown.0)
                    &&& !self.outsiders(creeps).contains(shown.0)
                },
    {
        let room = self.objective.room_name();
        self.lemma_outsider(creeps, id);
        let keep = shown_inside(creeps, room, friends);
        let present = self.present(creeps, friends);
        assert forall|i: int| 0 <= i < present.len() implies {
            let shown = #[trigger] present[i];
            &&& self.members@.contains(shown.0)
            &&& in_room(creeps, room, shown.0)
            &&& !self.outsiders(creeps).contains(shown.0)
        } by {
            let shown = present[i];
            assert(present.contains(shown));
            lemma_filter_map_contains(self.members@, keep, shown);
            let m = choose|m: int|
                0 <= m < self.members@.len() && #[trigger] keep(self.members@[m]) == Some(shown);
            assert(self.members@.contains(self.members@[m]));
            self.lemma_outsider(creeps, shown.0);
        }
    }

    proof fn lemma_outsider(self, creeps: Seq<SimCreep>, id: CreepId)
        ensures
            self.outsiders(creeps).contains(id) <==> self.members@.contains(id) && first_living(
                creeps,
                id,
            ) is Some && !in_room(creeps, self.objective.room_name(), id),
    {
        let out = living_outside(creeps, self.objective.room_name());
        lemma_filter_map_contains(self.members@, out, id);
        if self.outsiders(creeps).contains(id) {
            let m = choose|m: int|
                0 <= m < self.members@.len() && #[trigger] out(self.members@[m]) == Some(id);
            assert(self.members@[m] == id);
        }
        if self.members@.contains(id) && first_living(creeps, id) is Some && !in_room(
            creeps,
            self.objective.room_name(),
            id,
        ) {
            let m = choose|m: int| 0 <= m < self.members@.len() && self.members@[m] == id;
            assert(out(self.members@[m]) == Some(id));
        }
    }

    /// No living member ends a tick without a request, also once the damper has passed.
    pub proof fn law_no_living_member_is_requestless<P>(
        self,
        creeps: Seq<SimCreep>,
        friends: Seq<FriendView>,
        decision: SquadDecision<S, P>,
        maneuvers: Seq<Vec<CombatIntent>>,
        id: CreepId,
    )
        requires
            self.members@.contains(id),
            first_living(creeps, id) is Some,
        ensures
            ({
                let all = self.all_requests(creeps, friends, decision, maneuvers);
                let damped = damp(
                    all,
                    creeps,
                    streak_view(self.doomed_streaks@),
                    all.len() as int,
                );
                requested(all, id) && requested(damped.reqs, id)
            }),
    {
        let present = self.present(creeps, friends);
        let made = self.travel(creeps) + self.fight_requests(
            decision,
            present,
            friends,
            maneuvers,
            present.len() as int,
        );
        let all = self.all_requests(creeps, friends, decision, maneuvers);
        let streaks = streak_view(self.doomed_streaks@);
        let damped = damp(all, creeps, streaks, all.len() as int);
        law_no_living_member_without_request(creeps, self.members@, made, id);
        law_damper_only_holds_doomed_goals(all, creeps, streaks, all.len() as int);
        let i = choose|i: int| 0 <= i < all.len() && (#[trigger] all[i]).creep == id;
        assert(damped.reqs[i].creep == id);
    }

    /// A member present whose fight comes to any action has orders, wherever its squadmates are:
    /// one that is still outside never keeps the others from fighting.
    pub proof fn law_present_members_fight<P>(
        self,
        decision: SquadDecision<S, P>,
        present: Seq<(CreepId, usize)>,
        fights: Seq<Vec<CombatIntent>>,
        i: int,
        k: int,
    )
        requires
            0 <= i < k <= present.len(),
            filter_map(
                if decision.acts(i) {
                    decision.member_intents@[i]@
                } else {
                    fights[i]@
                },
                carried_action(),
            ).len() > 0,
        ensures
            self.fight_orders(decision, present, fights, k).dom().contains(present[i].0),
            self.fight_orders(decision, present, fights, k)[present[i].0].len() > 0,
        decreases k,
    {
        if i < k - 1 {
            self.law_present_members_fight(decision, present, fights, i, k - 1);
        }
    }

    /// While the squad retreats, a member outside the objective's room is never sent back to it:
    /// it gets away from the hostiles of its room, or stays on its tile.
    pub proof fn law_retreat_never_marches_back(self, creeps: Seq<SimCreep>, i: int)
        requires
            self.state is Retreating,
            0 <= i < self.travel(creeps).len(),
        ensures
            ({
                let req = self.travel(creeps)[i];
                &&& first_living(creeps, req.creep) matches Some(c)
                &&& {
                    ||| req == MoveRequestView::hold(req.creep, c.pos)
                    ||| req.goal == MoveGoalView::Flee {
                        from: filter_map(
                            creeps,
                            hostile_pos(c.pos.room_name(), self.owner),
                        ),
                        range: FLEE_RANGE,
                    }
                }
            }),
    {
        let ids = self.outsiders(creeps);
        let keep = self.travel_request(creeps);
        let made = filter_map(ids, keep);
        law_holds_only_claim_own_tiles(creeps, ids, made, i);
        if i < made.len() {
            let req = made[i];
            assert(made.contains(req));
            lemma_filter_map_contains(ids, keep, req);
            let m = choose|m: int| 0 <= m < ids.len() && #[trigger] keep(ids[m]) == Some(req);
            assert(self.travel_goal(creeps, ids[m]) is Some);
        }
    }

    /// While the squad does not retreat, each member outside the objective's room walks to within
    /// one tile of the objective, at the mover's defaults but for its bid.
    pub proof fn law_travellers_head_for_the_objective(self, creeps: Seq<SimCreep>)
        requires
            self.state !is Retreating,
        ensures
            self.travel(creeps) == Seq::new(
                self.outsiders(creeps).len(),
                |i: int|
                    MoveRequestView {
                        priority_value: self.bid(self.outsiders(creeps)[i]),
                        ..MoveRequestView::plain(
                            self.outsiders(creeps)[i],
                            MoveGoalView::To { target: self.objective, range: 1 },
                        )
                    },
            ),
    {
        let ids = self.outsiders(creeps);
        let keep = self.travel_request(creeps);
        let made = filter_map(ids, keep);
        self.lemma_travel_all(creeps, ids);
        assert forall|id: CreepId| #[trigger]
            ids.contains(id) && first_living(creeps, id) is Some implies requested(made, id) by {
            let m = choose|m: int| 0 <= m < ids.len() && ids[m] == id;
            assert(made[m].creep == id);
        }
        law_requested_members_need_no_hold(creeps, ids, made);
        assert(self.travel(creeps) =~= Seq::new(
            self.outsiders(creeps).len(),
            |i: int|
                MoveRequestView {
                    priority_value: self.bid(self.outsiders(creeps)[i]),
                    ..MoveRequestView::plain(
                        self.outsiders(creeps)[i],
                        MoveGoalView::To { target: self.objective, range: 1 },
                    )
                },
        ));
    }

    proof fn lemma_travel_all(self, creeps: Seq<SimCreep>, ids: Seq<CreepId>)
        requires
            self.state !is Retreating,
        ensures
            filter_map(ids, self.travel_request(creeps)).len() == ids.len(),
            forall|i: int|
                0 <= i < ids.len() ==> #[trigger] filter_map(ids, self.travel_request(creeps))[i]
                    == (MoveRequestView {
                    priority_value: self.bid(ids[i]),
                    ..MoveRequestView::plain(
                        ids[i],
                        MoveGoalView::To { target: self.objective, range: 1 },
                    )
                }),
        decreases ids.len(),
    {
        if ids.len() > 0 {
            self.lemma_travel_all(creeps, ids.drop_last());
        }
    }

    /// A fleeing member never shoves, and shoving that is switched off stays off.
    pub proof fn law_fleeing_never_shoves<P>(
        self,
        decision: SquadDecision<S, P>,
        id: CreepId,
        friend: FriendView,
        intent: CombatIntent,
    )
        ensures
            intent is Flee ==> self.member_request(decision, id, friend, intent).shove == Some(
                false,
            ),
            !self.shove_enabled ==> self.member_request(decision, id, friend, intent).shove
                == Some(false),
    {
    }

    /// A hold never bids: whatever bids are set, a request that cannot be displaced carries none.
    pub proof fn law_holds_never_bid<P>(
        self,
        creeps: Seq<SimCreep>,
        friends: Seq<FriendView>,
        decision: SquadDecision<S, P>,
        maneuvers: Seq<Vec<CombatIntent>>,
        i: int,
    )
        requires
            ({
                let all = self.all_requests(creeps, friends, decision, maneuvers);
                let damped = damp(
                    all,
                    creeps,
                    streak_view(self.doomed_streaks@),
                    all.len() as int,
                );
                &&& 0 <= i < damped.reqs.len()
                &&& damped.reqs[i].priority == MovementPriority::Immovable
            }),
        ensures
            ({
                let all = self.all_requests(creeps, friends, decision, maneuvers);
                let damped = damp(
                    all,
                    creeps,
                    streak_view(self.doomed_streaks@),
                    all.len() as int,
                );
                damped.reqs[i].priority_value is None
            }),
    {
        let present = self.present(creeps, friends);
        let travelling = self.travel(creeps);
        let fighting = self.fight_requests(
            decision,
            present,
            friends,
            maneuvers,
            present.len() as int,
        );
        let all = self.all_requests(creeps, friends, decision, maneuvers);
        let streaks = streak_view(self.doomed_streaks@);
        law_damper_only_holds_doomed_goals(all, creeps, streaks, all.len() as int);
        let damped = damp(all, creeps, streaks, all.len() as int);
        if damped.reqs[i] == all[i] {
            law_holds_only_claim_own_tiles(
                creeps,
                self.members@,
                travelling + fighting,
                i,
            );
            if i < travelling.len() {
                let ids = self.outsiders(creeps);
                let keep = self.travel_request(creeps);
                let made = filter_map(ids, keep);
                law_holds_only_claim_own_tiles(creeps, ids, made, i);
                if i < made.len() {
                    assert(made.contains(made[i]));
                    lemma_filter_map_contains(ids, keep, made[i]);
                }
            } else if i < travelling.len() + fighting.len() {
                self.lemma_fighters_never_hold(
                    decision,
                    present,
                    friends,
                    maneuvers,
                    present.len() as int,
                    i - travelling.len(),
                );
            }
        }
    }

    proof fn lemma_fighters_never_hold<P>(
        self,
        decision: SquadDecision<S, P>,
        present: Seq<(CreepId, usize)>,
        friends: Seq<FriendView>,
        maneuvers: Seq<Vec<CombatIntent>>,
        k: int,
        i: int,
    )
        requires
            0 <= k <= present.len(),
            0 <= i < self.fight_requests(decision, present, friends, maneuvers, k).len(),
        ensures
            self.fight_requests(decision, present, friends, maneuvers, k)[i].priority
                != MovementPriority::Immovable,
        decreases k,
    {
        if k > 0 {
            let before = self.fight_requests(decision, present, friends, maneuvers, k - 1);
            if i < before.len() {
                self.lemma_fighters_never_hold(
                    decision,
                    present,
                    friends,
                    maneuvers,
                    k - 1,
                    i,
                );
            }
        }
    }
}

/// A tracker that has just begun counts exactly the ticks since the first over which the total has
/// not gone down.
pub proof fn law_stall_counts_no_other_ticks(totals: Seq<u32>)
    requires
        0 < totals.len() <= u32::MAX,
        never_drops(totals),
    ensures
        after_totals(StallTracker::fresh(), totals).ticks == totals.len() - 1,
    decreases totals.len(),
{
    let init = totals.drop_last();
    if init.len() > 0 {
        assert(never_drops(init));
        law_stall_counts_no_other_ticks(init);
        law_stall_counts_ticks_without_headway(StallTracker::fresh(), init);
        assert(init.last() == totals[totals.len() - 2]);
        assert(totals[totals.len() - 2] <= totals[totals.len() - 1]);
    } else {
        assert(after_totals(StallTracker::fresh(), init) == StallTracker::fresh());
    }
}

/// Each hostile adds its hits to the total, each hostile structure adds its own, and a structure of
/// any other side adds nothing.
pub proof fn law_hostile_hits_add_up(
    hostiles: Seq<HostileView>,
    hostile: HostileView,
    structures: Seq<StructureView>,
    structure: StructureView,
)
    ensures
        hostile_hits(Seq::empty()) == 0,
        hostile_hits(hostiles.push(hostile)) == hostile_hits(hostiles) + hostile.hits,
        hostile_structure_hits(Seq::empty()) == 0,
        structure.ownership == Ownership::Hostile ==> hostile_structure_hits(
            structures.push(structure),
        ) == hostile_structure_hits(structures) + structure.hits,
        structure.ownership != Ownership::Hostile ==> hostile_structure_hits(
            structures.push(structure),
        ) == hostile_structure_hits(structures),
{
    assert(hostiles.push(hostile).drop_last() =~= hostiles);
    assert(structures.push(structure).drop_last() =~= structures);
}

/// Whether assignment `a` is a healer's, and the first that is.
pub open spec fn assigned_first(
    assignments: Seq<HealAssignment>,
    healer: int,
    a: int,
) -> bool {
    &&& 0 <= a < assignments.len()
    &&& assignments[a].healer_idx == healer
    &&& forall|j: int| 0 <= j < a ==> (#[trigger] assignments[j]).healer_idx != healer
}

/// Of several assignments of a healer the first counts; a healer without one has none.
pub proof fn law_first_assignment_counts(assignments: Seq<HealAssignment>, healer: int)
    ensures
        forall|a: int| #[trigger]
            assigned_first(assignments, healer, a) ==> assignment_of(assignments, healer) == Some(
                assignments[a],
            ),
        assignment_of(assignments, healer) is None <==> forall|j: int|
            0 <= j < assignments.len() ==> (#[trigger] assignments[j]).healer_idx != healer,
    decreases assignments.len(),
{
    if assignments.len() > 0 {
        let rest = assignments.skip(1);
        law_first_assignment_counts(rest, healer);
        assert(forall|j: int| 0 <= j < rest.len() ==> #[trigger] rest[j] == assignments[j + 1]);
        let here = assignments[0].healer_idx == healer;
        assert forall|a: int| #[trigger] assigned_first(assignments, healer, a) implies
            assignment_of(assignments, healer) == Some(assignments[a]) by {
            if here {
                assert(a == 0);
            } else {
                assert(a > 0);
                assert(assigned_first(rest, healer, a - 1));
            }
        }
        if !here && assignment_of(rest, healer) is None {
            assert forall|j: int| 0 <= j < assignments.len() implies (
            #[trigger] assignments[j]).healer_idx != healer by {
                if j > 0 {
                    assert(rest[j - 1] == assignments[j]);
                }
            }
        }
    }
}

/// Whether intent `g` moves, and is the first that does.
pub open spec fn moves_first(intents: Seq<CombatIntent>, g: int) -> bool {
    &&& 0 <= g < intents.len()
    &&& intents[g] is MoveTo || intents[g] is Flee
    &&& forall|j: int| 0 <= j < g ==> !(#[trigger] intents[j] is MoveTo || intents[j] is Flee)
}

/// Of several intents that move the first counts.
pub proof fn law_first_move_counts(intents: Seq<CombatIntent>)
    ensures
        forall|g: int| #[trigger]
            moves_first(intents, g) ==> first_move(intents) == Some(intents[g]),
        first_move(intents) is Some ==> exists|g: int| #[trigger] moves_first(intents, g),
    decreases intents.len(),
{
    if intents.len() > 0 {
        let rest = intents.skip(1);
        law_first_move_counts(rest);
        assert(forall|j: int| 0 <= j < rest.len() ==> #[trigger] rest[j] == intents[j + 1]);
        let here = intents[0] is MoveTo || intents[0] is Flee;
        if here {
            assert(moves_first(intents, 0));
        }
        assert forall|g: int| #[trigger] moves_first(intents, g) implies first_move(intents)
            == Some(intents[g]) by {
            if here {
                assert(g == 0);
            } else {
                assert(g > 0);
                assert(moves_first(rest, g - 1));
            }
        }
        if !here && first_move(rest) is Some {
            let g = choose|g: int| #[trigger] moves_first(rest, g);
            assert forall|j: int| 0 <= j < g + 1 implies !(#[trigger] intents[j] is MoveTo
                || intents[j] is Flee) by {
                if j > 0 {
                    assert(rest[j - 1] == intents[j]);
                }
            }
            assert(moves_first(intents, g + 1));
        }
    }
}

impl<S: Copy, P> SquadDecision<S, P> {
    /// A healer is told to heal the member that its first assignment names, by the place of that
    /// member in the list of those present and by where the view shows that very creep, wherever
    /// the view lists it. Without an assignment, or with one that names nobody present, it heals
    /// nobody.
    pub proof fn law_healers_heal_whom_they_are_assigned(
        self,
        objective: Position,
        present: Seq<(CreepId, usize)>,
        friends: Seq<FriendView>,
        idx: int,
    )
        requires
            0 <= idx < present.len(),
            forall|i: int|
                0 <= i < present.len() ==> shown_first(
                    friends,
                    (#[trigger] present[i]).0,
                    present[i].1 as int,
                ),
        ensures
            forall|a: int, f: int|
                {
                    let t = self.heal_assignments@[a].target_idx as int;
                    &&& #[trigger] assigned_first(self.heal_assignments@, idx, a)
                    &&& t < present.len()
                    &&& 0 <= f < friends.len()
                    &&& (#[trigger] friends[f]).creep == present[t].0
                    &&& forall|j: int| 0 <= j < f ==> (#[trigger] friends[j]).creep != present[t].0
                } ==> self.orders(objective, present, friends, idx).heal_target == Some(
                    FocusTarget { pos: friends[f].pos, id: friends[f].id },
                ),
            forall|a: int| #[trigger]
                assigned_first(self.heal_assignments@, idx, a)
                    && self.heal_assignments@[a].target_idx >= present.len() ==> self.orders(
                    objective,
                    present,
                    friends,
                    idx,
                ).heal_target is None,
            (forall|j: int|
                0 <= j < self.heal_assignments@.len() ==> (
                #[trigger] self.heal_assignments@[j]).healer_idx != idx) ==> self.orders(
                objective,
                present,
                friends,
                idx,
            ).heal_target is None,
    {
        law_first_assignment_counts(self.heal_assignments@, idx);
        assert forall|a: int, f: int|
            {
                let t = self.heal_assignments@[a].target_idx as int;
                &&& #[trigger] assigned_first(self.heal_assignments@, idx, a)
                &&& t < present.len()
                &&& 0 <= f < friends.len()
                &&& (#[trigger] friends[f]).creep == present[t].0
                &&& forall|j: int| 0 <= j < f ==> (#[trigger] friends[j]).creep != present[t].0
            } implies self.orders(objective, present, friends, idx).heal_target == Some(
            FocusTarget { pos: friends[f].pos, id: friends[f].id },
        ) by {
            let t = self.heal_assignments@[a].target_idx as int;
            assert(shown_first(friends, present[t].0, present[t].1 as int));
            assert(present[t].1 == f);
        }
    }

    /// A member's orders are its own: they name it and where the view shows it, its own focus and
    /// tile where the decision has one for it and the shared ones where not, and the squad's center
    /// and radius, with the objective for a center where the decision has none.
    pub proof fn law_orders_are_the_members_own(
        self,
        objective: Position,
        present: Seq<(CreepId, usize)>,
        friends: Seq<FriendView>,
        idx: int,
    )
        requires
            0 <= idx < present.len(),
        ensures
            ({
                let orders = self.orders(objective, present, friends, idx);
                let own_focus = idx < self.focus_assignments@.len()
                    && self.focus_assignments@[idx] is Some;
                let own_tile = idx < self.member_goals@.len() && self.member_goals@[idx] is Some;
                &&& (orders.member, orders.friend) == present[idx]
                &&& orders.room == objective.room_name()
                &&& orders.cohesion_radius == self.cohesion_radius
                &&& self.center is Some ==> Some(orders.center) == self.center
                &&& self.center is None ==> orders.center == objective
                &&& own_focus ==> orders.focus == self.focus_assignments@[idx]
                &&& !own_focus ==> orders.focus == self.focus
                &&& own_tile ==> {
                    &&& orders.movement matches MemberMovement::Advance { goal, range }
                    &&& Some(goal) == self.member_goals@[idx]
                    &&& range == 0
                }
                &&& !own_tile ==> orders.movement == MemberMovement::Shared
            }),
    {
    }
}

/// Whether two views show the same friends, in whatever order, each once.
pub open spec fn same_friends(a: Seq<FriendView>, b: Seq<FriendView>) -> bool {
    &&& forall|i: int| 0 <= i < a.len() ==> b.contains(#[trigger] a[i])
    &&& forall|i: int| 0 <= i < b.len() ==> a.contains(#[trigger] b[i])
    &&& forall|i: int, j: int| 0 <= i < j < a.len() ==> a[i].creep != a[j].creep
    &&& forall|i: int, j: int| 0 <= i < j < b.len() ==> b[i].creep != b[j].creep
}

proof fn lemma_same_friend(a: Seq<FriendView>, b: Seq<FriendView>, id: CreepId)
    requires
        same_friends(a, b),
    ensures
        friend_of(a, id) is Some <==> friend_of(b, id) is Some,
        friend_of(a, id) is Some ==> a[friend_of(a, id)->0] == b[friend_of(b, id)->0],
{
    law_first_friend_is_found(a, id);
    law_first_friend_is_found(b, id);
    if friend_of(a, id) is Some {
        let f = a[friend_of(a, id)->0];
        assert(b.contains(f));
        let j = choose|j: int| 0 <= j < b.len() && b[j] == f;
        assert(b[j].creep == id);
        assert(b[friend_of(b, id)->0].creep == id);
    }
    if friend_of(b, id) is Some {
        let f = b[friend_of(b, id)->0];
        assert(a.contains(f));
        let j = choose|j: int| 0 <= j < a.len() && a[j] == f;
        assert(a[j].creep == id);
    }
}

proof fn lemma_same_present(
    creeps: Seq<SimCreep>,
    room: RoomName,
    members: Seq<CreepId>,
    a: Seq<FriendView>,
    b: Seq<FriendView>,
)
    requires
        same_friends(a, b),
        a.len() <= usize::MAX,
        b.len() <= usize::MAX,
    ensures
        ({
            let p = filter_map(members, shown_inside(creeps, room, a));
            let q = filter_map(members, shown_inside(creeps, room, b));
            &&& p.len() == q.len()
            &&& forall|i: int|
                #![trigger p[i]]
                #![trigger q[i]]
                0 <= i < p.len() ==> p[i].0 == q[i].0 && a[p[i].1 as int] == b[q[i].1 as int]
        }),
    decreases members.len(),
{
    if members.len() > 0 {
        lemma_same_present(creeps, room, members.drop_last(), a, b);
        lemma_same_friend(a, b, members.last());
        law_first_friend_is_found(a, members.last());
        law_first_friend_is_found(b, members.last());
    }
}

/// Which of the first `n` members present have a move to make.
pub open spec fn movers(maneuvers: Seq<Vec<CombatIntent>>, n: int) -> Set<int> {
    Set::new(|i: int| 0 <= i < n && exists|g: int| moves_first(maneuvers[i]@, g))
}

/// Whether creep `k` is that one, lives, and is in `room`.
pub open spec fn lives_in(creeps: Seq<SimCreep>, room: RoomName, id: CreepId, k: int) -> bool {
    &&& 0 <= k < creeps.len()
    &&& creeps[k].id == id
    &&& creeps[k].alive
    &&& creeps[k].pos.room_name() == room
}

impl<S: Copy, T, C, K> ManagedSimSquad<S, T, C, K> {
    /// The order in which a view lists the friends plays no part: the same members are present, and
    /// each has the same orders and heals the same creep, but for where the view lists it.
    pub proof fn law_order_of_the_view_plays_no_part<P>(
        self,
        creeps: Seq<SimCreep>,
        one: &SimView,
        other: &SimView,
        decision: SquadDecision<S, P>,
        idx: int,
    )
        requires
            same_friends(one.friends@, other.friends@),
            0 <= idx < self.present(creeps, one.friends@).len(),
        ensures
            self.present(creeps, one.friends@).len() == self.present(creeps, other.friends@).len(),
            ({
                let a = decision.orders(
                    self.objective,
                    self.present(creeps, one.friends@),
                    one.friends@,
                    idx,
                );
                let b = decision.orders(
                    self.objective,
                    self.present(creeps, other.friends@),
                    other.friends@,
                    idx,
                );
                &&& a.heal_target == b.heal_target
                &&& a == MemberOrders { friend: a.friend, ..b }
                &&& one.friends@[a.friend as int] == other.friends@[b.friend as int]
            }),
    {
        let p = self.present(creeps, one.friends@);
        let q = self.present(creeps, other.friends@);
        assert(one.friends.len() == one.friends@.len());
        assert(other.friends.len() == other.friends@.len());
        lemma_same_present(
            creeps,
            self.objective.room_name(),
            self.members@,
            one.friends@,
            other.friends@,
        );
        assert(p[idx].0 == q[idx].0);
        if let Some(a) = assignment_of(decision.heal_assignments@, idx) {
            if a.target_idx < p.len() {
                assert(p[a.target_idx as int].0 == q[a.target_idx as int].0);
            }
        }
    }

    /// Whether a living creep of that id is in the objective's room, and friend `f` shows it.
    pub open spec fn is_here(
        self,
        creeps: Seq<SimCreep>,
        friends: Seq<FriendView>,
        id: CreepId,
        f: int,
    ) -> bool {
        &&& shown_first(friends, id, f)
        &&& exists|k: int| #[trigger] lives_in(creeps, self.objective.room_name(), id, k)
    }

    /// Whether a living creep of an id is in the objective's room and some friend shows it.
    pub open spec fn here(self, creeps: Seq<SimCreep>, friends: Seq<FriendView>) -> spec_fn(
        CreepId,
    ) -> bool {
        |id: CreepId| exists|f: int| self.is_here(creeps, friends, id, f)
    }

    /// Present are just the members of which a living creep is in the objective's room and the view
    /// shows one, in slot order, each with the place where the view first shows it.
    pub proof fn law_present_are_the_members_shown_in_the_room(
        self,
        creeps: Seq<SimCreep>,
        view: &SimView,
    )
        ensures
            ({
                let present = self.present(creeps, view.friends@);
                &&& forall|i: int|
                    0 <= i < present.len() ==> {
                        &&& self.members@.contains((#[trigger] present[i]).0)
                        &&& self.is_here(
                            creeps,
                            view.friends@,
                            present[i].0,
                            present[i].1 as int,
                        )
                    }
                &&& forall|m: int, f: int|
                    #![trigger self.is_here(creeps, view.friends@, self.members@[m], f)]
                    0 <= m < self.members@.len() && self.is_here(
                        creeps,
                        view.friends@,
                        self.members@[m],
                        f,
                    ) ==> {
                        let i = count_where(
                            self.members@.take(m),
                            self.here(creeps, view.friends@),
                        ) as int;
                        &&& i < present.len()
                        &&& present[i].0 == self.members@[m]
                        &&& present[i].1 == f
                    }
                &&& present.len() == count_where(
                    self.members@,
                    self.here(creeps, view.friends@),
                )
            }),
    {
        let friends = view.friends@;
        let room = self.objective.room_name();
        let keep = shown_inside(creeps, room, friends);
        let present = self.present(creeps, friends);
        assert(view.friends.len() == view.friends@.len());
        assert forall|id: CreepId, f: int| #[trigger] self.is_here(creeps, friends, id, f) implies
            keep(id) == Some((id, f as usize)) by {
            law_first_friend_is_found(friends, id);
            let k = choose|k: int| #[trigger] lives_in(creeps, room, id, k);
            assert(creeps[k].id == id);
        }
        assert forall|id: CreepId| #[trigger] keep(id) is Some implies self.is_here(
            creeps,
            friends,
            id,
            (keep(id)->0).1 as int,
        ) && (keep(id)->0).0 == id by {
            law_first_friend_is_found(friends, id);
            let k = choose|k: int|
                {
                    &&& 0 <= k < creeps.len()
                    &&& (#[trigger] creeps[k]).id == id
                    &&& creeps[k].alive
                    &&& creeps[k].pos.room_name() == room
                };
            assert(lives_in(creeps, room, id, k));
        }
        assert forall|i: int| 0 <= i < present.len() implies {
            &&& self.members@.contains((#[trigger] present[i]).0)
            &&& self.is_here(creeps, friends, present[i].0, present[i].1 as int)
        } by {
            assert(present.contains(present[i]));
            lemma_filter_map_contains(self.members@, keep, present[i]);
            let m = choose|m: int|
                0 <= m < self.members@.len() && #[trigger] keep(self.members@[m]) == Some(
                    present[i],
                );
            assert(self.members@.contains(self.members@[m]));
        }
        let here = self.here(creeps, friends);
        assert forall|id: CreepId| #[trigger] keep(id) is Some <==> here(id) by {
            if keep(id) is Some {
                assert(self.is_here(creeps, friends, id, (keep(id)->0).1 as int));
            }
        }
        lemma_filter_map_count(self.members@, keep, here);
        assert forall|m: int, f: int|
            #![trigger self.is_here(creeps, view.friends@, self.members@[m], f)]
            0 <= m < self.members@.len() && self.is_here(
                creeps,
                view.friends@,
                self.members@[m],
                f,
            ) implies {
            let i = count_where(self.members@.take(m), here) as int;
            &&& i < present.len()
            &&& present[i].0 == self.members@[m]
            &&& present[i].1 == f
        } by {
            assert(keep(self.members@[m]) == Some((self.members@[m], f as usize)));
            lemma_filter_map_index(self.members@, keep, here, m);
        }
    }
}

impl<S: Copy, T, C, K> ManagedSimSquad<S, T, C, K> {
    /// Whether a living creep of that id stands at `k`, the first of its id, and none of its id is
    /// in the objective's room.
    pub open spec fn is_away(self, creeps: Seq<SimCreep>, id: CreepId, k: int) -> bool {
        &&& lives_first(creeps, id, k)
        &&& forall|j: int| !(#[trigger] lives_in(creeps, self.objective.room_name(), id, j))
    }

    /// Whether some creep of an id lives, and none of it in the objective's room.
    pub open spec fn away(self, creeps: Seq<SimCreep>) -> spec_fn(CreepId) -> bool {
        |id: CreepId| exists|k: int| self.is_away(creeps, id, k)
    }

    /// The members that are away come in slot order, and there are no others.
    pub proof fn law_outsiders_are_the_members_away(self, creeps: Seq<SimCreep>)
        ensures
            self.outsiders(creeps).len() == count_where(self.members@, self.away(creeps)),
            forall|m: int, k: int|
                #![trigger self.is_away(creeps, self.members@[m], k)]
                0 <= m < self.members@.len() && self.is_away(creeps, self.members@[m], k) ==> {
                    let i = count_where(self.members@.take(m), self.away(creeps)) as int;
                    &&& i < self.outsiders(creeps).len()
                    &&& self.outsiders(creeps)[i] == self.members@[m]
                },
    {
        let out = living_outside(creeps, self.objective.room_name());
        let away = self.away(creeps);
        assert forall|id: CreepId| #[trigger] out(id) is Some <==> away(id) by {
            self.lemma_away(creeps, id);
        }
        lemma_filter_map_count(self.members@, out, away);
        assert forall|m: int, k: int|
            #![trigger self.is_away(creeps, self.members@[m], k)]
            0 <= m < self.members@.len() && self.is_away(creeps, self.members@[m], k) implies {
            let i = count_where(self.members@.take(m), away) as int;
            &&& i < self.outsiders(creeps).len()
            &&& self.outsiders(creeps)[i] == self.members@[m]
        } by {
            self.lemma_away(creeps, self.members@[m]);
            assert(out(self.members@[m]) == Some(self.members@[m]));
            lemma_filter_map_index(self.members@, out, away, m);
        }
    }

    /// Whether creep `j` lives, is of another side, and is in `room`.
    pub open spec fn is_threat(self, creeps: Seq<SimCreep>, room: RoomName, j: int) -> bool {
        &&& 0 <= j < creeps.len()
        &&& creeps[j].alive
        &&& creeps[j].owner != self.owner
        &&& creeps[j].pos.room_name() == room
    }

    /// Whether the tiles are those of the threats in `room`, as many as there are.
    pub open spec fn are_the_threats(
        self,
        creeps: Seq<SimCreep>,
        room: RoomName,
        tiles: Seq<Position>,
    ) -> bool {
        &&& tiles.len() == count_where(
            creeps,
            |c: SimCreep| c.alive && c.owner != self.owner && c.pos.room_name() == room,
        )
        &&& forall|j: int| #[trigger]
            self.is_threat(creeps, room, j) ==> tiles.contains(creeps[j].pos)
    }

    /// Whether a request carries the bid that was set for its creep, and none where none was.
    pub open spec fn bids_as_set(self, req: MoveRequestView) -> bool {
        match req.priority_value {
            Some(bid) => self.priority_bids@.contains_pair(req.creep, bid),
            None => !self.priority_bids@.dom().contains(req.creep),
        }
    }

    /// Whether a request is what a member away from the objective's room, standing at `k`, is
    /// asked: to walk to within one tile of the objective, or in retreat to get away from the
    /// threats of its own room, or to stay where it is if there are none.
    pub open spec fn travels(
        self,
        creeps: Seq<SimCreep>,
        id: CreepId,
        k: int,
        req: MoveRequestView,
    ) -> bool {
        let room = creeps[k].pos.room_name();
        let threatened = exists|j: int| #[trigger] self.is_threat(creeps, room, j);
        if self.state is Retreating && !threatened {
            claims(req, id, creeps[k].pos)
        } else {
            &&& req.creep == id
            &&& req.priority == MovementPriority::Standard
            &&& req.shove is None
            &&& req.anchor is None
            &&& !req.engaged
            &&& self.bids_as_set(req)
            &&& if self.state is Retreating {
                &&& req.goal matches MoveGoalView::Flee { from, range }
                &&& range == 8
                &&& self.are_the_threats(creeps, room, from)
            } else {
                req.goal == MoveGoalView::To { target: self.objective, range: 1 }
            }
        }
    }

    /// Whether a request is what some member away from the objective's room is asked.
    pub open spec fn is_a_travellers(self, creeps: Seq<SimCreep>, req: MoveRequestView) -> bool {
        exists|m: int, k: int|
            {
                &&& 0 <= m < self.members@.len()
                &&& #[trigger] self.is_away(creeps, self.members@[m], k)
                &&& self.travels(creeps, self.members@[m], k, req)
            }
    }

    /// Whether `reqs` asks each member that is away, and nobody else, once.
    pub open spec fn asks_the_travellers(
        self,
        creeps: Seq<SimCreep>,
        reqs: Seq<MoveRequestView>,
    ) -> bool {
        &&& forall|m: int, k: int|
            #![trigger self.is_away(creeps, self.members@[m], k)]
            0 <= m < self.members@.len() && self.is_away(creeps, self.members@[m], k)
                ==> exists|q: int|
                0 <= q < reqs.len() && self.travels(
                    creeps,
                    self.members@[m],
                    k,
                    #[trigger] reqs[q],
                )
        &&& forall|q: int|
            0 <= q < reqs.len() ==> self.is_a_travellers(creeps, #[trigger] reqs[q])
        &&& reqs.len() == count_where(self.members@, self.away(creeps))
    }

    proof fn lemma_away(self, creeps: Seq<SimCreep>, id: CreepId)
        ensures
            forall|k: int| #[trigger]
                self.is_away(creeps, id, k) ==> first_living(creeps, id) == Some(creeps[k]),
            (exists|k: int| #[trigger] self.is_away(creeps, id, k)) <==> first_living(
                creeps,
                id,
            ) is Some && !in_room(creeps, self.objective.room_name(), id),
    {
        let room = self.objective.room_name();
        law_first_living_creep_is_found(creeps, id);
        if in_room(creeps, room, id) {
            let j = choose|j: int|
                {
                    &&& 0 <= j < creeps.len()
                    &&& (#[trigger] creeps[j]).id == id
                    &&& creeps[j].alive
                    &&& creeps[j].pos.room_name() == room
                };
            assert(lives_in(creeps, room, id, j));
        } else if first_living(creeps, id) is Some {
            let k = choose|k: int| #[trigger] lives_first(creeps, id, k);
            assert forall|j: int| !(#[trigger] lives_in(creeps, room, id, j)) by {
                if lives_in(creeps, room, id, j) {
                    assert(creeps[j].id == id);
                }
            }
            assert(self.is_away(creeps, id, k));
        }
    }

    proof fn lemma_threats(self, creeps: Seq<SimCreep>, room: RoomName)
        ensures
            self.are_the_threats(
                creeps,
                room,
                filter_map(creeps, hostile_pos(room, self.owner)),
            ),
            filter_map(creeps, hostile_pos(room, self.owner)).len() > 0 <==> exists|j: int|
                #[trigger] self.is_threat(creeps, room, j),
    {
        let keep = hostile_pos(room, self.owner);
        let tiles = filter_map(creeps, keep);
        let p = |c: SimCreep| c.alive && c.owner != self.owner && c.pos.room_name() == room;
        lemma_filter_map_count(creeps, keep, p);
        assert forall|j: int| #[trigger] self.is_threat(creeps, room, j) implies tiles.contains(
            creeps[j].pos,
        ) by {
            lemma_filter_map_contains(creeps, keep, creeps[j].pos);
            assert(keep(creeps[j]) == Some(creeps[j].pos));
        }
        if tiles.len() > 0 {
            assert(tiles.contains(tiles[0]));
            lemma_filter_map_contains(creeps, keep, tiles[0]);
            let j = choose|j: int|
                0 <= j < creeps.len() && #[trigger] keep(creeps[j]) == Some(tiles[0]);
            assert(self.is_threat(creeps, room, j));
        }
        if exists|j: int| #[trigger] self.is_threat(creeps, room, j) {
            let j = choose|j: int| #[trigger] self.is_threat(creeps, room, j);
            assert(tiles.contains(creeps[j].pos));
        }
    }

    proof fn lemma_travels(self, creeps: Seq<SimCreep>, id: CreepId, k: int)
        requires
            self.is_away(creeps, id, k),
        ensures
            self.travel_request(creeps)(id) matches Some(req) ==> self.travels(creeps, id, k, req),
            self.travel_request(creeps)(id) is None ==> self.travels(
                creeps,
                id,
                k,
                MoveRequestView::hold(id, creeps[k].pos),
            ),
    {
        self.lemma_away(creeps, id);
        self.lemma_threats(creeps, creeps[k].pos.room_name());
    }

    /// Each member away from the objective's room is asked to walk to the objective, or in retreat
    /// to get away from the living creeps of other sides in its own room, or to stay where there
    /// are none; and nobody else is asked with them.
    pub proof fn law_each_traveller_is_asked_once(self, creeps: Seq<SimCreep>)
        ensures
            self.asks_the_travellers(creeps, self.travel(creeps)),
    {
        let ids = self.outsiders(creeps);
        let keep = self.travel_request(creeps);
        let made = filter_map(ids, keep);
        let hold = hold_of(creeps, made);
        let holds = filter_map(ids, hold);
        let reqs = self.travel(creeps);
        assert forall|m: int| 0 <= m < ids.len() implies {
            &&& self.members@.contains(#[trigger] ids[m])
            &&& first_living(creeps, ids[m]) is Some
            &&& !in_room(creeps, self.objective.room_name(), ids[m])
        } by {
            assert(ids.contains(ids[m]));
            self.lemma_outsider(creeps, ids[m]);
        }
        assert forall|m: int| 0 <= m < ids.len() implies (hold(#[trigger] ids[m]) is Some <==> keep(
            ids[m],
        ) is None) by {
            if keep(ids[m]) is Some {
                let req = keep(ids[m])->0;
                lemma_filter_map_contains(ids, keep, req);
                let q = choose|q: int| 0 <= q < made.len() && made[q] == req;
                assert(made[q].creep == ids[m]);
            } else if requested(made, ids[m]) {
                let q = choose|q: int| 0 <= q < made.len() && (#[trigger] made[q]).creep == ids[m];
                assert(made.contains(made[q]));
                lemma_filter_map_contains(ids, keep, made[q]);
            }
        }
        assert forall|m: int, k: int|
            #![trigger self.is_away(creeps, self.members@[m], k)]
            0 <= m < self.members@.len() && self.is_away(
                creeps,
                self.members@[m],
                k,
            ) implies exists|q: int|
            0 <= q < reqs.len() && self.travels(
                creeps,
                self.members@[m],
                k,
                #[trigger] reqs[q],
            ) by {
            let id = self.members@[m];
            self.lemma_away(creeps, id);
            self.lemma_outsider(creeps, id);
            self.lemma_travels(creeps, id, k);
            assert(ids.contains(id));
            let i = choose|i: int| 0 <= i < ids.len() && ids[i] == id;
            if keep(id) is Some {
                lemma_filter_map_contains(ids, keep, keep(id)->0);
                let q = choose|q: int| 0 <= q < made.len() && made[q] == keep(id)->0;
                assert(reqs[q] == made[q]);
            } else {
                assert(hold(ids[i]) == Some(MoveRequestView::hold(id, creeps[k].pos)));
                lemma_filter_map_contains(ids, hold, hold(id)->0);
                let q = choose|q: int| 0 <= q < holds.len() && holds[q] == hold(id)->0;
                assert(reqs[made.len() + q] == holds[q]);
            }
        }
        assert forall|q: int| 0 <= q < reqs.len() implies self.is_a_travellers(
            creeps,
            #[trigger] reqs[q],
        ) by {
            let f = if q < made.len() {
                assert(made.contains(made[q]));
                lemma_filter_map_contains(ids, keep, made[q]);
                keep
            } else {
                assert(holds.contains(holds[q - made.len()]));
                lemma_filter_map_contains(ids, hold, holds[q - made.len()]);
                hold
            };
            let i = choose|i: int| 0 <= i < ids.len() && #[trigger] f(ids[i]) == Some(reqs[q]);
            let m = choose|m: int| 0 <= m < self.members@.len() && self.members@[m] == ids[i];
            self.lemma_away(creeps, ids[i]);
            let k = choose|k: int| #[trigger] self.is_away(creeps, ids[i], k);
            self.lemma_travels(creeps, ids[i], k);
            assert(self.is_away(creeps, self.members@[m], k));
        }
        self.law_outsiders_are_the_members_away(creeps);
        lemma_filter_map_split(ids, keep, hold);
    }

    /// Whether a request is what a fighting member is asked for a movement of its own: that very
    /// movement, first in line for a creep that can attack, with the bid that was set for it, free
    /// to shove where the squad is and it does not flee, kept to the squad's center while the squad
    /// is engaged with a radius, and engaged.
    pub open spec fn fights_its_way<P>(
        self,
        decision: SquadDecision<S, P>,
        id: CreepId,
        friend: FriendView,
        intent: CombatIntent,
        req: MoveRequestView,
    ) -> bool {
        &&& req.creep == id
        &&& match intent {
            CombatIntent::MoveTo { target, range } => {
                req.goal == MoveGoalView::To { target, range }
            },
            CombatIntent::Flee { from, range } => {
                req.goal == MoveGoalView::Flee { from: from@, range }
            },
            _ => false,
        }
        &&& req.priority == MovementPriority::High || req.priority == MovementPriority::Standard
        &&& req.priority == MovementPriority::High <==> friend.has_ranged || friend.attack_parts > 0
        &&& self.bids_as_set(req)
        &&& req.shove == Some(self.shove_enabled && intent is MoveTo)
        &&& match req.anchor {
            Some((center, radius)) => {
                &&& decision.state is Engaged
                &&& radius > 0
                &&& radius == decision.cohesion_radius
                &&& Some(center) == decision.center
            },
            None => decision.state !is Engaged || decision.cohesion_radius == 0
                || decision.center is None,
        }
        &&& req.engaged
    }

    /// A fighter's request says what its movement says, under the squad's rules.
    pub proof fn law_fighters_ask_for_their_own_moves<P>(
        self,
        decision: SquadDecision<S, P>,
        id: CreepId,
        friend: FriendView,
        intent: CombatIntent,
    )
        requires
            intent is MoveTo || intent is Flee,
        ensures
            request_of(id, intent) is Some,
            self.fights_its_way(
                decision,
                id,
                friend,
                intent,
                self.member_request(decision, id, friend, intent),
            ),
    {
    }

    /// Whether the member present at `i` is asked to go its first move.
    pub open spec fn is_the_fighters<P>(
        self,
        friends: Seq<FriendView>,
        decision: SquadDecision<S, P>,
        present: Seq<(CreepId, usize)>,
        maneuvers: Seq<Vec<CombatIntent>>,
        i: int,
        g: int,
        req: MoveRequestView,
    ) -> bool {
        &&& 0 <= i < present.len()
        &&& moves_first(maneuvers[i]@, g)
        &&& self.fights_its_way(
            decision,
            present[i].0,
            friends[present[i].1 as int],
            maneuvers[i]@[g],
            req,
        )
    }

    /// Whether a member that stands at `k` is neither away nor present with a move to make.
    pub open spec fn has_no_move(
        self,
        creeps: Seq<SimCreep>,
        present: Seq<(CreepId, usize)>,
        maneuvers: Seq<Vec<CombatIntent>>,
        id: CreepId,
        k: int,
    ) -> bool {
        &&& lives_first(creeps, id, k)
        &&& !self.is_away(creeps, id, k)
        &&& forall|i: int, g: int|
            #![trigger moves_first(maneuvers[i]@, g)]
            0 <= i < present.len() && moves_first(maneuvers[i]@, g) ==> present[i].0 != id
    }

    /// Whether some living creep of an id is neither away nor present with a move to make.
    pub open spec fn idle(
        self,
        creeps: Seq<SimCreep>,
        present: Seq<(CreepId, usize)>,
        maneuvers: Seq<Vec<CombatIntent>>,
    ) -> spec_fn(CreepId) -> bool {
        |id: CreepId| exists|k: int| self.has_no_move(creeps, present, maneuvers, id, k)
    }

    /// Whether `reqs` asks each traveller to travel, then each fighter that has a move to make for
    /// it, in slot order, then each other living member to stay where it stands, in slot order, and
    /// nobody else.
    pub open spec fn asks_everyone<P>(
        self,
        creeps: Seq<SimCreep>,
        friends: Seq<FriendView>,
        decision: SquadDecision<S, P>,
        present: Seq<(CreepId, usize)>,
        maneuvers: Seq<Vec<CombatIntent>>,
        reqs: Seq<MoveRequestView>,
    ) -> bool {
        let travellers = count_where(self.members@, self.away(creeps));
        let fighters = movers(maneuvers, present.len() as int).len();
        &&& forall|m: int, k: int|
            #![trigger self.is_away(creeps, self.members@[m], k)]
            0 <= m < self.members@.len() && self.is_away(creeps, self.members@[m], k)
                ==> exists|q: int|
                0 <= q < travellers && self.travels(
                    creeps,
                    self.members@[m],
                    k,
                    #[trigger] reqs[q],
                )
        &&& forall|i: int, g: int|
            #![trigger moves_first(maneuvers[i]@, g)]
            0 <= i < present.len() && moves_first(maneuvers[i]@, g) ==> {
                let q = travellers + movers(maneuvers, i).len();
                &&& q < reqs.len()
                &&& self.is_the_fighters(
                    friends,
                    decision,
                    present,
                    maneuvers,
                    i,
                    g,
                    reqs[q as int],
                )
            }
        &&& forall|m: int, k: int|
            #![trigger self.has_no_move(creeps, present, maneuvers, self.members@[m], k)]
            0 <= m < self.members@.len() && self.has_no_move(
                creeps,
                present,
                maneuvers,
                self.members@[m],
                k,
            ) ==> {
                let q = travellers + fighters + count_where(
                    self.members@.take(m),
                    self.idle(creeps, present, maneuvers),
                );
                &&& q < reqs.len()
                &&& claims(reqs[q as int], self.members@[m], creeps[k].pos)
            }
        &&& forall|q: int|
            0 <= q < travellers ==> self.is_a_travellers(creeps, #[trigger] reqs[q])
        &&& reqs.len() == travellers + fighters + count_where(
            self.members@,
            self.idle(creeps, present, maneuvers),
        )
    }

    proof fn lemma_fighters_counted<P>(
        self,
        friends: Seq<FriendView>,
        decision: SquadDecision<S, P>,
        present: Seq<(CreepId, usize)>,
        maneuvers: Seq<Vec<CombatIntent>>,
        n: int,
    )
        requires
            0 <= n <= present.len(),
        ensures
            movers(maneuvers, n).finite(),
            self.fight_requests(decision, present, friends, maneuvers, n).len() == movers(
                maneuvers,
                n,
            ).len(),
        decreases n,
    {
        if n == 0 {
            assert(movers(maneuvers, n) =~= Set::empty());
        } else {
            let moves = maneuvers[n - 1]@;
            let rest = movers(maneuvers, n - 1);
            self.lemma_fighters_counted(friends, decision, present, maneuvers, n - 1);
            law_first_move_counts(moves);
            if first_move(moves) is Some {
                assert(movers(maneuvers, n) =~= rest.insert(n - 1));
            } else {
                assert(forall|g: int| !(#[trigger] moves_first(moves, g)));
                assert(movers(maneuvers, n) =~= rest);
            }
        }
    }

    proof fn lemma_fighter_asked<P>(
        self,
        friends: Seq<FriendView>,
        decision: SquadDecision<S, P>,
        present: Seq<(CreepId, usize)>,
        maneuvers: Seq<Vec<CombatIntent>>,
        i: int,
        g: int,
        n: int,
    )
        requires
            0 <= i < n <= present.len(),
            moves_first(maneuvers[i]@, g),
        ensures
            ({
                let q = self.fight_requests(decision, present, friends, maneuvers, i).len();
                let reqs = self.fight_requests(decision, present, friends, maneuvers, n);
                &&& q < reqs.len()
                &&& self.is_the_fighters(
                    friends,
                    decision,
                    present,
                    maneuvers,
                    i,
                    g,
                    reqs[q as int],
                )
            }),
        decreases n,
    {
        if i < n - 1 {
            self.lemma_fighter_asked(friends, decision, present, maneuvers, i, g, n - 1);
        } else {
            let (id, friend) = present[i];
            law_first_move_counts(maneuvers[i]@);
            self.law_fighters_ask_for_their_own_moves(
                decision,
                id,
                friends[friend as int],
                maneuvers[i]@[g],
            );
        }
    }

    proof fn lemma_fight_requests_are_fighters<P>(
        self,
        friends: Seq<FriendView>,
        decision: SquadDecision<S, P>,
        present: Seq<(CreepId, usize)>,
        maneuvers: Seq<Vec<CombatIntent>>,
        q: int,
        n: int,
    )
        requires
            0 <= n <= present.len(),
            0 <= q < self.fight_requests(decision, present, friends, maneuvers, n).len(),
        ensures
            exists|i: int, g: int|
                i < n && #[trigger] self.is_the_fighters(
                    friends,
                    decision,
                    present,
                    maneuvers,
                    i,
                    g,
                    self.fight_requests(decision, present, friends, maneuvers, n)[q],
                ),
        decreases n,
    {
        let before = self.fight_requests(decision, present, friends, maneuvers, n - 1);
        let reqs = self.fight_requests(decision, present, friends, maneuvers, n);
        if q < before.len() {
            self.lemma_fight_requests_are_fighters(
                friends,
                decision,
                present,
                maneuvers,
                q,
                n - 1,
            );
            let (i, g) = choose|i: int, g: int|
                i < n - 1 && #[trigger] self.is_the_fighters(
                    friends,
                    decision,
                    present,
                    maneuvers,
                    i,
                    g,
                    before[q],
                );
            assert(self.is_the_fighters(friends, decision, present, maneuvers, i, g, reqs[q]));
        } else {
            let moves = maneuvers[n - 1]@;
            law_first_move_counts(moves);
            let g = choose|g: int| moves_first(moves, g);
            self.lemma_fighter_asked(friends, decision, present, maneuvers, n - 1, g, n);
            assert(self.is_the_fighters(
                friends,
                decision,
                present,
                maneuvers,
                n - 1,
                g,
                reqs[q],
            ));
        }
    }

    /// All requests of a tick together ask each traveller, each fighter that has a move to make,
    /// and each other living member to stay where it stands; and nobody else.
    pub proof fn law_everyone_is_asked<P>(
        self,
        creeps: Seq<SimCreep>,
        friends: Seq<FriendView>,
        decision: SquadDecision<S, P>,
        maneuvers: Seq<Vec<CombatIntent>>,
    )
        ensures
            self.asks_everyone(
                creeps,
                friends,
                decision,
                self.present(creeps, friends),
                maneuvers,
                self.all_requests(creeps, friends, decision, maneuvers),
            ),
    {
        let present = self.present(creeps, friends);
        let n = present.len() as int;
        let travelling = self.travel(creeps);
        let fighting = self.fight_requests(decision, present, friends, maneuvers, n);
        let made = travelling + fighting;
        let hold = hold_of(creeps, made);
        let holds = filter_map(self.members@, hold);
        let reqs = self.all_requests(creeps, friends, decision, maneuvers);
        let idle = self.idle(creeps, present, maneuvers);
        self.law_each_traveller_is_asked_once(creeps);
        self.lemma_fighters_counted(friends, decision, present, maneuvers, n);
        assert forall|q: int| 0 <= q < travelling.len() implies reqs[q]
            == #[trigger] travelling[q] by {
        }
        assert forall|m: int, k: int|
            #![trigger self.is_away(creeps, self.members@[m], k)]
            0 <= m < self.members@.len() && self.is_away(
                creeps,
                self.members@[m],
                k,
            ) implies exists|q: int|
            0 <= q < travelling.len() && self.travels(
                creeps,
                self.members@[m],
                k,
                #[trigger] reqs[q],
            ) by {
            let q = choose|q: int|
                0 <= q < travelling.len() && self.travels(
                    creeps,
                    self.members@[m],
                    k,
                    #[trigger] travelling[q],
                );
            assert(reqs[q] == travelling[q]);
        }
        assert forall|i: int, g: int|
            #![trigger moves_first(maneuvers[i]@, g)]
            0 <= i < present.len() && moves_first(maneuvers[i]@, g) implies {
            let q = travelling.len() + movers(maneuvers, i).len();
            &&& q < reqs.len()
            &&& self.is_the_fighters(
                friends,
                decision,
                present,
                maneuvers,
                i,
                g,
                reqs[q as int],
            )
        } by {
            self.lemma_fighters_counted(friends, decision, present, maneuvers, i);
            self.lemma_fighter_asked(friends, decision, present, maneuvers, i, g, n);
            let q = movers(maneuvers, i).len() as int;
            assert(reqs[travelling.len() + q] == fighting[q]);
        }
        assert forall|m: int| 0 <= m < self.members@.len() implies (hold(
            #[trigger] self.members@[m],
        ) is Some <==> idle(self.members@[m])) by {
            self.lemma_idle(creeps, friends, decision, maneuvers, self.members@[m]);
        }
        assert forall|m: int, k: int|
            #![trigger self.has_no_move(creeps, present, maneuvers, self.members@[m], k)]
            0 <= m < self.members@.len() && self.has_no_move(
                creeps,
                present,
                maneuvers,
                self.members@[m],
                k,
            ) implies {
            let q = made.len() + count_where(self.members@.take(m), idle);
            &&& q < reqs.len()
            &&& claims(reqs[q as int], self.members@[m], creeps[k].pos)
        } by {
            let id = self.members@[m];
            assert(idle(id));
            law_first_living_creep_is_found(creeps, id);
            assert(hold(self.members@[m]) == Some(MoveRequestView::hold(id, creeps[k].pos)));
            lemma_filter_map_index(self.members@, hold, idle, m);
            let q = count_where(self.members@.take(m), idle) as int;
            assert(reqs[made.len() + q] == holds[q]);
        }
        lemma_filter_map_count(self.members@, hold, idle);
    }

    proof fn lemma_idle<P>(
        self,
        creeps: Seq<SimCreep>,
        friends: Seq<FriendView>,
        decision: SquadDecision<S, P>,
        maneuvers: Seq<Vec<CombatIntent>>,
        id: CreepId,
    )
        requires
            self.members@.contains(id),
        ensures
            ({
                let present = self.present(creeps, friends);
                let made = self.travel(creeps) + self.fight_requests(
                    decision,
                    present,
                    friends,
                    maneuvers,
                    present.len() as int,
                );
                hold_of(creeps, made)(id) is Some <==> exists|k: int| #[trigger]
                    self.has_no_move(creeps, present, maneuvers, id, k)
            }),
    {
        let present = self.present(creeps, friends);
        let n = present.len() as int;
        let travelling = self.travel(creeps);
        let fighting = self.fight_requests(decision, present, friends, maneuvers, n);
        let made = travelling + fighting;
        self.law_each_traveller_is_asked_once(creeps);
        self.lemma_away(creeps, id);
        law_first_living_creep_is_found(creeps, id);
        if requested(made, id) {
            let q = choose|q: int| 0 <= q < made.len() && (#[trigger] made[q]).creep == id;
            if q < travelling.len() {
                assert(made[q] == travelling[q]);
                assert(self.is_a_travellers(creeps, travelling[q]));
                let (m, k) = choose|m: int, k: int|
                    {
                        &&& 0 <= m < self.members@.len()
                        &&& #[trigger] self.is_away(creeps, self.members@[m], k)
                        &&& self.travels(creeps, self.members@[m], k, travelling[q])
                    };
                assert(self.is_away(creeps, id, k));
                assert forall|j: int| !(#[trigger] self.has_no_move(
                    creeps,
                    present,
                    maneuvers,
                    id,
                    j,
                )) by {
                    if lives_first(creeps, id, j) {
                        lemma_lives_once(creeps, id, j, k);
                    }
                }
            } else {
                let req = fighting[q - travelling.len()];
                assert(made[q] == req);
                self.lemma_fight_requests_are_fighters(
                    friends,
                    decision,
                    present,
                    maneuvers,
                    q - travelling.len(),
                    n,
                );
                let (i, g) = choose|i: int, g: int|
                    i < n && #[trigger] self.is_the_fighters(
                        friends,
                        decision,
                        present,
                        maneuvers,
                        i,
                        g,
                        req,
                    );
                assert(moves_first(maneuvers[i]@, g) && present[i].0 == id);
            }
        } else if first_living(creeps, id) is Some {
            let k = choose|k: int| #[trigger] lives_first(creeps, id, k);
            if self.is_away(creeps, id, k) {
                let m = choose|m: int| 0 <= m < self.members@.len() && self.members@[m] == id;
                assert(self.is_away(creeps, self.members@[m], k));
                let q = choose|q: int|
                    0 <= q < travelling.len() && self.travels(
                        creeps,
                        self.members@[m],
                        k,
                        #[trigger] travelling[q],
                    );
                assert(made[q] == travelling[q]);
                assert(made[q].creep == id);
            }
            assert forall|i: int, g: int|
                #![trigger moves_first(maneuvers[i]@, g)]
                0 <= i < present.len() && moves_first(maneuvers[i]@, g) implies present[i].0
                != id by {
                self.lemma_fighter_asked(friends, decision, present, maneuvers, i, g, n);
                let q = self.fight_requests(decision, present, friends, maneuvers, i).len() as int;
                assert(made[travelling.len() + q] == fighting[q]);
            }
            assert(self.has_no_move(creeps, present, maneuvers, id, k));
        }
    }

    /// Without a living member nothing happens.
    pub proof fn law_nothing_comes_of_the_dead<
        P,
        D: Fn(&CombatWorld, PlayerId, &SimView, &SquadSituation<S>, &T) -> SquadDecision<S, P>,
        F: Fn(&SimView, &SquadDecision<S, P>, &MemberOrders) -> Vec<CombatIntent>,
        G: Fn(&SimView, &SquadDecision<S, P>, &MemberOrders) -> Vec<CombatIntent>,
        R: Fn(&CombatWorld, PlayerId, &Vec<MoveRequest>, &C, &K) -> (Vec<(CreepId, Direction)>, K),
    >(
        self,
        world: &CombatWorld,
        view: &SimView,
        decide: D,
        fight: F,
        maneuver: G,
        route: R,
        tick: ManagedTick<S, P>,
        after: ManagedSimSquad<S, T, C, K>,
        intents: IntentsView,
    )
        requires
            self.steps_to(
                world,
                view,
                decide,
                fight,
                maneuver,
                route,
                tick,
                after,
                intents,
            ),
            forall|m: int, k: int|
                0 <= m < self.members@.len() ==> !(#[trigger] lives_first(
                    world.creeps@,
                    self.members@[m],
                    k,
                )),
        ensures
            after == self,
            intents.creeps.dom().is_empty(),
            intents.moves.dom().is_empty(),
            intents.towers.dom().is_empty(),
    {
        if self.has_living(world.creeps@) {
            let i = choose|i: int|
                0 <= i < self.members@.len() && first_living(
                    world.creeps@,
                    #[trigger] self.members@[i],
                ) is Some;
            law_first_living_creep_is_found(world.creeps@, self.members@[i]);
            let k = choose|k: int| #[trigger] lives_first(world.creeps@, self.members@[i], k);
            assert(lives_first(world.creeps@, self.members@[i], k));
        }
    }

    /// While nobody is in the objective's room the living members travel, nobody acts, and nothing
    /// of the squad changes but what the mover keeps.
    pub proof fn law_on_the_way_members_only_travel<
        P,
        D: Fn(&CombatWorld, PlayerId, &SimView, &SquadSituation<S>, &T) -> SquadDecision<S, P>,
        F: Fn(&SimView, &SquadDecision<S, P>, &MemberOrders) -> Vec<CombatIntent>,
        G: Fn(&SimView, &SquadDecision<S, P>, &MemberOrders) -> Vec<CombatIntent>,
        R: Fn(&CombatWorld, PlayerId, &Vec<MoveRequest>, &C, &K) -> (Vec<(CreepId, Direction)>, K),
    >(
        self,
        world: &CombatWorld,
        view: &SimView,
        decide: D,
        fight: F,
        maneuver: G,
        route: R,
        tick: ManagedTick<S, P>,
        after: ManagedSimSquad<S, T, C, K>,
        intents: IntentsView,
        m: int,
        k: int,
    )
        requires
            self.steps_to(
                world,
                view,
                decide,
                fight,
                maneuver,
                route,
                tick,
                after,
                intents,
            ),
            0 <= m < self.members@.len(),
            lives_first(world.creeps@, self.members@[m], k),
            self.present(world.creeps@, view.friends@).len() == 0,
        ensures
            self.asks_the_travellers(world.creeps@, request_views(tick.reqs@)),
            call_ensures(
                route,
                (world, self.owner, &tick.reqs, &self.mover_config, &self.move_cache),
                (tick.steps, after.move_cache),
            ),
            after == (ManagedSimSquad { move_cache: after.move_cache, ..self }),
            intents.creeps.dom().is_empty(),
            intents.towers.dom().is_empty(),
    {
        law_first_living_creep_is_found(world.creeps@, self.members@[m]);
        self.law_each_traveller_is_asked_once(world.creeps@);
    }

    /// Once somebody is present, everybody is asked, the damper passes over the requests with the
    /// streaks of the tick before and gives those of the next, and what it leaves is routed with
    /// what the mover kept.
    pub proof fn law_all_requests_are_damped_and_routed<
        P,
        D: Fn(&CombatWorld, PlayerId, &SimView, &SquadSituation<S>, &T) -> SquadDecision<S, P>,
        F: Fn(&SimView, &SquadDecision<S, P>, &MemberOrders) -> Vec<CombatIntent>,
        G: Fn(&SimView, &SquadDecision<S, P>, &MemberOrders) -> Vec<CombatIntent>,
        R: Fn(&CombatWorld, PlayerId, &Vec<MoveRequest>, &C, &K) -> (Vec<(CreepId, Direction)>, K),
    >(
        self,
        world: &CombatWorld,
        view: &SimView,
        decide: D,
        fight: F,
        maneuver: G,
        route: R,
        tick: ManagedTick<S, P>,
        after: ManagedSimSquad<S, T, C, K>,
        intents: IntentsView,
    )
        requires
            self.steps_to(
                world,
                view,
                decide,
                fight,
                maneuver,
                route,
                tick,
                after,
                intents,
            ),
            self.present(world.creeps@, view.friends@).len() > 0,
        ensures
            exists|all: Seq<MoveRequestView>|
                {
                    let damped = damp(
                        all,
                        world.creeps@,
                        streak_view(self.doomed_streaks@),
                        all.len() as int,
                    );
                    &&& #[trigger] self.asks_everyone(
                        world.creeps@,
                        view.friends@,
                        tick.decision,
                        self.present(world.creeps@, view.friends@),
                        tick.maneuvers,
                        all,
                    )
                    &&& request_views(tick.reqs@) == damped.reqs
                    &&& streak_view(after.doomed_streaks@) == damped.doomed
                },
            call_ensures(
                route,
                (world, self.owner, &tick.reqs, &self.mover_config, &self.move_cache),
                (tick.steps, after.move_cache),
            ),
    {
        self.lemma_present_live(world, view);
        self.law_everyone_is_asked(
            world.creeps@,
            view.friends@,
            tick.decision,
            tick.maneuvers,
        );
    }

    proof fn lemma_present_live(self, world: &CombatWorld, view: &SimView)
        requires
            self.present(world.creeps@, view.friends@).len() > 0,
        ensures
            self.has_living(world.creeps@),
    {
        let creeps = world.creeps@;
        self.law_present_are_the_members_shown_in_the_room(creeps, view);
        let shown = self.present(creeps, view.friends@)[0];
        let room = self.objective.room_name();
        let k = choose|k: int| #[trigger] lives_in(creeps, room, shown.0, k);
        assert(creeps[k].id == shown.0);
        law_first_living_creep_is_found(creeps, shown.0);
        let m = choose|m: int| 0 <= m < self.members@.len() && self.members@[m] == shown.0;
        assert(first_living(creeps, self.members@[m]) is Some);
    }

    /// Whether a member is shown to the kernel as the friend that it is: its hits, its healing
    /// parts, and what its parts of each kind deal together.
    pub open spec fn shows_as(self, friend: FriendView, member: MemberView) -> bool {
        &&& member.id == friend.id
        &&& member.pos == friend.pos
        &&& member.hits == friend.hits
        &&& member.hits_max == friend.hits_max
        &&& member.heal_power == friend.heal_parts
        &&& member.has_ranged == friend.has_ranged
        &&& member.damage_taken_last_tick == 0
        &&& member.melee_power == friend.attack_parts * self.constants.attack_power
        &&& member.ranged_power == friend.ranged_attack_parts * self.constants.ranged_attack_power
        &&& member.dismantle_power == friend.work_parts * self.constants.dismantle_power
        &&& member.claim_power == friend.claim_parts * self.constants.claim_power
    }

    /// Whether a tracker has counted this tick: one more without headway, or none where the total
    /// went down or is the first.
    pub open spec fn has_counted(before: StallTracker, total: int, after: StallTracker) -> bool {
        let stuck = before.prev is Some && before.prev->0 <= total;
        &&& after.prev matches Some(prev)
        &&& prev == total
        &&& !stuck ==> after.ticks == 0
        &&& stuck && before.ticks < u32::MAX ==> after.ticks == before.ticks + 1
        &&& stuck && before.ticks == u32::MAX ==> after.ticks == u32::MAX
    }

    /// Once somebody is present, the kernel decides over the members present, each as the view
    /// shows it, over the squad's own state and orders, and over whether the enemy's hits have
    /// stalled for as long as the limit says; the squad takes on the state that it decides, and
    /// keeps all else but its trackers, its streaks and what the mover keeps.
    pub proof fn law_kernel_decides_over_those_present<
        P,
        D: Fn(&CombatWorld, PlayerId, &SimView, &SquadSituation<S>, &T) -> SquadDecision<S, P>,
        F: Fn(&SimView, &SquadDecision<S, P>, &MemberOrders) -> Vec<CombatIntent>,
        G: Fn(&SimView, &SquadDecision<S, P>, &MemberOrders) -> Vec<CombatIntent>,
        R: Fn(&CombatWorld, PlayerId, &Vec<MoveRequest>, &C, &K) -> (Vec<(CreepId, Direction)>, K),
    >(
        self,
        world: &CombatWorld,
        view: &SimView,
        decide: D,
        fight: F,
        maneuver: G,
        route: R,
        tick: ManagedTick<S, P>,
        after: ManagedSimSquad<S, T, C, K>,
        intents: IntentsView,
    )
        requires
            self.steps_to(
                world,
                view,
                decide,
                fight,
                maneuver,
                route,
                tick,
                after,
                intents,
            ),
            self.fits(world, view),
            self.present(world.creeps@, view.friends@).len() > 0,
        ensures
            call_ensures(
                decide,
                (world, self.owner, view, &tick.situation, &self.tactics),
                tick.decision,
            ),
            ({
                let present = self.present(world.creeps@, view.friends@);
                let situation = tick.situation;
                &&& situation.members@.len() == present.len()
                &&& forall|i: int|
                    0 <= i < present.len() ==> self.shows_as(
                        view.friends@[present[i].1 as int],
                        #[trigger] situation.members@[i],
                    )
                &&& situation.retreat_threshold_bits == self.retreat_threshold_bits
                &&& situation.current_state == self.state
                &&& situation.engage_objective == self.intent
                &&& situation.drain_stance == self.drain_stance
                &&& situation.enemy_safe_mode <==> (world.safe_mode_owner matches Some(owner)
                    && owner != self.owner)
                &&& situation.enemy_stalled <==> after.enemy_stall.ticks
                    >= self.constants.stall_limit
                &&& situation.structure_stalled <==> after.structure_stall.ticks
                    >= self.constants.stall_limit
            }),
            Self::has_counted(
                self.enemy_stall,
                hostile_hits(view.hostiles@),
                after.enemy_stall,
            ),
            Self::has_counted(
                self.structure_stall,
                hostile_structure_hits(view.structures@),
                after.structure_stall,
            ),
            after.state == tick.decision.state,
            after.owner == self.owner,
            after.members == self.members,
            after.objective == self.objective,
            after.retreat_threshold_bits == self.retreat_threshold_bits,
            after.tactics == self.tactics,
            after.intent == self.intent,
            after.shove_enabled == self.shove_enabled,
            after.drain_stance == self.drain_stance,
            after.mover_config == self.mover_config,
            after.priority_bids == self.priority_bids,
            after.constants == self.constants,
    {
        self.lemma_present_live(world, view);
        lemma_hits_are_counted(view.hostiles@, view.structures@);
        let present = self.present(world.creeps@, view.friends@);
        assert forall|i: int| 0 <= i < present.len() implies self.shows_as(
            view.friends@[present[i].1 as int],
            #[trigger] tick.situation.members@[i],
        ) by {
            let friend = view.friends@[present[i].1 as int];
            assert(self.constants.powers_fit(friend));
            lemma_products(friend.attack_parts as int, self.constants.attack_power as int);
            lemma_products(
                friend.ranged_attack_parts as int,
                self.constants.ranged_attack_power as int,
            );
            lemma_products(friend.work_parts as int, self.constants.dismantle_power as int);
            lemma_products(friend.claim_parts as int, self.constants.claim_power as int);
        }
    }

    /// A member present is asked for its moves under its own orders, and for its fight where the
    /// kernel has not chosen its actions itself.
    pub proof fn law_members_are_asked_under_their_own_orders<
        P,
        D: Fn(&CombatWorld, PlayerId, &SimView, &SquadSituation<S>, &T) -> SquadDecision<S, P>,
        F: Fn(&SimView, &SquadDecision<S, P>, &MemberOrders) -> Vec<CombatIntent>,
        G: Fn(&SimView, &SquadDecision<S, P>, &MemberOrders) -> Vec<CombatIntent>,
        R: Fn(&CombatWorld, PlayerId, &Vec<MoveRequest>, &C, &K) -> (Vec<(CreepId, Direction)>, K),
    >(
        self,
        world: &CombatWorld,
        view: &SimView,
        decide: D,
        fight: F,
        maneuver: G,
        route: R,
        tick: ManagedTick<S, P>,
        after: ManagedSimSquad<S, T, C, K>,
        intents: IntentsView,
        i: int,
    )
        requires
            self.steps_to(
                world,
                view,
                decide,
                fight,
                maneuver,
                route,
                tick,
                after,
                intents,
            ),
            0 <= i < self.present(world.creeps@, view.friends@).len(),
        ensures
            ({
                let orders = tick.decision.orders(
                    self.objective,
                    self.present(world.creeps@, view.friends@),
                    view.friends@,
                    i,
                );
                let chosen = i < tick.decision.member_intents@.len()
                    && tick.decision.member_intents@[i]@.len() > 0;
                &&& call_ensures(maneuver, (view, &tick.decision, &orders), tick.maneuvers[i])
                &&& !chosen ==> call_ensures(
                    fight,
                    (view, &tick.decision, &orders),
                    tick.fights[i],
                )
            }),
    {
        self.lemma_present_live(world, view);
    }

    /// A member that is present once carries out the actions that the kernel chose for it, or else
    /// those of its own fight, and none where there are none.
    pub proof fn law_members_do_what_was_chosen_for_them<
        P,
        D: Fn(&CombatWorld, PlayerId, &SimView, &SquadSituation<S>, &T) -> SquadDecision<S, P>,
        F: Fn(&SimView, &SquadDecision<S, P>, &MemberOrders) -> Vec<CombatIntent>,
        G: Fn(&SimView, &SquadDecision<S, P>, &MemberOrders) -> Vec<CombatIntent>,
        R: Fn(&CombatWorld, PlayerId, &Vec<MoveRequest>, &C, &K) -> (Vec<(CreepId, Direction)>, K),
    >(
        self,
        world: &CombatWorld,
        view: &SimView,
        decide: D,
        fight: F,
        maneuver: G,
        route: R,
        tick: ManagedTick<S, P>,
        after: ManagedSimSquad<S, T, C, K>,
        intents: IntentsView,
        i: int,
    )
        requires
            self.steps_to(
                world,
                view,
                decide,
                fight,
                maneuver,
                route,
                tick,
                after,
                intents,
            ),
            0 <= i < self.present(world.creeps@, view.friends@).len(),
            forall|j: int|
                0 <= j < self.present(world.creeps@, view.friends@).len() && j != i ==> (
                #[trigger] self.present(world.creeps@, view.friends@)[j]).0 != self.present(
                    world.creeps@,
                    view.friends@,
                )[i].0,
        ensures
            ({
                let id = self.present(world.creeps@, view.friends@)[i].0;
                let by_kernel = i < tick.decision.member_intents@.len()
                    && tick.decision.member_intents@[i]@.len() > 0;
                let actions = filter_map(
                    if by_kernel {
                        tick.decision.member_intents@[i]@
                    } else {
                        tick.fights[i]@
                    },
                    carried_action(),
                );
                &&& intents.creeps.dom().contains(id) == (actions.len() > 0)
                &&& actions.len() > 0 ==> intents.creeps[id] == actions
            }),
    {
        self.lemma_present_live(world, view);
        let present = self.present(world.creeps@, view.friends@);
        self.lemma_own_orders(tick.decision, present, tick.fights, i, present.len() as int);
    }

    /// A creep that is not present carries out nothing, and no tower is given an order.
    pub proof fn law_nobody_else_acts<
        P,
        D: Fn(&CombatWorld, PlayerId, &SimView, &SquadSituation<S>, &T) -> SquadDecision<S, P>,
        F: Fn(&SimView, &SquadDecision<S, P>, &MemberOrders) -> Vec<CombatIntent>,
        G: Fn(&SimView, &SquadDecision<S, P>, &MemberOrders) -> Vec<CombatIntent>,
        R: Fn(&CombatWorld, PlayerId, &Vec<MoveRequest>, &C, &K) -> (Vec<(CreepId, Direction)>, K),
    >(
        self,
        world: &CombatWorld,
        view: &SimView,
        decide: D,
        fight: F,
        maneuver: G,
        route: R,
        tick: ManagedTick<S, P>,
        after: ManagedSimSquad<S, T, C, K>,
        intents: IntentsView,
        id: CreepId,
    )
        requires
            self.steps_to(
                world,
                view,
                decide,
                fight,
                maneuver,
                route,
                tick,
                after,
                intents,
            ),
            forall|j: int|
                0 <= j < self.present(world.creeps@, view.friends@).len() ==> (
                #[trigger] self.present(world.creeps@, view.friends@)[j]).0 != id,
        ensures
            !intents.creeps.dom().contains(id),
            intents.towers.dom().is_empty(),
    {
        let present = self.present(world.creeps@, view.friends@);
        self.lemma_unnamed(tick.decision, present, tick.fights, id, present.len() as int);
    }

    /// Where some member lives, the steps of the mover are the moves, the last of several for a
    /// creep counts, and there are no others.
    pub proof fn law_moves_are_the_movers_steps<
        P,
        D: Fn(&CombatWorld, PlayerId, &SimView, &SquadSituation<S>, &T) -> SquadDecision<S, P>,
        F: Fn(&SimView, &SquadDecision<S, P>, &MemberOrders) -> Vec<CombatIntent>,
        G: Fn(&SimView, &SquadDecision<S, P>, &MemberOrders) -> Vec<CombatIntent>,
        R: Fn(&CombatWorld, PlayerId, &Vec<MoveRequest>, &C, &K) -> (Vec<(CreepId, Direction)>, K),
    >(
        self,
        world: &CombatWorld,
        view: &SimView,
        decide: D,
        fight: F,
        maneuver: G,
        route: R,
        tick: ManagedTick<S, P>,
        after: ManagedSimSquad<S, T, C, K>,
        intents: IntentsView,
        m: int,
        k: int,
        id: CreepId,
    )
        requires
            self.steps_to(
                world,
                view,
                decide,
                fight,
                maneuver,
                route,
                tick,
                after,
                intents,
            ),
            0 <= m < self.members@.len(),
            lives_first(world.creeps@, self.members@[m], k),
        ensures
            forall|j: int| #[trigger]
                steps_last(tick.steps@, id, j) ==> {
                    &&& intents.moves.dom().contains(id)
                    &&& intents.moves[id] == tick.steps@[j].1
                },
            (forall|j: int| 0 <= j < tick.steps@.len() ==> (#[trigger] tick.steps@[j]).0 != id)
                ==> !intents.moves.dom().contains(id),
    {
        law_first_living_creep_is_found(world.creeps@, self.members@[m]);
        law_last_step_counts(Map::empty(), tick.steps@, id);
    }

    proof fn lemma_own_orders<P>(
        self,
        decision: SquadDecision<S, P>,
        present: Seq<(CreepId, usize)>,
        fights: Seq<Vec<CombatIntent>>,
        i: int,
        k: int,
    )
        requires
            0 <= i < k <= present.len(),
            forall|j: int|
                0 <= j < present.len() && j != i ==> (#[trigger] present[j]).0 != present[i].0,
        ensures
            ({
                let orders = self.fight_orders(decision, present, fights, k);
                let actions = filter_map(
                    if decision.acts(i) {
                        decision.member_intents@[i]@
                    } else {
                        fights[i]@
                    },
                    carried_action(),
                );
                &&& orders.dom().contains(present[i].0) == (actions.len() > 0)
                &&& actions.len() > 0 ==> orders[present[i].0] == actions
            }),
        decreases k,
    {
        if i == k - 1 {
            self.lemma_unnamed(decision, present, fights, present[i].0, k - 1);
        } else {
            self.lemma_own_orders(decision, present, fights, i, k - 1);
            assert(present[k - 1].0 != present[i].0);
        }
    }

    proof fn lemma_unnamed<P>(
        self,
        decision: SquadDecision<S, P>,
        present: Seq<(CreepId, usize)>,
        fights: Seq<Vec<CombatIntent>>,
        id: CreepId,
        k: int,
    )
        requires
            0 <= k <= present.len(),
            forall|j: int| 0 <= j < k ==> (#[trigger] present[j]).0 != id,
        ensures
            !self.fight_orders(decision, present, fights, k).dom().contains(id),
        decreases k,
    {
        if k > 0 {
            self.lemma_unnamed(decision, present, fights, id, k - 1);
            assert(present[k - 1].0 != id);
        }
    }
}

proof fn lemma_lives_once(creeps: Seq<SimCreep>, id: CreepId, j: int, k: int)
    requires
        lives_first(creeps, id, j),
        lives_first(creeps, id, k),
    ensures
        j == k,
{
    if j < k {
        assert(creeps[j].id == id);
    }
    if k < j {
        assert(creeps[k].id == id);
    }
}

proof fn lemma_products(a: int, b: int)
    requires
        0 <= a,
        0 <= b,
    ensures
        0 <= a * b,
{
    assert(0 <= a * b) by (nonlinear_arith)
        requires
            0 <= a,
            0 <= b,
    ;
}

proof fn lemma_hits_are_counted(hostiles: Seq<HostileView>, structures: Seq<StructureView>)
    ensures
        0 <= hostile_hits(hostiles),
        0 <= hostile_structure_hits(structures),
{
    lemma_hostile_hits_grow(hostiles, 0);
    lemma_structure_hits_grow(structures, 0);
}

} // verus!
