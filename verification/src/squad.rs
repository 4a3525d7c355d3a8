//! A squad that moves as a formation: an anchor that advances toward the objective, and members
//! that hold their slots around it and fight.
//!
//! The anchor advances only while the squad is gathered. It moves the whole box of the layout
//! where that fits, and a single tile where it does not, with the members in single file behind
//! it until the box fits again. A squad of more than four is a blob, which never forms a box.
use crate::geometry::{Direction, Position, RoomName};
use crate::movement::{push_hold_requests, request_views, requested, with_holds};
use crate::movement::{law_requested_members_need_no_hold, MoveGoal, MoveGoalView, MoveRequest};
use crate::movement::{MoveRequestView, MovementPriority};
use crate::pathing::{carried_action, clamp_to_room, engine_actions, CombatIntent};
use crate::select::{count_where, filter_map, lemma_filter_map_contains, lemma_filter_map_count};
use crate::select::{lemma_filter_map_index, lemma_filter_map_take};
use crate::view::{friend_of, law_first_friend_is_found, shown, shown_first};
use crate::view::{FriendView, SimView};
use crate::world::{first_living, CombatAction, CombatWorld, CreepId, Intents, IntentsView};
use crate::world::{law_first_living_creep_is_found, law_last_step_counts, lives_first, living};
use crate::world::{steps_last, with_steps, PlayerId, SimCreep};
use vstd::prelude::*;

pub use crate::managed::ManagedSimSquad;

verus! {

broadcast use Position::lemma_at;

/// A member this near its slot is in formation.
pub const COHESION_TOL: u32 = 1;

/// One coordinate of a slot: the offset from the anchor, mirrored back where it leaves the room.
pub open spec fn fold(c: int, o: int) -> u8 {
    if 0 <= c + o < 50 {
        (c + o) as u8
    } else {
        clamp_to_room(c - o)
    }
}

/// Whether folding an offset stays within machine integers.
pub open spec fn fold_fits(c: int, o: int) -> bool {
    &&& i32::MIN <= c + o <= i32::MAX
    &&& 0 <= c + o < 50 || i32::MIN <= c - o <= i32::MAX
}

/// The slot at an offset from the anchor, folded into the anchor's room.
pub open spec fn folded(anchor: Position, offset: (i32, i32)) -> Position {
    Position::at(
        fold(anchor.x() as int, offset.0 as int),
        fold(anchor.y() as int, offset.1 as int),
        anchor.room_name(),
    )
}

fn fold_coordinate(c: u8, o: i32) -> (folded: u8)
    requires
        c < 50,
        fold_fits(c as int, o as int),
    ensures
        folded == fold(c as int, o as int),
        folded < 50,
{
    let v: i32 = c as i32 + o;
    if 0 <= v && v < 50 {
        v as u8
    } else {
        let w: i32 = c as i32 - o;
        if w < 0 {
            0
        } else if w > 49 {
            49
        } else {
            w as u8
        }
    }
}

/// The slot at an offset from the anchor. Near a room's edge an offset that leaves the room is
/// mirrored back into it, so that far slots stay tiles of their own rather than pile up.
pub fn offset_pos(anchor: Position, offset: (i32, i32)) -> (slot: Position)
    requires
        fold_fits(anchor.x() as int, offset.0 as int),
        fold_fits(anchor.y() as int, offset.1 as int),
    ensures
        slot == folded(anchor, offset),
{
    let x: u8 = anchor.x();
    let y: u8 = anchor.y();
    let fx: u8 = fold_coordinate(x, offset.0);
    let fy: u8 = fold_coordinate(y, offset.1);
    Position::new(fx, fy, anchor.room_name())
}

/// The least of 0 and the layout's offsets along an axis.
pub open spec fn least(offsets: Seq<int>) -> int
    decreases offsets.len(),
{
    if offsets.len() == 0 {
        0
    } else {
        let rest = least(offsets.drop_last());
        if offsets.last() < rest {
            offsets.last()
        } else {
            rest
        }
    }
}

/// The greatest of 0 and the layout's offsets along an axis.
pub open spec fn greatest(offsets: Seq<int>) -> int
    decreases offsets.len(),
{
    if offsets.len() == 0 {
        0
    } else {
        let rest = greatest(offsets.drop_last());
        if offsets.last() > rest {
            offsets.last()
        } else {
            rest
        }
    }
}

/// How many tiles the anchor and the offsets span along an axis.
pub open spec fn extent(offsets: Seq<int>) -> int {
    greatest(offsets) - least(offsets) + 1
}

pub open spec fn columns(layout: Seq<(i32, i32)>) -> Seq<int> {
    Seq::new(layout.len(), |i: int| layout[i].0 as int)
}

pub open spec fn rows(layout: Seq<(i32, i32)>) -> Seq<int> {
    Seq::new(layout.len(), |i: int| layout[i].1 as int)
}

/// A side of a box, cut at what a byte holds; no room is that wide.
pub open spec fn side(extent: int) -> int {
    if extent > 255 {
        255
    } else {
        extent
    }
}

/// The bounding box of a layout and its anchor.
pub open spec fn layout_footprint(layout: Seq<(i32, i32)>) -> (int, int) {
    (side(extent(columns(layout))), side(extent(rows(layout))))
}

fn side_of(extent: i32) -> (b: u8)
    requires
        extent >= 0,
    ensures
        b as int == side(extent as int),
{
    if extent > 255 {
        255
    } else {
        extent as u8
    }
}

/// Where the anchor is, whether its next step leaves the room, and the path that it follows. `P`
/// is what its mover keeps of that path.
#[derive(Clone, Copy, Debug)]
pub struct Anchor<P> {
    pub virtual_pos: Position,
    pub next_step_crosses_room: bool,
    pub path: P,
}

/// What came of advancing the anchor.
#[derive(Clone, Copy, Debug, PartialEq, Eq, Structural)]
pub enum AnchorOutcome {
    /// It moved, or had no cause to.
    Advanced,
    /// It stayed without being stopped.
    Settled,
    /// No path fits the footprint.
    Blocked,
}

/// How gathered a squad is, measured against the quorum to advance.
#[derive(Clone, Copy, Debug, PartialEq, Eq, Structural)]
pub struct GatherReading {
    /// Whether a quorum of the members stands within [`COHESION_TOL`] of its slots.
    pub in_formation: bool,
    /// Whether a quorum of the members is near the anchor.
    pub near_anchor: bool,
}

/// A squad with an anchor. Member `i` holds slot `i` of the layout. `P` is the anchor's path, `C`
/// what the mover is tuned by, and `K` what it keeps from tick to tick.
pub struct SimSquad<P, C, K> {
    pub owner: PlayerId,
    /// Members in slot order.
    pub members: Vec<CreepId>,
    /// Slots, as offsets from the anchor.
    pub layout: Vec<(i32, i32)>,
    pub anchor: Anchor<P>,
    pub objective: Position,
    /// Whether the box could not fit and the squad goes in single file.
    pub loose: bool,
    /// What the mover is tuned by.
    pub mover_config: C,
    /// What the mover keeps between ticks.
    pub move_cache: K,
}

pub open spec fn friend_pos(friends: Seq<FriendView>) -> spec_fn(CreepId) -> Option<Position> {
    |id: CreepId|
        match friend_of(friends, id) {
            Some(i) => Some(friends[i].pos),
            None => None,
        }
}

pub open spec fn living_pos(creeps: Seq<SimCreep>) -> spec_fn(CreepId) -> Option<Position> {
    |id: CreepId|
        match first_living(creeps, id) {
            Some(c) => Some(c.pos),
            None => None,
        }
}

/// The mode in which members move in a tick.
#[derive(Clone, Copy, Debug, PartialEq, Eq, Structural)]
pub struct FormationMode {
    /// The anchor, once it has advanced.
    pub anchor: Position,
    /// Whether the squad is a blob or goes in single file.
    pub loose: bool,
    /// Whether the squad is crossing a room's border, or astride it.
    pub crossing: bool,
}

/// What the outside world answered in one tick of a squad: the measure of the members' positions,
/// each member's combat intents, and the mover's steps for the requests.
pub struct SquadTick {
    pub positions: Vec<Position>,
    pub reading: GatherReading,
    pub fights: Seq<Vec<CombatIntent>>,
    pub reqs: Vec<MoveRequest>,
    pub steps: Vec<(CreepId, Direction)>,
}

impl<P, C, K> SimSquad<P, C, K> {
    /// More than four members never form a box.
    pub open spec fn is_blob(self) -> bool {
        self.members@.len() > 4
    }

    /// Whether the squad may advance: one that is crossing a border, loose or a blob once it is
    /// near the anchor, any other once it is in formation.
    pub open spec fn gathered(self, reading: GatherReading) -> bool {
        if self.anchor.next_step_crosses_room || self.is_blob() || self.loose {
            reading.near_anchor
        } else {
            reading.in_formation
        }
    }

    /// Whether `anchor`, `outcome` and `loose` are what advancing comes to. A squad that is not
    /// gathered waits. A blob advances a single tile. Any other advances its box; where that is
    /// blocked it turns loose and tries a single tile from where that left the anchor, and where
    /// it is not it forms up again.
    pub open spec fn advances_to<
        V: Fn(&CombatWorld, PlayerId, &Anchor<P>, Position, (u8, u8)) -> (Anchor<P>, AnchorOutcome),
    >(
        self,
        world: &CombatWorld,
        gathered: bool,
        advance: V,
        anchor: Anchor<P>,
        outcome: AnchorOutcome,
        loose: bool,
    ) -> bool {
        if !gathered {
            &&& anchor == self.anchor
            &&& outcome == AnchorOutcome::Advanced
            &&& loose == self.loose
        } else if self.is_blob() {
            &&& loose == self.loose
            &&& call_ensures(
                advance,
                (world, self.owner, &self.anchor, self.objective, (1u8, 1u8)),
                (anchor, outcome),
            )
        } else {
            exists|size: (u8, u8), first: (Anchor<P>, AnchorOutcome)|
                {
                    &&& (size.0 as int, size.1 as int) == layout_footprint(self.layout@)
                    &&& #[trigger] call_ensures(
                        advance,
                        (world, self.owner, &self.anchor, self.objective, size),
                        first,
                    )
                    &&& if first.1 == AnchorOutcome::Blocked {
                        &&& loose
                        &&& call_ensures(
                            advance,
                            (world, self.owner, &first.0, self.objective, (1u8, 1u8)),
                            (anchor, outcome),
                        )
                    } else {
                        &&& !loose
                        &&& first == (anchor, outcome)
                    }
                }
        }
    }

    /// Whether some living member is not in the anchor's room.
    pub open spec fn straddles(self, creeps: Seq<SimCreep>, room: RoomName) -> bool {
        exists|i: int|
            {
                &&& 0 <= i < self.members@.len()
                &&& first_living(creeps, #[trigger] self.members@[i]) matches Some(c)
                &&& c.pos.room_name() != room
            }
    }

    /// The mode of the members' moves, with the squad as it is after the advance.
    pub open spec fn mode(self, creeps: Seq<SimCreep>) -> FormationMode {
        FormationMode {
            anchor: self.anchor.virtual_pos,
            loose: self.is_blob() || self.loose,
            crossing: self.anchor.next_step_crosses_room || self.straddles(
                creeps,
                self.anchor.virtual_pos.room_name(),
            ),
        }
    }

    /// Where a member goes and how near is enough. In a corridor it follows the anchor in single
    /// file; else it goes to its slot, exactly in a tight box and to within one tile in a blob or
    /// on a border.
    pub open spec fn slot_goal(self, mode: FormationMode, slot: int) -> MoveGoalView {
        if mode.loose && !self.is_blob() && !mode.crossing {
            MoveGoalView::To { target: mode.anchor, range: 1 }
        } else {
            let offset = if slot < self.layout@.len() {
                self.layout@[slot]
            } else {
                (0i32, 0i32)
            };
            MoveGoalView::To {
                target: folded(mode.anchor, offset),
                range: if mode.loose || mode.crossing {
                    1
                } else {
                    0
                },
            }
        }
    }

    /// The requests of the living members among the first `k`.
    pub open spec fn formation_requests(
        self,
        creeps: Seq<SimCreep>,
        mode: FormationMode,
        k: int,
    ) -> Seq<MoveRequestView>
        decreases k,
    {
        if k <= 0 {
            Seq::empty()
        } else {
            let before = self.formation_requests(creeps, mode, k - 1);
            let id = self.members@[k - 1];
            if first_living(creeps, id) is Some {
                before.push(
                    MoveRequestView {
                        engaged: true,
                        ..MoveRequestView::plain(id, self.slot_goal(mode, k - 1))
                    },
                )
            } else {
                before
            }
        }
    }

    /// The combat orders of the members among the first `k` that live and are in view.
    pub open spec fn combat_orders(
        self,
        creeps: Seq<SimCreep>,
        friends: Seq<FriendView>,
        fights: Seq<Vec<CombatIntent>>,
        k: int,
    ) -> Map<CreepId, Seq<CombatAction>>
        decreases k,
    {
        if k <= 0 {
            Map::empty()
        } else {
            let before = self.combat_orders(creeps, friends, fights, k - 1);
            let id = self.members@[k - 1];
            let actions = filter_map(fights[k - 1]@, carried_action());
            if first_living(creeps, id) is Some && friend_of(friends, id) is Some && actions.len()
                > 0 {
                before.insert(id, actions)
            } else {
                before
            }
        }
    }

    /// Whether `fights` holds what `fight` answered for each member among the first `k` that lives
    /// and is in view.
    pub open spec fn fought<F: Fn(&SimView, usize) -> Vec<CombatIntent>>(
        self,
        creeps: Seq<SimCreep>,
        view: &SimView,
        fight: F,
        fights: Seq<Vec<CombatIntent>>,
        k: int,
    ) -> bool {
        forall|i: int|
            #![trigger fights[i]]
            0 <= i < k && first_living(creeps, self.members@[i]) is Some && friend_of(
                view.friends@,
                self.members@[i],
            ) is Some ==> call_ensures(
                fight,
                (view, friend_of(view.friends@, self.members@[i])->0 as usize),
                fights[i],
            )
    }

    /// Whether no slot of a member outgrows a machine integer, wherever the anchor goes, nor the
    /// box of a squad that forms one.
    pub open spec fn layout_fits(self) -> bool {
        &&& forall|i: int|
            0 <= i < self.layout@.len() && i < self.members@.len() ==> {
                &&& 49 - i32::MAX <= (#[trigger] self.layout@[i]).0 <= i32::MAX - 49
                &&& 49 - i32::MAX <= self.layout@[i].1 <= i32::MAX - 49
            }
        &&& self.is_blob() || {
            &&& extent(columns(self.layout@)) <= i32::MAX
            &&& extent(rows(self.layout@)) <= i32::MAX
        }
    }

    /// Whether the slot of a member stays within machine integers, where it is asked for.
    pub open spec fn slot_fits(self, mode: FormationMode, slot: int) -> bool {
        ||| mode.loose && !self.is_blob() && !mode.crossing
        ||| slot >= self.layout@.len()
        ||| {
            &&& fold_fits(mode.anchor.x() as int, self.layout@[slot].0 as int)
            &&& fold_fits(mode.anchor.y() as int, self.layout@[slot].1 as int)
        }
    }

    /// Whether `after`, `intents` and `outcome` are what one tick makes of this squad, with the
    /// answers of `tick`.
    pub open spec fn steps_to<
        M: Fn(&Vec<Position>, Position, &Vec<(i32, i32)>, u32) -> GatherReading,
        V: Fn(&CombatWorld, PlayerId, &Anchor<P>, Position, (u8, u8)) -> (Anchor<P>, AnchorOutcome),
        F: Fn(&SimView, usize) -> Vec<CombatIntent>,
        R: Fn(&CombatWorld, PlayerId, &Vec<MoveRequest>, &C, &K) -> (Vec<(CreepId, Direction)>, K),
    >(
        self,
        world: &CombatWorld,
        view: &SimView,
        measure: M,
        advance: V,
        fight: F,
        route: R,
        tick: SquadTick,
        after: SimSquad<P, C, K>,
        intents: IntentsView,
        outcome: AnchorOutcome,
    ) -> bool {
        let creeps = world.creeps@;
        let mode = after.mode(creeps);
        let n = self.members@.len() as int;
        &&& tick.positions@ == filter_map(self.members@, friend_pos(view.friends@))
        &&& call_ensures(
            measure,
            (&tick.positions, self.anchor.virtual_pos, &self.layout, COHESION_TOL),
            tick.reading,
        )
        &&& self.advances_to(
            world,
            self.gathered(tick.reading),
            advance,
            after.anchor,
            outcome,
            after.loose,
        )
        &&& after == SimSquad {
            anchor: after.anchor,
            loose: after.loose,
            move_cache: after.move_cache,
            ..self
        }
        &&& self.fought(creeps, view, fight, tick.fights, n)
        &&& request_views(tick.reqs@) == with_holds(
            creeps,
            self.members@,
            after.formation_requests(creeps, mode, n),
        )
        &&& call_ensures(
            route,
            (world, self.owner, &tick.reqs, &self.mover_config, &self.move_cache),
            (tick.steps, after.move_cache),
        )
        &&& intents == IntentsView {
            creeps: self.combat_orders(creeps, view.friends@, tick.fights, n),
            moves: with_steps(Map::empty(), tick.steps@),
            towers: Map::empty(),
        }
    }

    /// Tune the mover of this squad.
    pub fn with_mover_config(self, config: C) -> (squad: SimSquad<P, C, K>)
        ensures
            squad == (SimSquad { mover_config: config, ..self }),
    {
        SimSquad { mover_config: config, ..self }
    }

    /// The bounding box of the layout and the anchor: the size that the anchor's path must fit, so
    /// that the squad never threads a gap narrower than itself.
    pub fn footprint(&self) -> (size: (u8, u8))
        requires
            extent(columns(self.layout@)) <= i32::MAX,
            extent(rows(self.layout@)) <= i32::MAX,
        ensures
            (size.0 as int, size.1 as int) == layout_footprint(self.layout@),
    {
        let mut min_x: i32 = 0;
        let mut max_x: i32 = 0;
        let mut min_y: i32 = 0;
        let mut max_y: i32 = 0;
        let ghost xs = columns(self.layout@);
        let ghost ys = rows(self.layout@);
        let mut i: usize = 0;
        while i < self.layout.len()
            invariant
                i <= self.layout@.len(),
                xs == columns(self.layout@),
                ys == rows(self.layout@),
                min_x == least(xs.take(i as int)),
                max_x == greatest(xs.take(i as int)),
                min_y == least(ys.take(i as int)),
                max_y == greatest(ys.take(i as int)),
                min_x <= 0 <= max_x,
                min_y <= 0 <= max_y,
            decreases self.layout@.len() - i,
        {
            let (dx, dy) = self.layout[i];
            proof {
                assert(xs.take(i + 1).drop_last() =~= xs.take(i as int));
                assert(ys.take(i + 1).drop_last() =~= ys.take(i as int));
            }
            if dx < min_x {
                min_x = dx;
            }
            if dx > max_x {
                max_x = dx;
            }
            if dy < min_y {
                min_y = dy;
            }
            if dy > max_y {
                max_y = dy;
            }
            i = i + 1;
        }
        proof {
            assert(xs.take(self.layout@.len() as int) =~= xs);
            assert(ys.take(self.layout@.len() as int) =~= ys);
        }
        (side_of(max_x - min_x + 1), side_of(max_y - min_y + 1))
    }

    /// Where the members stand that this view shows, in slot order.
    pub fn member_positions(&self, view: &SimView) -> (positions: Vec<Position>)
        ensures
            positions@ == filter_map(self.members@, friend_pos(view.friends@)),
    {
        let ghost keep = friend_pos(view.friends@);
        let mut positions: Vec<Position> = Vec::new();
        let mut i: usize = 0;
        while i < self.members.len()
            invariant
                i <= self.members@.len(),
                keep == friend_pos(view.friends@),
                positions@ == filter_map(self.members@.take(i as int), keep),
            decreases self.members@.len() - i,
        {
            proof {
                lemma_filter_map_take(self.members@, keep, i as int);
            }
            if let Some(f) = view.friend_index(self.members[i]) {
                positions.push(view.friends[f].pos);
            }
            i = i + 1;
        }
        proof {
            assert(self.members@.take(self.members@.len() as int) =~= self.members@);
        }
        positions
    }

    /// Where the living members stand, in any room, in slot order.
    pub fn all_member_positions(&self, world: &CombatWorld) -> (positions: Vec<Position>)
        ensures
            positions@ == filter_map(self.members@, living_pos(world.creeps@)),
    {
        let ghost keep = living_pos(world.creeps@);
        let mut positions: Vec<Position> = Vec::new();
        let mut i: usize = 0;
        while i < self.members.len()
            invariant
                i <= self.members@.len(),
                keep == living_pos(world.creeps@),
                positions@ == filter_map(self.members@.take(i as int), keep),
            decreases self.members@.len() - i,
        {
            proof {
                lemma_filter_map_take(self.members@, keep, i as int);
            }
            if let Some(c) = world.living_creep(self.members[i]) {
                positions.push(c.pos);
            }
            i = i + 1;
        }
        proof {
            assert(self.members@.take(self.members@.len() as int) =~= self.members@);
        }
        positions
    }

    /// Whether the squad may advance, by how gathered it is.
    pub fn is_gathered(&self, reading: GatherReading) -> (gathered: bool)
        ensures
            gathered == self.gathered(reading),
    {
        if self.anchor.next_step_crosses_room || self.members.len() > 4 || self.loose {
            reading.near_anchor
        } else {
            reading.in_formation
        }
    }

    fn find_straddling(&self, world: &CombatWorld) -> (straddling: bool)
        ensures
            straddling == self.straddles(world.creeps@, self.anchor.virtual_pos.room_name()),
    {
        let room = self.anchor.virtual_pos.room_name();
        let keep: Ghost<spec_fn(CreepId) -> Option<Position>> = Ghost(living_pos(world.creeps@));
        let positions = self.all_member_positions(world);
        let mut i: usize = 0;
        while i < positions.len()
            invariant
                i <= positions@.len(),
                room == self.anchor.virtual_pos.room_name(),
                keep@ == living_pos(world.creeps@),
                positions@ == filter_map(self.members@, keep@),
                forall|k: int| 0 <= k < i ==> (#[trigger] positions@[k]).room_name() == room,
            decreases positions@.len() - i,
        {
            if positions[i].room_name() != room {
                proof {
                    let pos = positions@[i as int];
                    assert(positions@.contains(pos));
                    lemma_filter_map_contains(self.members@, keep@, pos);
                    let m = choose|m: int|
                        0 <= m < self.members@.len() && #[trigger] keep@(self.members@[m]) == Some(
                            pos,
                        );
                    assert(first_living(world.creeps@, self.members@[m]) is Some);
                }
                return true;
            }
            i = i + 1;
        }
        proof {
            assert forall|m: int|
                0 <= m < self.members@.len() && first_living(
                    world.creeps@,
                    #[trigger] self.members@[m],
                ) is Some implies first_living(
                world.creeps@,
                self.members@[m],
            )->0.pos.room_name() == room by {
                let pos = first_living(world.creeps@, self.members@[m])->0.pos;
                assert(keep@(self.members@[m]) == Some(pos));
                lemma_filter_map_contains(self.members@, keep@, pos);
                let k = choose|k: int| 0 <= k < positions@.len() && positions@[k] == pos;
                assert(positions@[k].room_name() == room);
            }
        }
        false
    }

    /// How the members move this tick, once the anchor has advanced.
    pub fn formation_mode(&self, world: &CombatWorld) -> (mode: FormationMode)
        ensures
            mode == self.mode(world.creeps@),
    {
        let straddling = self.find_straddling(world);
        FormationMode {
            anchor: self.anchor.virtual_pos,
            loose: self.members.len() > 4 || self.loose,
            crossing: self.anchor.next_step_crosses_room || straddling,
        }
    }

    /// Where the member of a slot goes and how near is enough.
    pub fn member_goal(&self, mode: FormationMode, slot: usize) -> (goal: MoveGoal)
        requires
            self.slot_fits(mode, slot as int),
        ensures
            goal@ == self.slot_goal(mode, slot as int),
    {
        if mode.loose && !(self.members.len() > 4) && !mode.crossing {
            MoveGoal::To { target: mode.anchor, range: 1 }
        } else {
            let offset: (i32, i32) = if slot < self.layout.len() {
                self.layout[slot]
            } else {
                (0, 0)
            };
            let range: u32 = if mode.loose || mode.crossing {
                1
            } else {
                0
            };
            MoveGoal::To { target: offset_pos(mode.anchor, offset), range }
        }
    }

    /// Advance the squad by one tick, and give its orders and what came of the anchor.
    ///
    /// `look` is what the squad sees of its anchor's room; the rest is as in
    /// [`SimSquad::step_in_view`].
    pub fn step<
        L: Fn(&CombatWorld, PlayerId, Position, RoomName) -> SimView,
        M: Fn(&Vec<Position>, Position, &Vec<(i32, i32)>, u32) -> GatherReading,
        V: Fn(&CombatWorld, PlayerId, &Anchor<P>, Position, (u8, u8)) -> (Anchor<P>, AnchorOutcome),
        F: Fn(&SimView, usize) -> Vec<CombatIntent>,
        R: Fn(&CombatWorld, PlayerId, &Vec<MoveRequest>, &C, &K) -> (Vec<(CreepId, Direction)>, K),
    >(
        &mut self,
        world: &CombatWorld,
        look: &L,
        measure: &M,
        advance: &V,
        fight: &F,
        route: &R,
    ) -> (result: (Intents, AnchorOutcome))
        requires
            old(self).layout_fits(),
            call_requires(
                *look,
                (
                    world,
                    old(self).owner,
                    old(self).anchor.virtual_pos,
                    old(self).anchor.virtual_pos.room_name(),
                ),
            ),
            forall|positions: &Vec<Position>, anchor: Position, layout: &Vec<(i32, i32)>| #[trigger]
                call_requires(*measure, (positions, anchor, layout, COHESION_TOL)),
            forall|anchor: &Anchor<P>, size: (u8, u8)| #[trigger]
                call_requires(
                    *advance,
                    (world, old(self).owner, anchor, old(self).objective, size),
                ),
            forall|view: &SimView, friend: usize|
                friend < view.friends@.len() ==> #[trigger] call_requires(
                    *fight,
                    (view, friend),
                ),
            forall|reqs: &Vec<MoveRequest>, config: &C, cache: &K| #[trigger]
                call_requires(*route, (world, old(self).owner, reqs, config, cache)),
        ensures
            exists|view: SimView, tick: SquadTick|
                {
                    &&& call_ensures(
                        *look,
                        (
                            world,
                            old(self).owner,
                            old(self).anchor.virtual_pos,
                            old(self).anchor.virtual_pos.room_name(),
                        ),
                        view,
                    )
                    &&& #[trigger] old(self).steps_to(
                        world,
                        &view,
                        *measure,
                        *advance,
                        *fight,
                        *route,
                        tick,
                        *final(self),
                        result.0@,
                        result.1,
                    )
                },
    {
        let at = self.anchor.virtual_pos;
        let view = look(world, self.owner, at, at.room_name());
        self.step_in_view(world, &view, measure, advance, fight, route)
    }

    /// One tick of the squad with `view` before it.
    ///
    /// `measure` judges how gathered the members are, given the anchor, the slots and the tolerance
    /// within which a member is in formation; `advance` moves the anchor toward the objective with
    /// a footprint; `fight` picks the combat intents of a member in view; and `route` turns all
    /// requests into steps in one pass.
    pub fn step_in_view<
        M: Fn(&Vec<Position>, Position, &Vec<(i32, i32)>, u32) -> GatherReading,
        V: Fn(&CombatWorld, PlayerId, &Anchor<P>, Position, (u8, u8)) -> (Anchor<P>, AnchorOutcome),
        F: Fn(&SimView, usize) -> Vec<CombatIntent>,
        R: Fn(&CombatWorld, PlayerId, &Vec<MoveRequest>, &C, &K) -> (Vec<(CreepId, Direction)>, K),
    >(
        &mut self,
        world: &CombatWorld,
        view: &SimView,
        measure: &M,
        advance: &V,
        fight: &F,
        route: &R,
    ) -> (result: (Intents, AnchorOutcome))
        requires
            old(self).layout_fits(),
            forall|positions: &Vec<Position>, anchor: Position, layout: &Vec<(i32, i32)>| #[trigger]
                call_requires(*measure, (positions, anchor, layout, COHESION_TOL)),
            forall|anchor: &Anchor<P>, size: (u8, u8)| #[trigger]
                call_requires(
                    *advance,
                    (world, old(self).owner, anchor, old(self).objective, size),
                ),
            forall|friend: usize|
                friend < view.friends@.len() ==> #[trigger] call_requires(
                    *fight,
                    (view, friend),
                ),
            forall|reqs: &Vec<MoveRequest>, config: &C, cache: &K| #[trigger]
                call_requires(*route, (world, old(self).owner, reqs, config, cache)),
        ensures
            exists|tick: SquadTick| #[trigger]
                old(self).steps_to(
                    world,
                    view,
                    *measure,
                    *advance,
                    *fight,
                    *route,
                    tick,
                    *final(self),
                    result.0@,
                    result.1,
                ),
    {
        let ghost before = *self;
        let positions = self.member_positions(view);
        let reading = measure(
            &positions,
            self.anchor.virtual_pos,
            &self.layout,
            COHESION_TOL,
        );
        let gathered = self.is_gathered(reading);
        let blob = self.members.len() > 4;
        let mut outcome = AnchorOutcome::Advanced;
        if gathered {
            if blob {
                let (anchor, came) = advance(
                    world,
                    self.owner,
                    &self.anchor,
                    self.objective,
                    (1, 1),
                );
                self.anchor = anchor;
                outcome = came;
            } else {
                let size = self.footprint();
                let (anchor, came) = advance(
                    world,
                    self.owner,
                    &self.anchor,
                    self.objective,
                    size,
                );
                proof {
                    assert(call_ensures(
                        *advance,
                        (world, before.owner, &before.anchor, before.objective, size),
                        (anchor, came),
                    ));
                }
                self.anchor = anchor;
                outcome = came;
                if came == AnchorOutcome::Blocked {
                    self.loose = true;
                    let (anchor, came) = advance(
                        world,
                        self.owner,
                        &self.anchor,
                        self.objective,
                        (1, 1),
                    );
                    self.anchor = anchor;
                    outcome = came;
                } else {
                    self.loose = false;
                }
            }
        }
        proof {
            assert(before.advances_to(
                world,
                gathered,
                *advance,
                self.anchor,
                outcome,
                self.loose,
            ));
        }
        let mode = self.formation_mode(world);
        // Reading the anchor's coordinates shows that they lie inside the room.
        let (_x, _y): (u8, u8) = (mode.anchor.x(), mode.anchor.y());
        let ghost creeps = world.creeps@;
        let mut intents = Intents::new();
        let mut move_reqs: Vec<MoveRequest> = Vec::new();
        let ghost mut fights: Seq<Vec<CombatIntent>> = Seq::empty();
        let mut slot: usize = 0;
        proof {
            assert(request_views(move_reqs@) =~= self.formation_requests(creeps, mode, 0));
        }
        while slot < self.members.len()
            invariant
                slot <= self.members@.len(),
                fights.len() == slot,
                creeps == world.creeps@,
                self.layout_fits(),
                mode.anchor.valid(),
                forall|friend: usize|
                    friend < view.friends@.len() ==> #[trigger] call_requires(
                        *fight,
                        (view, friend),
                    ),
                request_views(move_reqs@) == self.formation_requests(creeps, mode, slot as int),
                self.fought(creeps, view, *fight, fights, slot as int),
                intents@ == (IntentsView {
                    creeps: self.combat_orders(creeps, view.friends@, fights, slot as int),
                    moves: Map::empty(),
                    towers: Map::empty(),
                }),
            decreases self.members@.len() - slot,
        {
            let member_id: CreepId = self.members[slot];
            let ghost seen = fights;
            let ghost mut fought: Vec<CombatIntent> = arbitrary();
            if world.living_creep(member_id).is_some() {
                if let Some(friend) = view.friend_index(member_id) {
                    let chosen = fight(view, friend);
                    proof {
                        fought = chosen;
                    }
                    let actions = engine_actions(&chosen);
                    if actions.len() > 0 {
                        intents.set(member_id, actions);
                    }
                }
                let mut req = MoveRequest::new(member_id, self.member_goal(mode, slot));
                req.engaged = true;
                let ghost built = move_reqs@;
                move_reqs.push(req);
                proof {
                    assert(request_views(move_reqs@) =~= request_views(built).push(req@));
                }
            }
            proof {
                fights = seen.push(fought);
                self.lemma_orders_prefix(creeps, view.friends@, seen, fights, slot as int);
            }
            slot = slot + 1;
        }
        push_hold_requests(world, &self.members, &mut move_reqs);
        let (steps, cache) = route(
            world,
            self.owner,
            &move_reqs,
            &self.mover_config,
            &self.move_cache,
        );
        intents.set_moves(&steps);
        let ghost routed = *self;
        self.move_cache = cache;
        let ghost tick = SquadTick { positions, reading, fights, reqs: move_reqs, steps };
        proof {
            let n = before.members@.len() as int;
            assert(before.fought(creeps, view, *fight, fights, n));
            before.lemma_same_members(routed, creeps, view.friends@, fights, n);
            routed.lemma_cache_apart(*self, creeps, mode, n);
            assert(*self == SimSquad {
                anchor: self.anchor,
                loose: self.loose,
                move_cache: self.move_cache,
                ..before
            });
        }
        let result = (intents, outcome);
        assert(old(self).steps_to(
            world,
            view,
            *measure,
            *advance,
            *fight,
            *route,
            tick,
            *final(self),
            result.0@,
            result.1,
        ));
        result
    }

    proof fn lemma_orders_prefix(
        self,
        creeps: Seq<SimCreep>,
        friends: Seq<FriendView>,
        a: Seq<Vec<CombatIntent>>,
        b: Seq<Vec<CombatIntent>>,
        k: int,
    )
        requires
            0 <= k <= a.len() <= b.len(),
            forall|i: int| 0 <= i < a.len() ==> a[i] == b[i],
        ensures
            self.combat_orders(creeps, friends, a, k) == self.combat_orders(creeps, friends, b, k),
        decreases k,
    {
        if k > 0 {
            self.lemma_orders_prefix(creeps, friends, a, b, k - 1);
        }
    }

    proof fn lemma_same_members(
        self,
        other: SimSquad<P, C, K>,
        creeps: Seq<SimCreep>,
        friends: Seq<FriendView>,
        fights: Seq<Vec<CombatIntent>>,
        k: int,
    )
        requires
            self.members@ == other.members@,
        ensures
            self.combat_orders(creeps, friends, fights, k) == other.combat_orders(
                creeps,
                friends,
                fights,
                k,
            ),
        decreases k,
    {
        if k > 0 {
            self.lemma_same_members(other, creeps, friends, fights, k - 1);
        }
    }

    /// What the mover keeps plays no part in the formation.
    proof fn lemma_cache_apart(
        self,
        other: SimSquad<P, C, K>,
        creeps: Seq<SimCreep>,
        mode: FormationMode,
        k: int,
    )
        requires
            other == (SimSquad { move_cache: other.move_cache, ..self }),
        ensures
            self.mode(creeps) == other.mode(creeps),
            self.formation_requests(creeps, mode, k) == other.formation_requests(creeps, mode, k),
        decreases k,
    {
        let room = self.anchor.virtual_pos.room_name();
        assert(self.straddles(creeps, room) == other.straddles(creeps, room)) by {
            assert(self.members@ == other.members@);
            if self.straddles(creeps, room) {
                let i = choose|i: int|
                    {
                        &&& 0 <= i < self.members@.len()
                        &&& first_living(creeps, #[trigger] self.members@[i]) matches Some(c)
                        &&& c.pos.room_name() != room
                    };
                assert(first_living(creeps, other.members@[i]) is Some);
            }
        }
        if k > 0 {
            self.lemma_cache_apart(other, creeps, mode, k - 1);
        }
    }
}

/// A slot lies in the anchor's room, and where the offset stays inside the room it is exactly that
/// far from the anchor.
pub proof fn law_slots_stay_in_the_room(anchor: Position, offset: (i32, i32))
    requires
        anchor.valid(),
    ensures
        folded(anchor, offset).valid(),
        folded(anchor, offset).room_name() == anchor.room_name(),
        0 <= anchor.x() + offset.0 < 50 ==> folded(anchor, offset).x() == anchor.x() + offset.0,
        0 <= anchor.y() + offset.1 < 50 ==> folded(anchor, offset).y() == anchor.y() + offset.1,
{
}

/// Whether two offsets along an axis lie on the same side of the anchor, and within half a room.
pub open spec fn same_side(a: int, b: int) -> bool {
    ||| 0 <= a <= 25 && 0 <= b <= 25
    ||| -25 <= a <= 0 && -25 <= b <= 0
}

/// Distinct slots of a layout that grows to one side of the anchor along each axis stay distinct
/// tiles wherever the anchor is, also where some of them fold at the room's edge.
pub proof fn law_folded_slots_stay_distinct(anchor: Position, a: (i32, i32), b: (i32, i32))
    requires
        anchor.valid(),
        same_side(a.0 as int, b.0 as int),
        same_side(a.1 as int, b.1 as int),
        a != b,
    ensures
        folded(anchor, a) != folded(anchor, b),
{
    if a.0 != b.0 {
        assert(fold(anchor.x() as int, a.0 as int) != fold(anchor.x() as int, b.0 as int));
    } else {
        assert(fold(anchor.y() as int, a.1 as int) != fold(anchor.y() as int, b.1 as int));
    }
}

/// Whether folding an offset mirrors it into the room, with nothing to cut off.
pub open spec fn folds_whole(c: int, o: int) -> bool {
    0 <= c + o < 50 || 0 <= c - o < 50
}

/// Whether two offsets come to the same coordinate: they are equal, or one is the other's mirror
/// image and leaves the room.
pub open spec fn coincide(c: int, a: int, b: int) -> bool {
    a == b || (a == -b && !(0 <= c + a < 50 && 0 <= c + b < 50))
}

/// Two slots that fold whole share a tile exactly where, along each axis, they are equal or one
/// beyond the edge mirrors onto the other.
pub proof fn law_slots_share_a_tile_only_by_mirroring(
    anchor: Position,
    a: (i32, i32),
    b: (i32, i32),
)
    requires
        anchor.valid(),
        folds_whole(anchor.x() as int, a.0 as int),
        folds_whole(anchor.x() as int, b.0 as int),
        folds_whole(anchor.y() as int, a.1 as int),
        folds_whole(anchor.y() as int, b.1 as int),
    ensures
        folded(anchor, a) == folded(anchor, b) <==> coincide(
            anchor.x() as int,
            a.0 as int,
            b.0 as int,
        ) && coincide(anchor.y() as int, a.1 as int, b.1 as int),
{
    let x = anchor.x() as int;
    let y = anchor.y() as int;
    assert(fold(x, a.0 as int) == fold(x, b.0 as int) <==> coincide(x, a.0 as int, b.0 as int));
    assert(fold(y, a.1 as int) == fold(y, b.1 as int) <==> coincide(y, a.1 as int, b.1 as int));
    assert(folded(anchor, a).x() == fold(x, a.0 as int));
    assert(folded(anchor, b).x() == fold(x, b.0 as int));
    assert(folded(anchor, a).y() == fold(y, a.1 as int));
    assert(folded(anchor, b).y() == fold(y, b.1 as int));
}

/// A slot less than a room away from the anchor folds onto the anchor only where it is the
/// anchor's own.
pub proof fn law_slots_never_stack_on_the_anchor(anchor: Position, offset: (i32, i32))
    requires
        anchor.valid(),
        -50 < offset.0 < 50,
        -50 < offset.1 < 50,
        offset != (0i32, 0i32),
    ensures
        folded(anchor, offset) != anchor,
{
    if offset.0 != 0 {
        assert(fold(anchor.x() as int, offset.0 as int) != anchor.x());
    } else {
        assert(fold(anchor.y() as int, offset.1 as int) != anchor.y());
    }
}

proof fn lemma_extremes(offsets: Seq<int>, i: int)
    requires
        0 <= i < offsets.len(),
    ensures
        least(offsets) <= offsets[i] <= greatest(offsets),
        least(offsets) <= 0 <= greatest(offsets),
    decreases offsets.len(),
{
    let init = offsets.drop_last();
    if i < init.len() {
        lemma_extremes(init, i);
        assert(init[i] == offsets[i]);
    } else if init.len() > 0 {
        lemma_extremes(init, 0);
    } else {
        assert(least(init) == 0 && greatest(init) == 0);
    }
}

/// The footprint covers the layout: along each axis any two slots, and any slot and the anchor, are
/// less than its side apart, or the side is wider than any room.
pub proof fn law_footprint_covers_the_layout(layout: Seq<(i32, i32)>, i: int, j: int)
    requires
        0 <= i < layout.len(),
        0 <= j < layout.len(),
    ensures
        ({
            let (w, h) = layout_footprint(layout);
            &&& w == 255 || (layout[i].0 - layout[j].0 < w && -w < layout[i].0 < w)
            &&& h == 255 || (layout[i].1 - layout[j].1 < h && -h < layout[i].1 < h)
        }),
{
    lemma_extremes(columns(layout), i);
    lemma_extremes(columns(layout), j);
    lemma_extremes(rows(layout), i);
    lemma_extremes(rows(layout), j);
    assert(columns(layout)[i] == layout[i].0 && columns(layout)[j] == layout[j].0);
    assert(rows(layout)[i] == layout[i].1 && rows(layout)[j] == layout[j].1);
}

impl<P, C, K> SimSquad<P, C, K> {
    /// Every living member asks for its own slot, so that the guard that adds holds finds nothing
    /// left to add.
    pub proof fn law_every_living_member_has_its_request(
        self,
        creeps: Seq<SimCreep>,
        mode: FormationMode,
    )
        ensures
            forall|id: CreepId| #[trigger]
                self.members@.contains(id) && first_living(creeps, id) is Some ==> requested(
                    self.formation_requests(creeps, mode, self.members@.len() as int),
                    id,
                ),
            with_holds(
                creeps,
                self.members@,
                self.formation_requests(creeps, mode, self.members@.len() as int),
            ) == self.formation_requests(creeps, mode, self.members@.len() as int),
    {
        let n = self.members@.len() as int;
        let reqs = self.formation_requests(creeps, mode, n);
        assert forall|id: CreepId| #[trigger]
            self.members@.contains(id) && first_living(creeps, id) is Some implies requested(
            reqs,
            id,
        ) by {
            let m = choose|m: int| 0 <= m < n && self.members@[m] == id;
            self.lemma_member_requested(creeps, mode, m, n);
        }
        law_requested_members_need_no_hold(creeps, self.members@, reqs);
    }

    proof fn lemma_member_requested(
        self,
        creeps: Seq<SimCreep>,
        mode: FormationMode,
        m: int,
        k: int,
    )
        requires
            0 <= m < k <= self.members@.len(),
            first_living(creeps, self.members@[m]) is Some,
        ensures
            requested(self.formation_requests(creeps, mode, k), self.members@[m]),
        decreases k,
    {
        let before = self.formation_requests(creeps, mode, k - 1);
        let after = self.formation_requests(creeps, mode, k);
        if m == k - 1 {
            assert(after[before.len() as int].creep == self.members@[m]);
        } else {
            self.lemma_member_requested(creeps, mode, m, k - 1);
            let i = choose|i: int|
                0 <= i < before.len() && (#[trigger] before[i]).creep == self.members@[m];
            assert(after[i] == before[i]);
        }
    }

    /// A squad that is not gathered keeps its anchor and its mode, and waits for its stragglers.
    pub proof fn law_stragglers_are_waited_for<
        V: Fn(&CombatWorld, PlayerId, &Anchor<P>, Position, (u8, u8)) -> (Anchor<P>, AnchorOutcome),
    >(
        self,
        world: &CombatWorld,
        reading: GatherReading,
        advance: V,
        anchor: Anchor<P>,
        outcome: AnchorOutcome,
        loose: bool,
    )
        requires
            self.advances_to(
                world,
                self.gathered(reading),
                advance,
                anchor,
                outcome,
                loose,
            ),
            !reading.near_anchor,
            !reading.in_formation,
        ensures
            anchor == self.anchor,
            loose == self.loose,
            outcome == AnchorOutcome::Advanced,
    {
    }

    /// Before the anchor steps across a border the squad gathers at it, whether or not it is in
    /// formation.
    pub proof fn law_border_is_crossed_gathered(self, reading: GatherReading)
        requires
            self.anchor.next_step_crosses_room,
        ensures
            self.gathered(reading) == reading.near_anchor,
    {
    }

    /// Once it has advanced, a small squad is loose exactly where its box was blocked; it is
    /// reported blocked only where a single tile was blocked as well.
    pub proof fn law_loose_until_the_box_fits<
        V: Fn(&CombatWorld, PlayerId, &Anchor<P>, Position, (u8, u8)) -> (Anchor<P>, AnchorOutcome),
    >(
        self,
        world: &CombatWorld,
        reading: GatherReading,
        advance: V,
        anchor: Anchor<P>,
        outcome: AnchorOutcome,
        loose: bool,
    )
        requires
            self.advances_to(
                world,
                self.gathered(reading),
                advance,
                anchor,
                outcome,
                loose,
            ),
            self.gathered(reading),
            !self.is_blob(),
        ensures
            exists|size: (u8, u8), first: (Anchor<P>, AnchorOutcome)|
                {
                    &&& (size.0 as int, size.1 as int) == layout_footprint(self.layout@)
                    &&& #[trigger] call_ensures(
                        advance,
                        (world, self.owner, &self.anchor, self.objective, size),
                        first,
                    )
                    &&& loose == (first.1 == AnchorOutcome::Blocked)
                    &&& outcome == AnchorOutcome::Blocked ==> loose && call_ensures(
                        advance,
                        (world, self.owner, &first.0, self.objective, (1u8, 1u8)),
                        (anchor, outcome),
                    )
                },
    {
        let (size, first) = choose|size: (u8, u8), first: (Anchor<P>, AnchorOutcome)|
            {
                &&& (size.0 as int, size.1 as int) == layout_footprint(self.layout@)
                &&& #[trigger] call_ensures(
                    advance,
                    (world, self.owner, &self.anchor, self.objective, size),
                    first,
                )
                &&& if first.1 == AnchorOutcome::Blocked {
                    &&& loose
                    &&& call_ensures(
                        advance,
                        (world, self.owner, &first.0, self.objective, (1u8, 1u8)),
                        (anchor, outcome),
                    )
                } else {
                    &&& !loose
                    &&& first == (anchor, outcome)
                }
            };
        assert(call_ensures(
            advance,
            (world, self.owner, &self.anchor, self.objective, size),
            first,
        ));
    }

    /// A tight box goes to its exact slots; a blob, or a squad on a border, to within one tile of
    /// them; only a small loose squad away from a border goes in single file behind the anchor.
    pub proof fn law_single_file_only_in_a_corridor(self, creeps: Seq<SimCreep>, slot: int)
        requires
            0 <= slot < self.layout@.len(),
        ensures
            ({
                let mode = self.mode(creeps);
                let slot_pos = folded(self.anchor.virtual_pos, self.layout@[slot]);
                let goal = self.slot_goal(mode, slot);
                &&& self.is_blob() ==> goal == MoveGoalView::To { target: slot_pos, range: 1 }
                &&& mode.crossing ==> goal == MoveGoalView::To { target: slot_pos, range: 1 }
                &&& !self.is_blob() && !self.loose && !mode.crossing ==> goal
                    == MoveGoalView::To { target: slot_pos, range: 0 }
                &&& !self.is_blob() && self.loose && !mode.crossing ==> goal
                    == MoveGoalView::To { target: self.anchor.virtual_pos, range: 1 }
            }),
    {
    }
}

/// Whether `s` is the coordinate of a slot at offset `o` from `c`: as far from it as the offset
/// says, on that side where the room goes on so far, else on the other; where neither side is wide
/// enough, the end of the other side.
pub open spec fn set_off(c: int, o: int, s: int) -> bool {
    &&& 0 <= s <= 49
    &&& 0 <= c + o <= 49 ==> s - c == o
    &&& !(0 <= c + o <= 49) && 0 <= c - o <= 49 ==> c - s == o
    &&& !(0 <= c + o <= 49) && !(0 <= c - o <= 49) ==> if o > 0 {
        s == 0
    } else {
        s == 49
    }
}

/// Whether `slot` is the tile set off from the anchor by `offset`.
pub open spec fn lies_at(anchor: Position, offset: (i32, i32), slot: Position) -> bool {
    &&& slot.room_name() == anchor.room_name()
    &&& set_off(anchor.x() as int, offset.0 as int, slot.x() as int)
    &&& set_off(anchor.y() as int, offset.1 as int, slot.y() as int)
}

/// A slot is set off from the anchor by its offset, and mirrored at the room's edge.
pub proof fn law_slots_are_mirrored_at_the_edge(anchor: Position, offset: (i32, i32))
    requires
        anchor.valid(),
    ensures
        lies_at(anchor, offset, folded(anchor, offset)),
{
}

/// Whether the anchor or some slot of the layout has this column.
pub open spec fn takes_column(layout: Seq<(i32, i32)>, a: int) -> bool {
    a == 0 || exists|i: int| 0 <= i < layout.len() && (#[trigger] layout[i]).0 == a
}

/// Whether the anchor or some slot of the layout has this row.
pub open spec fn takes_row(layout: Seq<(i32, i32)>, a: int) -> bool {
    a == 0 || exists|i: int| 0 <= i < layout.len() && (#[trigger] layout[i]).1 == a
}

/// The footprint is no wider and no higher than the layout needs: two of the slots and the anchor
/// are as far apart along each axis as its side says, or farther where the side is cut.
pub proof fn law_footprint_is_tight(layout: Seq<(i32, i32)>)
    ensures
        exists|a: int, b: int|
            {
                &&& #[trigger] takes_column(layout, a)
                &&& #[trigger] takes_column(layout, b)
                &&& layout_footprint(layout).0 == (if a - b < 255 {
                    a - b + 1
                } else {
                    255
                })
            },
        exists|a: int, b: int|
            {
                &&& #[trigger] takes_row(layout, a)
                &&& #[trigger] takes_row(layout, b)
                &&& layout_footprint(layout).1 == (if a - b < 255 {
                    a - b + 1
                } else {
                    255
                })
            },
{
    let xs = columns(layout);
    let ys = rows(layout);
    lemma_extremes_are_taken(xs);
    lemma_extremes_are_taken(ys);
    assert forall|a: int| a == 0 || xs.contains(a) implies #[trigger] takes_column(layout, a) by {
        if a != 0 {
            let i = choose|i: int| 0 <= i < xs.len() && xs[i] == a;
            assert(layout[i].0 == a);
        }
    }
    assert forall|a: int| a == 0 || ys.contains(a) implies #[trigger] takes_row(layout, a) by {
        if a != 0 {
            let i = choose|i: int| 0 <= i < ys.len() && ys[i] == a;
            assert(layout[i].1 == a);
        }
    }
    assert(takes_column(layout, greatest(xs)) && takes_column(layout, least(xs)));
    assert(takes_row(layout, greatest(ys)) && takes_row(layout, least(ys)));
}

proof fn lemma_extremes_are_taken(offsets: Seq<int>)
    ensures
        greatest(offsets) == 0 || offsets.contains(greatest(offsets)),
        least(offsets) == 0 || offsets.contains(least(offsets)),
    decreases offsets.len(),
{
    if offsets.len() > 0 {
        let init = offsets.drop_last();
        lemma_extremes_are_taken(init);
        assert(offsets[offsets.len() - 1] == offsets.last());
        assert forall|a: int| init.contains(a) implies #[trigger] offsets.contains(a) by {
            let i = choose|i: int| 0 <= i < init.len() && init[i] == a;
            assert(offsets[i] == a);
        }
    }
}

/// Where a creep is shown, the view gives the position of the first friend that is it; where a
/// creep lives, the world gives that of the first living one.
pub proof fn law_positions_are_the_creeps_own(
    friends: Seq<FriendView>,
    creeps: Seq<SimCreep>,
    id: CreepId,
)
    ensures
        forall|k: int| #[trigger]
            shown_first(friends, id, k) ==> friend_pos(friends)(id) == Some(friends[k].pos),
        friend_pos(friends)(id) is None <==> forall|j: int|
            0 <= j < friends.len() ==> (#[trigger] friends[j]).creep != id,
        forall|k: int| #[trigger]
            lives_first(creeps, id, k) ==> living_pos(creeps)(id) == Some(creeps[k].pos),
        living_pos(creeps)(id) is None <==> forall|j: int|
            0 <= j < creeps.len() ==> !((#[trigger] creeps[j]).id == id && creeps[j].alive),
{
    law_first_friend_is_found(friends, id);
    law_first_living_creep_is_found(creeps, id);
}

/// The living members' positions come in slot order, each where its first living creep stands, and
/// there are no others.
pub proof fn law_living_members_have_their_positions(creeps: Seq<SimCreep>, members: Seq<CreepId>)
    ensures
        filter_map(members, living_pos(creeps)).len() == count_where(members, living(creeps)),
        forall|m: int, k: int|
            #![trigger lives_first(creeps, members[m], k)]
            0 <= m < members.len() && lives_first(creeps, members[m], k) ==> {
                let p = count_where(members.take(m), living(creeps)) as int;
                &&& p < filter_map(members, living_pos(creeps)).len()
                &&& filter_map(members, living_pos(creeps))[p] == creeps[k].pos
            },
{
    let keep = living_pos(creeps);
    assert forall|id: CreepId| #[trigger] keep(id) is Some <==> living(creeps)(id) by {
        law_first_living_creep_is_found(creeps, id);
    }
    lemma_filter_map_count(members, keep, living(creeps));
    assert forall|m: int, k: int|
        #![trigger lives_first(creeps, members[m], k)]
        0 <= m < members.len() && lives_first(creeps, members[m], k) implies {
        let p = count_where(members.take(m), living(creeps)) as int;
        &&& p < filter_map(members, living_pos(creeps)).len()
        &&& filter_map(members, living_pos(creeps))[p] == creeps[k].pos
    } by {
        law_first_living_creep_is_found(creeps, members[m]);
        assert(keep(members[m]) == Some(creeps[k].pos));
        lemma_filter_map_index(members, keep, living(creeps), m);
    }
}

impl<P, C, K> SimSquad<P, C, K> {
    /// The members' mode is loose for a squad of more than four and for one that goes in single
    /// file, and crossing on a border; it is about the anchor where that stands.
    pub proof fn law_mode_tells_how_the_squad_goes(self, creeps: Seq<SimCreep>)
        ensures
            self.mode(creeps).anchor == self.anchor.virtual_pos,
            self.mode(creeps).loose <==> self.members@.len() >= 5 || self.loose,
            self.mode(creeps).crossing <==> self.on_a_border(creeps),
    {
        self.lemma_border(creeps);
    }

    /// In whatever mode, a member of at most four that is loose and not crossing goes to within one
    /// tile of the anchor; any other goes to its slot, or to the anchor itself where the layout has
    /// none for it, exactly where the mode is neither loose nor crossing and else to within one
    /// tile.
    pub proof fn law_goals_follow_the_mode(self, mode: FormationMode, slot: int)
        requires
            mode.anchor.valid(),
            0 <= slot,
        ensures
            ({
                &&& self.slot_goal(mode, slot) matches MoveGoalView::To { target, range }
                &&& if self.members@.len() <= 4 && mode.loose && !mode.crossing {
                    target == mode.anchor && range == 1
                } else {
                    &&& range == 0 <==> !mode.loose && !mode.crossing
                    &&& range <= 1
                    &&& slot < self.layout@.len() ==> lies_at(
                        mode.anchor,
                        self.layout@[slot],
                        target,
                    )
                    &&& slot >= self.layout@.len() ==> target == mode.anchor
                }
            }),
    {
        mode.anchor.lemma_made_of_parts();
    }

    /// Whether the anchor is about to leave its room, or a living member stands outside it.
    pub open spec fn on_a_border(self, creeps: Seq<SimCreep>) -> bool {
        self.anchor.next_step_crosses_room || exists|i: int, j: int|
            {
                &&& 0 <= i < self.members@.len()
                &&& #[trigger] lives_first(creeps, self.members@[i], j)
                &&& creeps[j].pos.room_name() != self.anchor.virtual_pos.room_name()
            }
    }

    /// Whether a request is a plain one of member `m`, to follow the anchor in single file in a
    /// corridor, and else to go to the slot of `m` itself.
    pub open spec fn keeps_its_slot(
        self,
        creeps: Seq<SimCreep>,
        m: int,
        req: MoveRequest,
    ) -> bool {
        let at = self.anchor.virtual_pos;
        let border = self.on_a_border(creeps);
        let offset = if m < self.layout@.len() {
            self.layout@[m]
        } else {
            (0i32, 0i32)
        };
        &&& req.creep == self.members@[m]
        &&& req.engaged
        &&& req.priority == MovementPriority::Standard
        &&& req.priority_value is None
        &&& req.shove is None
        &&& req.anchor is None
        &&& req.goal matches MoveGoal::To { target, range }
        &&& if self.members@.len() <= 4 && self.loose && !border {
            target == at && range == 1
        } else {
            &&& lies_at(at, offset, target)
            &&& range == (if self.members@.len() <= 4 && !self.loose && !border {
                0u32
            } else {
                1u32
            })
        }
    }

    /// Whether a request is one of a living member for its own slot.
    pub open spec fn is_a_members(self, creeps: Seq<SimCreep>, req: MoveRequest) -> bool {
        exists|m: int, k: int|
            {
                &&& 0 <= m < self.members@.len()
                &&& #[trigger] lives_first(creeps, self.members@[m], k)
                &&& self.keeps_its_slot(creeps, m, req)
            }
    }

    /// Every living member is asked to go to the slot of its own place in the squad, whichever
    /// other members live or have died. The requests come in slot order, and there are no others.
    pub proof fn law_living_members_keep_their_own_slots<
        M: Fn(&Vec<Position>, Position, &Vec<(i32, i32)>, u32) -> GatherReading,
        V: Fn(&CombatWorld, PlayerId, &Anchor<P>, Position, (u8, u8)) -> (Anchor<P>, AnchorOutcome),
        F: Fn(&SimView, usize) -> Vec<CombatIntent>,
        R: Fn(&CombatWorld, PlayerId, &Vec<MoveRequest>, &C, &K) -> (Vec<(CreepId, Direction)>, K),
    >(
        self,
        world: &CombatWorld,
        view: &SimView,
        measure: M,
        advance: V,
        fight: F,
        route: R,
        tick: SquadTick,
        after: SimSquad<P, C, K>,
        intents: IntentsView,
        outcome: AnchorOutcome,
    )
        requires
            self.steps_to(
                world,
                view,
                measure,
                advance,
                fight,
                route,
                tick,
                after,
                intents,
                outcome,
            ),
            after.anchor.virtual_pos.valid(),
        ensures
            forall|m: int, k: int|
                #![trigger lives_first(world.creeps@, self.members@[m], k)]
                0 <= m < self.members@.len() && lives_first(world.creeps@, self.members@[m], k)
                    ==> {
                    let q = count_where(self.members@.take(m), living(world.creeps@)) as int;
                    &&& q < tick.reqs@.len()
                    &&& after.keeps_its_slot(world.creeps@, m, tick.reqs@[q])
                },
            forall|q: int|
                0 <= q < tick.reqs@.len() ==> after.is_a_members(
                    world.creeps@,
                    #[trigger] tick.reqs@[q],
                ),
            tick.reqs@.len() == count_where(self.members@, living(world.creeps@)),
    {
        let creeps = world.creeps@;
        let mode = after.mode(creeps);
        let n = self.members@.len() as int;
        let wanted = after.formation_requests(creeps, mode, n);
        assert(after.members@ == self.members@);
        after.law_every_living_member_has_its_request(creeps, mode);
        assert(request_views(tick.reqs@) == wanted);
        after.lemma_border(creeps);
        let alive = living(creeps);
        let keep = |id: CreepId| first_living(creeps, id);
        assert forall|id: CreepId| #[trigger] keep(id) is Some <==> alive(id) by {
            law_first_living_creep_is_found(creeps, id);
        }
        assert forall|q: int| 0 <= q < tick.reqs@.len() implies wanted[q] == (
        #[trigger] tick.reqs@[q])@ by {
            assert(request_views(tick.reqs@)[q] == tick.reqs@[q]@);
        }
        assert forall|m: int, k: int|
            #![trigger lives_first(world.creeps@, self.members@[m], k)]
            0 <= m < n && lives_first(creeps, self.members@[m], k) implies {
            let q = count_where(self.members@.take(m), living(creeps)) as int;
            &&& q < tick.reqs@.len()
            &&& after.keeps_its_slot(creeps, m, tick.reqs@[q])
        } by {
            law_first_living_creep_is_found(creeps, self.members@[m]);
            after.lemma_requests_counted(creeps, mode, keep, m);
            lemma_filter_map_count(self.members@.take(m), keep, alive);
            after.lemma_slot_requested(creeps, mode, m, n);
            let q = after.formation_requests(creeps, mode, m).len() as int;
            after.lemma_slot_request(creeps, m, tick.reqs@[q]);
        }
        assert forall|q: int| 0 <= q < tick.reqs@.len() implies after.is_a_members(
            creeps,
            #[trigger] tick.reqs@[q],
        ) by {
            after.lemma_requests_are_slots(creeps, mode, q, n);
            let m = choose|m: int|
                {
                    &&& 0 <= m < n
                    &&& first_living(creeps, #[trigger] after.members@[m]) is Some
                    &&& wanted[q] == after.slot_request(mode, m)
                };
            law_first_living_creep_is_found(creeps, self.members@[m]);
            let k = choose|k: int| lives_first(creeps, self.members@[m], k);
            after.lemma_slot_request(creeps, m, tick.reqs@[q]);
            assert(lives_first(creeps, after.members@[m], k));
        }
        after.lemma_requests_counted(creeps, mode, keep, n);
        assert(self.members@.take(n) =~= self.members@);
        lemma_filter_map_count(self.members@, keep, alive);
    }

    spec fn slot_request(self, mode: FormationMode, m: int) -> MoveRequestView {
        MoveRequestView {
            engaged: true,
            ..MoveRequestView::plain(self.members@[m], self.slot_goal(mode, m))
        }
    }

    proof fn lemma_border(self, creeps: Seq<SimCreep>)
        ensures
            self.mode(creeps).crossing == self.on_a_border(creeps),
    {
        let room = self.anchor.virtual_pos.room_name();
        if self.straddles(creeps, room) {
            let i = choose|i: int|
                {
                    &&& 0 <= i < self.members@.len()
                    &&& first_living(creeps, #[trigger] self.members@[i]) matches Some(c)
                    &&& c.pos.room_name() != room
                };
            law_first_living_creep_is_found(creeps, self.members@[i]);
            let j = choose|j: int| lives_first(creeps, self.members@[i], j);
            assert(lives_first(creeps, self.members@[i], j));
        }
        if !self.anchor.next_step_crosses_room && self.on_a_border(creeps) {
            let (i, j) = choose|i: int, j: int|
                {
                    &&& 0 <= i < self.members@.len()
                    &&& #[trigger] lives_first(creeps, self.members@[i], j)
                    &&& creeps[j].pos.room_name() != self.anchor.virtual_pos.room_name()
                };
            law_first_living_creep_is_found(creeps, self.members@[i]);
            assert(first_living(creeps, self.members@[i]) == Some(creeps[j]));
        }
    }

    proof fn lemma_slot_request(self, creeps: Seq<SimCreep>, m: int, req: MoveRequest)
        requires
            0 <= m < self.members@.len(),
            self.anchor.virtual_pos.valid(),
            req@ == self.slot_request(self.mode(creeps), m),
            self.mode(creeps).crossing == self.on_a_border(creeps),
        ensures
            self.keeps_its_slot(creeps, m, req),
    {
        let offset = if m < self.layout@.len() {
            self.layout@[m]
        } else {
            (0i32, 0i32)
        };
        law_slots_are_mirrored_at_the_edge(self.anchor.virtual_pos, offset);
        assert(req.goal@ == self.slot_goal(self.mode(creeps), m));
    }

    proof fn lemma_slot_requested(
        self,
        creeps: Seq<SimCreep>,
        mode: FormationMode,
        m: int,
        k: int,
    )
        requires
            0 <= m < k <= self.members@.len(),
            first_living(creeps, self.members@[m]) is Some,
        ensures
            ({
                let q = self.formation_requests(creeps, mode, m).len() as int;
                &&& q < self.formation_requests(creeps, mode, k).len()
                &&& self.formation_requests(creeps, mode, k)[q] == self.slot_request(mode, m)
            }),
        decreases k,
    {
        if m < k - 1 {
            self.lemma_slot_requested(creeps, mode, m, k - 1);
        }
    }

    proof fn lemma_requests_are_slots(
        self,
        creeps: Seq<SimCreep>,
        mode: FormationMode,
        q: int,
        k: int,
    )
        requires
            0 <= k <= self.members@.len(),
            0 <= q < self.formation_requests(creeps, mode, k).len(),
        ensures
            exists|m: int|
                {
                    &&& 0 <= m < k
                    &&& first_living(creeps, #[trigger] self.members@[m]) is Some
                    &&& self.formation_requests(creeps, mode, k)[q] == self.slot_request(mode, m)
                },
        decreases k,
    {
        let before = self.formation_requests(creeps, mode, k - 1);
        if q < before.len() {
            self.lemma_requests_are_slots(creeps, mode, q, k - 1);
        } else {
            assert(first_living(creeps, self.members@[k - 1]) is Some);
        }
    }

    proof fn lemma_requests_counted(
        self,
        creeps: Seq<SimCreep>,
        mode: FormationMode,
        keep: spec_fn(CreepId) -> Option<SimCreep>,
        k: int,
    )
        requires
            0 <= k <= self.members@.len(),
            forall|id: CreepId| #[trigger] keep(id) == first_living(creeps, id),
        ensures
            self.formation_requests(creeps, mode, k).len() == filter_map(
                self.members@.take(k),
                keep,
            ).len(),
        decreases k,
    {
        if k > 0 {
            self.lemma_requests_counted(creeps, mode, keep, k - 1);
            lemma_filter_map_take(self.members@, keep, k - 1);
            assert(keep(self.members@[k - 1]) == first_living(creeps, self.members@[k - 1]));
        }
    }

    /// The anchor moves only while the squad is gathered: near the anchor for a squad of more than
    /// four, a loose one and one about to cross a border, in formation for any other. A squad of
    /// more than four moves its anchor by a single tile. A smaller one moves its box and is then no
    /// longer loose, or is loose where the box was blocked and moves a single tile from there.
    /// Nothing else of the squad changes but what the mover keeps.
    pub proof fn law_anchor_moves_with_the_gathered_squad<
        M: Fn(&Vec<Position>, Position, &Vec<(i32, i32)>, u32) -> GatherReading,
        V: Fn(&CombatWorld, PlayerId, &Anchor<P>, Position, (u8, u8)) -> (Anchor<P>, AnchorOutcome),
        F: Fn(&SimView, usize) -> Vec<CombatIntent>,
        R: Fn(&CombatWorld, PlayerId, &Vec<MoveRequest>, &C, &K) -> (Vec<(CreepId, Direction)>, K),
    >(
        self,
        world: &CombatWorld,
        view: &SimView,
        measure: M,
        advance: V,
        fight: F,
        route: R,
        tick: SquadTick,
        after: SimSquad<P, C, K>,
        intents: IntentsView,
        outcome: AnchorOutcome,
    )
        requires
            self.steps_to(
                world,
                view,
                measure,
                advance,
                fight,
                route,
                tick,
                after,
                intents,
                outcome,
            ),
        ensures
            call_ensures(
                measure,
                (&tick.positions, self.anchor.virtual_pos, &self.layout, 1u32),
                tick.reading,
            ),
            ({
                let gathered = if self.members@.len() > 4 || self.loose
                    || self.anchor.next_step_crosses_room {
                    tick.reading.near_anchor
                } else {
                    tick.reading.in_formation
                };
                &&& !gathered ==> {
                    &&& after.anchor == self.anchor
                    &&& after.loose == self.loose
                    &&& outcome == AnchorOutcome::Advanced
                }
                &&& gathered && self.members@.len() > 4 ==> {
                    &&& after.loose == self.loose
                    &&& call_ensures(
                        advance,
                        (world, self.owner, &self.anchor, self.objective, (1u8, 1u8)),
                        (after.anchor, outcome),
                    )
                }
                &&& gathered && self.members@.len() <= 4 ==> exists|
                    size: (u8, u8),
                    first: (Anchor<P>, AnchorOutcome),
                |
                    {
                        &&& (size.0 as int, size.1 as int) == layout_footprint(self.layout@)
                        &&& #[trigger] call_ensures(
                            advance,
                            (world, self.owner, &self.anchor, self.objective, size),
                            first,
                        )
                        &&& after.loose == (first.1 == AnchorOutcome::Blocked)
                        &&& !after.loose ==> first == (after.anchor, outcome)
                        &&& after.loose ==> call_ensures(
                            advance,
                            (world, self.owner, &first.0, self.objective, (1u8, 1u8)),
                            (after.anchor, outcome),
                        )
                    }
            }),
            call_ensures(
                route,
                (world, self.owner, &tick.reqs, &self.mover_config, &self.move_cache),
                (tick.steps, after.move_cache),
            ),
            after.owner == self.owner,
            after.members == self.members,
            after.layout == self.layout,
            after.objective == self.objective,
            after.mover_config == self.mover_config,
    {
        if self.gathered(tick.reading) && !self.is_blob() {
            let (size, first) = choose|size: (u8, u8), first: (Anchor<P>, AnchorOutcome)|
                {
                    &&& (size.0 as int, size.1 as int) == layout_footprint(self.layout@)
                    &&& #[trigger] call_ensures(
                        advance,
                        (world, self.owner, &self.anchor, self.objective, size),
                        first,
                    )
                    &&& if first.1 == AnchorOutcome::Blocked {
                        &&& after.loose
                        &&& call_ensures(
                            advance,
                            (world, self.owner, &first.0, self.objective, (1u8, 1u8)),
                            (after.anchor, outcome),
                        )
                    } else {
                        &&& !after.loose
                        &&& first == (after.anchor, outcome)
                    }
                };
            assert(call_ensures(
                advance,
                (world, self.owner, &self.anchor, self.objective, size),
                first,
            ));
        }
    }

    /// How gathered the squad is, is measured on where the members stand that the view shows, in
    /// slot order, and on no others.
    pub proof fn law_shown_members_are_measured<
        M: Fn(&Vec<Position>, Position, &Vec<(i32, i32)>, u32) -> GatherReading,
        V: Fn(&CombatWorld, PlayerId, &Anchor<P>, Position, (u8, u8)) -> (Anchor<P>, AnchorOutcome),
        F: Fn(&SimView, usize) -> Vec<CombatIntent>,
        R: Fn(&CombatWorld, PlayerId, &Vec<MoveRequest>, &C, &K) -> (Vec<(CreepId, Direction)>, K),
    >(
        self,
        world: &CombatWorld,
        view: &SimView,
        measure: M,
        advance: V,
        fight: F,
        route: R,
        tick: SquadTick,
        after: SimSquad<P, C, K>,
        intents: IntentsView,
        outcome: AnchorOutcome,
    )
        requires
            self.steps_to(
                world,
                view,
                measure,
                advance,
                fight,
                route,
                tick,
                after,
                intents,
                outcome,
            ),
        ensures
            tick.positions@.len() == count_where(self.members@, shown(view.friends@)),
            forall|m: int, f: int|
                #![trigger shown_first(view.friends@, self.members@[m], f)]
                0 <= m < self.members@.len() && shown_first(view.friends@, self.members@[m], f)
                    ==> {
                    let p = count_where(self.members@.take(m), shown(view.friends@)) as int;
                    &&& p < tick.positions@.len()
                    &&& tick.positions@[p] == view.friends@[f].pos
                },
    {
        let friends = view.friends@;
        let keep = friend_pos(friends);
        assert forall|id: CreepId| #[trigger] keep(id) is Some <==> shown(friends)(id) by {
            law_first_friend_is_found(friends, id);
        }
        lemma_filter_map_count(self.members@, keep, shown(friends));
        assert forall|m: int, f: int|
            #![trigger shown_first(view.friends@, self.members@[m], f)]
            0 <= m < self.members@.len() && shown_first(
                view.friends@,
                self.members@[m],
                f,
            ) implies {
            let p = count_where(self.members@.take(m), shown(view.friends@)) as int;
            &&& p < tick.positions@.len()
            &&& tick.positions@[p] == view.friends@[f].pos
        } by {
            law_first_friend_is_found(friends, self.members@[m]);
            assert(keep(self.members@[m]) == Some(friends[f].pos));
            lemma_filter_map_index(self.members@, keep, shown(friends), m);
        }
    }

    /// A living member that the view shows carries out the actions that were chosen for it, and
    /// none where none were; nobody else carries out any.
    pub proof fn law_members_do_what_was_chosen_for_them<
        M: Fn(&Vec<Position>, Position, &Vec<(i32, i32)>, u32) -> GatherReading,
        V: Fn(&CombatWorld, PlayerId, &Anchor<P>, Position, (u8, u8)) -> (Anchor<P>, AnchorOutcome),
        F: Fn(&SimView, usize) -> Vec<CombatIntent>,
        R: Fn(&CombatWorld, PlayerId, &Vec<MoveRequest>, &C, &K) -> (Vec<(CreepId, Direction)>, K),
    >(
        self,
        world: &CombatWorld,
        view: &SimView,
        measure: M,
        advance: V,
        fight: F,
        route: R,
        tick: SquadTick,
        after: SimSquad<P, C, K>,
        intents: IntentsView,
        outcome: AnchorOutcome,
        m: int,
        k: int,
        f: int,
    )
        requires
            self.steps_to(
                world,
                view,
                measure,
                advance,
                fight,
                route,
                tick,
                after,
                intents,
                outcome,
            ),
            0 <= m < self.members@.len(),
            forall|j: int|
                0 <= j < self.members@.len() && j != m ==> #[trigger] self.members@[j]
                    != self.members@[m],
            lives_first(world.creeps@, self.members@[m], k),
            shown_first(view.friends@, self.members@[m], f),
        ensures
            exists|chosen: Vec<CombatIntent>|
                {
                    let actions = filter_map(chosen@, carried_action());
                    &&& #[trigger] call_ensures(fight, (view, f as usize), chosen)
                    &&& intents.creeps.dom().contains(self.members@[m]) == (actions.len() > 0)
                    &&& actions.len() > 0 ==> intents.creeps[self.members@[m]] == actions
                },
    {
        law_first_living_creep_is_found(world.creeps@, self.members@[m]);
        law_first_friend_is_found(view.friends@, self.members@[m]);
        self.lemma_own_orders(
            world.creeps@,
            view.friends@,
            tick.fights,
            m,
            self.members@.len() as int,
        );
        assert(call_ensures(fight, (view, f as usize), tick.fights[m]));
    }

    /// A creep that is no member, does not live or is not shown carries out nothing, and no tower
    /// is given an order.
    pub proof fn law_nobody_else_acts<
        M: Fn(&Vec<Position>, Position, &Vec<(i32, i32)>, u32) -> GatherReading,
        V: Fn(&CombatWorld, PlayerId, &Anchor<P>, Position, (u8, u8)) -> (Anchor<P>, AnchorOutcome),
        F: Fn(&SimView, usize) -> Vec<CombatIntent>,
        R: Fn(&CombatWorld, PlayerId, &Vec<MoveRequest>, &C, &K) -> (Vec<(CreepId, Direction)>, K),
    >(
        self,
        world: &CombatWorld,
        view: &SimView,
        measure: M,
        advance: V,
        fight: F,
        route: R,
        tick: SquadTick,
        after: SimSquad<P, C, K>,
        intents: IntentsView,
        outcome: AnchorOutcome,
        id: CreepId,
    )
        requires
            self.steps_to(
                world,
                view,
                measure,
                advance,
                fight,
                route,
                tick,
                after,
                intents,
                outcome,
            ),
            ({
                ||| !self.members@.contains(id)
                ||| forall|j: int|
                    0 <= j < world.creeps@.len() ==> !((#[trigger] world.creeps@[j]).id == id
                        && world.creeps@[j].alive)
                ||| forall|j: int|
                    0 <= j < view.friends@.len() ==> (#[trigger] view.friends@[j]).creep != id
            }),
        ensures
            !intents.creeps.dom().contains(id),
            intents.towers.dom().is_empty(),
    {
        law_first_living_creep_is_found(world.creeps@, id);
        law_first_friend_is_found(view.friends@, id);
        self.lemma_no_orders(
            world.creeps@,
            view.friends@,
            tick.fights,
            id,
            self.members@.len() as int,
        );
    }

    /// The steps of the mover are the moves, the last of several for a creep counts, and there are
    /// no others.
    pub proof fn law_moves_are_the_movers_steps<
        M: Fn(&Vec<Position>, Position, &Vec<(i32, i32)>, u32) -> GatherReading,
        V: Fn(&CombatWorld, PlayerId, &Anchor<P>, Position, (u8, u8)) -> (Anchor<P>, AnchorOutcome),
        F: Fn(&SimView, usize) -> Vec<CombatIntent>,
        R: Fn(&CombatWorld, PlayerId, &Vec<MoveRequest>, &C, &K) -> (Vec<(CreepId, Direction)>, K),
    >(
        self,
        world: &CombatWorld,
        view: &SimView,
        measure: M,
        advance: V,
        fight: F,
        route: R,
        tick: SquadTick,
        after: SimSquad<P, C, K>,
        intents: IntentsView,
        outcome: AnchorOutcome,
        id: CreepId,
    )
        requires
            self.steps_to(
                world,
                view,
                measure,
                advance,
                fight,
                route,
                tick,
                after,
                intents,
                outcome,
            ),
        ensures
            forall|k: int| #[trigger]
                steps_last(tick.steps@, id, k) ==> {
                    &&& intents.moves.dom().contains(id)
                    &&& intents.moves[id] == tick.steps@[k].1
                },
            (forall|j: int| 0 <= j < tick.steps@.len() ==> (#[trigger] tick.steps@[j]).0 != id)
                ==> !intents.moves.dom().contains(id),
    {
        law_last_step_counts(Map::empty(), tick.steps@, id);
    }

    proof fn lemma_own_orders(
        self,
        creeps: Seq<SimCreep>,
        friends: Seq<FriendView>,
        fights: Seq<Vec<CombatIntent>>,
        m: int,
        k: int,
    )
        requires
            0 <= m < k <= self.members@.len(),
            forall|j: int|
                0 <= j < self.members@.len() && j != m ==> #[trigger] self.members@[j]
                    != self.members@[m],
            first_living(creeps, self.members@[m]) is Some,
            friend_of(friends, self.members@[m]) is Some,
        ensures
            ({
                let orders = self.combat_orders(creeps, friends, fights, k);
                let actions = filter_map(fights[m]@, carried_action());
                &&& orders.dom().contains(self.members@[m]) == (actions.len() > 0)
                &&& actions.len() > 0 ==> orders[self.members@[m]] == actions
            }),
        decreases k,
    {
        if m == k - 1 {
            self.lemma_unnamed(creeps, friends, fights, self.members@[m], k - 1);
        } else {
            self.lemma_own_orders(creeps, friends, fights, m, k - 1);
            assert(self.members@[k - 1] != self.members@[m]);
        }
    }

    proof fn lemma_unnamed(
        self,
        creeps: Seq<SimCreep>,
        friends: Seq<FriendView>,
        fights: Seq<Vec<CombatIntent>>,
        id: CreepId,
        k: int,
    )
        requires
            0 <= k <= self.members@.len(),
            forall|j: int| 0 <= j < k ==> #[trigger] self.members@[j] != id,
        ensures
            !self.combat_orders(creeps, friends, fights, k).dom().contains(id),
        decreases k,
    {
        if k > 0 {
            self.lemma_unnamed(creeps, friends, fights, id, k - 1);
            assert(self.members@[k - 1] != id);
        }
    }

    proof fn lemma_no_orders(
        self,
        creeps: Seq<SimCreep>,
        friends: Seq<FriendView>,
        fights: Seq<Vec<CombatIntent>>,
        id: CreepId,
        k: int,
    )
        requires
            0 <= k <= self.members@.len(),
            !self.members@.contains(id) || first_living(creeps, id) is None || friend_of(
                friends,
                id,
            ) is None,
        ensures
            !self.combat_orders(creeps, friends, fights, k).dom().contains(id),
        decreases k,
    {
        if k > 0 {
            self.lemma_no_orders(creeps, friends, fights, id, k - 1);
            assert(self.members@.contains(self.members@[k - 1]));
        }
    }
}

} // verus!
