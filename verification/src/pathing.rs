//! Movement planning: the costs that a side's pathfinder sees in a room, and the step that a
//! movement goal comes to.
//!
//! The pathfinder itself, and the builder that merges the cost layers of a room into one matrix,
//! are handed in by the caller.
use crate::geometry::{abs, direction_between, range, Direction, Position, RoomName};
use crate::select::{filter_map, lemma_filter_map_contains, lemma_filter_map_filter};
use crate::select::lemma_filter_map_take;
use crate::world::{CombatAction, CombatWorld, PlayerId, SimCreep, SimStructure, SimTower, Terrain};
use vstd::prelude::*;

verus! {

broadcast use Position::lemma_at;

/// The budget of a search; a room has 2500 tiles.
pub const MAX_OPS: u32 = 2000;

/// The cost of a swamp tile.
pub const SWAMP_COST: u8 = 10;

/// The cost of a tile that cannot be entered.
pub const IMPASSABLE: u8 = 255;

/// One thing that a creep may be told to do.
#[derive(Clone, Debug)]
pub enum CombatIntent {
    /// Come within `range` of `target`.
    MoveTo { target: Position, range: u32 },
    /// Get `range` away from each of `from`.
    Flee { from: Vec<Position>, range: u32 },
    /// A combat action of the engine.
    Act(CombatAction),
    /// A combat action whose target the engine does not know.
    Unresolved,
    /// Nothing.
    Idle,
}

/// The engine action that an intent carries.
pub open spec fn carried_action() -> spec_fn(CombatIntent) -> Option<CombatAction> {
    |intent: CombatIntent|
        match intent {
            CombatIntent::Act(action) => Some(action),
            _ => None,
        }
}

/// The engine actions that a list of intents comes to, in order.
pub fn engine_actions(intents: &Vec<CombatIntent>) -> (actions: Vec<CombatAction>)
    ensures
        actions@ == filter_map(intents@, carried_action()),
{
    let ghost keep = carried_action();
    let mut actions: Vec<CombatAction> = Vec::new();
    let mut i: usize = 0;
    while i < intents.len()
        invariant
            i <= intents@.len(),
            keep == carried_action(),
            actions@ == filter_map(intents@.take(i as int), keep),
        decreases intents@.len() - i,
    {
        proof {
            lemma_filter_map_take(intents@, keep, i as int);
        }
        match &intents[i] {
            CombatIntent::Act(action) => {
                actions.push(*action);
            },
            _ => {},
        }
        i = i + 1;
    }
    proof {
        assert(intents@.take(intents@.len() as int) =~= intents@);
    }
    actions
}

/// What a pathfinder is asked.
#[derive(Clone, Debug)]
pub struct SearchRequest {
    pub from: Position,
    /// Tiles, each with the range that counts as there, or as away.
    pub goals: Vec<(Position, u32)>,
    /// Whether to get away from the goals rather than to reach one.
    pub flee: bool,
    pub max_ops: u32,
}

/// The contents of a [`SearchRequest`].
#[verifier::ext_equal]
pub struct SearchRequestView {
    pub from: Position,
    pub goals: Seq<(Position, u32)>,
    pub flee: bool,
    pub max_ops: u32,
}

impl View for SearchRequest {
    type V = SearchRequestView;

    open spec fn view(&self) -> SearchRequestView {
        SearchRequestView {
            from: self.from,
            goals: self.goals@,
            flee: self.flee,
            max_ops: self.max_ops,
        }
    }
}

/// The nearest coordinate of a room.
pub open spec fn clamp_to_room(v: int) -> u8 {
    if v < 0 {
        0
    } else if v > 49 {
        49
    } else {
        v as u8
    }
}

/// The target itself in its own room, else the target's place on the world map drawn into
/// `from`'s room along each axis.
pub open spec fn room_goal(from: Position, target: Position) -> Position {
    if from.room_name() == target.room_name() {
        target
    } else {
        Position::at(
            clamp_to_room(target.world_x() - from.room_name().x_coord() * 50),
            clamp_to_room(target.world_y() - from.room_name().y_coord() * 50),
            from.room_name(),
        )
    }
}

fn clamp_coordinate(v: i32) -> (c: u8)
    ensures
        c == clamp_to_room(v as int),
        c < 50,
{
    if v < 0 {
        0
    } else if v > 49 {
        49
    } else {
        v as u8
    }
}

/// Project a target, which may lie in another room, onto the current room: a target of this room
/// is its own goal, one of another room gives the edge tile that points toward it. Walking onto
/// that tile carries a creep across, and the next room projects anew.
pub fn in_room_goal(from: Position, target: Position) -> (goal: Position)
    ensures
        goal == room_goal(from, target),
{
    if from.room_name() == target.room_name() {
        return target;
    }
    let (fwx, fwy) = from.world_coords();
    let (twx, twy) = target.world_coords();
    let origin_x: i32 = fwx - from.x() as i32;
    let origin_y: i32 = fwy - from.y() as i32;
    let lx: u8 = clamp_coordinate(twx - origin_x);
    let ly: u8 = clamp_coordinate(twy - origin_y);
    Position::new(lx, ly, from.room_name())
}

/// What a movement intent asks of the pathfinder; `None` for an intent that does not move.
pub open spec fn search_plan(from: Position, intent: CombatIntent) -> Option<SearchRequestView> {
    match intent {
        CombatIntent::MoveTo { target, range } => {
            let goal = room_goal(from, target);
            Some(
                SearchRequestView {
                    from,
                    goals: seq![(goal, if goal == target { range } else { 0 })],
                    flee: false,
                    max_ops: MAX_OPS,
                },
            )
        },
        CombatIntent::Flee { from: threats, range } => Some(
            SearchRequestView {
                from,
                goals: Seq::new(threats@.len(), |i: int| (threats@[i], range)),
                flee: true,
                max_ops: MAX_OPS,
            },
        ),
        _ => None,
    }
}

/// Turn a movement intent into a request to the pathfinder. A target of another room is sought
/// at its edge tile, at range 0, so that the creep steps onto the exit.
pub fn plan_search(from: Position, intent: &CombatIntent) -> (request: Option<SearchRequest>)
    ensures
        request is Some <==> search_plan(from, *intent) is Some,
        request matches Some(r) ==> r@ == search_plan(from, *intent)->0,
{
    match intent {
        CombatIntent::MoveTo { target, range } => {
            let goal = in_room_goal(from, *target);
            let goal_range: u32 = if goal == *target {
                *range
            } else {
                0
            };
            let mut goals: Vec<(Position, u32)> = Vec::new();
            goals.push((goal, goal_range));
            let request = SearchRequest { from, goals, flee: false, max_ops: MAX_OPS };
            proof {
                assert(request@ =~= search_plan(from, *intent)->0);
            }
            Some(request)
        },
        CombatIntent::Flee { from: threats, range } => {
            let mut goals: Vec<(Position, u32)> = Vec::new();
            let mut i: usize = 0;
            while i < threats.len()
                invariant
                    i <= threats@.len(),
                    goals@ =~= Seq::new(i as nat, |k: int| (threats@[k], *range)),
                decreases threats@.len() - i,
            {
                goals.push((threats[i], *range));
                i = i + 1;
            }
            let request = SearchRequest { from, goals, flee: true, max_ops: MAX_OPS };
            proof {
                assert(request@ =~= search_plan(from, *intent)->0);
            }
            Some(request)
        },
        _ => None,
    }
}

/// The direction of a path's first step; none for an empty path.
pub open spec fn path_step(from: Position, path: Seq<Position>) -> Option<Direction> {
    if path.len() == 0 {
        None
    } else {
        direction_between(from, path[0])
    }
}

/// The direction of a path's first step; none for an empty path.
pub fn first_step(from: Position, path: &Vec<Position>) -> (direction: Option<Direction>)
    ensures
        direction == path_step(from, path@),
{
    if path.len() == 0 {
        None
    } else {
        from.get_direction_to(path[0])
    }
}

/// The cost of one tile in a layer.
#[derive(Clone, Copy, Debug, PartialEq, Eq, Structural)]
pub struct TileCost {
    pub x: u8,
    pub y: u8,
    pub cost: u8,
}

/// The cost that a layer gives a tile: the last one set, if any.
pub open spec fn layer_cost(layer: Seq<TileCost>, x: u8, y: u8) -> Option<u8>
    decreases layer.len(),
{
    if layer.len() == 0 {
        None
    } else if layer.last().x == x && layer.last().y == y {
        Some(layer.last().cost)
    } else {
        layer_cost(layer.drop_last(), x, y)
    }
}

/// The layer that gives each of `tiles` the same cost, in order.
pub open spec fn tiles_at(tiles: Seq<(u8, u8)>, cost: u8) -> Seq<TileCost> {
    Seq::new(tiles.len(), |i: int| TileCost { x: tiles[i].0, y: tiles[i].1, cost })
}

/// The cost layers of a room's terrain and structures.
#[derive(Clone, Debug)]
pub struct StructureCosts {
    pub roads: Vec<TileCost>,
    pub other: Vec<TileCost>,
}

/// The cost layers of a room's creeps.
#[derive(Clone, Debug)]
pub struct CreepCosts {
    pub friendly_creeps: Vec<TileCost>,
    pub hostile_creeps: Vec<TileCost>,
    pub source_keeper_agro: Vec<TileCost>,
}

/// What blocks one room for one side. Walls, structures, towers and hostile creeps cannot be
/// entered, swamps are slow, and the side's own creeps are no obstacle: they move along, and a
/// member must be able to path into the slot that a teammate is leaving.
#[derive(Clone, Debug)]
pub struct CombatCostSource {
    pub room: RoomName,
    pub walls: Vec<(u8, u8)>,
    pub swamps: Vec<(u8, u8)>,
    pub blockers: Vec<(u8, u8)>,
    pub hostiles: Vec<(u8, u8)>,
}

pub open spec fn standing_structure(room: RoomName) -> spec_fn(SimStructure) -> Option<(u8, u8)> {
    |s: SimStructure|
        if s.alive && s.pos.room_name() == room {
            Some((s.pos.x(), s.pos.y()))
        } else {
            None
        }
}

pub open spec fn standing_tower_tile(room: RoomName) -> spec_fn(SimTower) -> Option<(u8, u8)> {
    |t: SimTower|
        if t.alive && t.pos.room_name() == room {
            Some((t.pos.x(), t.pos.y()))
        } else {
            None
        }
}

pub open spec fn hostile_tile(room: RoomName, me_owner: PlayerId) -> spec_fn(SimCreep) -> Option<
    (u8, u8),
> {
    |c: SimCreep|
        if c.alive && c.owner != me_owner && c.pos.room_name() == room {
            Some((c.pos.x(), c.pos.y()))
        } else {
            None
        }
}

fn copy_tiles(tiles: &Vec<(u8, u8)>) -> (copy: Vec<(u8, u8)>)
    ensures
        copy@ == tiles@,
{
    let mut copy: Vec<(u8, u8)> = Vec::new();
    let mut i: usize = 0;
    while i < tiles.len()
        invariant
            i <= tiles@.len(),
            copy@ =~= tiles@.take(i as int),
        decreases tiles@.len() - i,
    {
        copy.push(tiles[i]);
        i = i + 1;
    }
    proof {
        assert(copy@ =~= tiles@);
    }
    copy
}

fn push_tiles(layer: &mut Vec<TileCost>, tiles: &Vec<(u8, u8)>, cost: u8)
    ensures
        final(layer)@ == old(layer)@ + tiles_at(tiles@, cost),
{
    let ghost start = layer@;
    let mut i: usize = 0;
    while i < tiles.len()
        invariant
            i <= tiles@.len(),
            layer@ =~= start + tiles_at(tiles@, cost).take(i as int),
        decreases tiles@.len() - i,
    {
        let (x, y) = tiles[i];
        layer.push(TileCost { x, y, cost });
        i = i + 1;
    }
    proof {
        assert(layer@ =~= start + tiles_at(tiles@, cost));
    }
}

impl CombatCostSource {
    /// Whether this is `room` as `me_owner` sees it: only what stands in `room` counts, on the
    /// room's own terrain.
    pub open spec fn describes(
        self,
        world: &CombatWorld,
        terrain: &Terrain,
        room: RoomName,
        me_owner: PlayerId,
    ) -> bool {
        &&& self.room == room
        &&& self.walls@ == terrain.walls@
        &&& self.swamps@ == terrain.swamps@
        &&& self.blockers@ == filter_map(world.structures@, standing_structure(room)) + filter_map(
            world.towers@,
            standing_tower_tile(room),
        )
        &&& self.hostiles@ == filter_map(world.creeps@, hostile_tile(room, me_owner))
    }

    /// The road layer, and the layer of terrain and structures, for a room.
    pub open spec fn structure_layers(self, room_name: RoomName) -> Option<
        (Seq<TileCost>, Seq<TileCost>),
    > {
        if room_name == self.room {
            Some(
                (
                    Seq::empty(),
                    tiles_at(self.swamps@, SWAMP_COST) + tiles_at(self.walls@, IMPASSABLE)
                        + tiles_at(self.blockers@, IMPASSABLE),
                ),
            )
        } else {
            None
        }
    }

    /// The layers of friends, of hostiles and of source keepers' reach, for a room.
    pub open spec fn creep_layers(self, room_name: RoomName) -> Option<
        (Seq<TileCost>, Seq<TileCost>, Seq<TileCost>),
    > {
        if room_name == self.room {
            Some((Seq::empty(), tiles_at(self.hostiles@, IMPASSABLE), Seq::empty()))
        } else {
            None
        }
    }

    /// The obstacles of `room` for `me_owner`; `terrain` is that room's.
    pub fn from_world(
        world: &CombatWorld,
        terrain: &Terrain,
        room: RoomName,
        me_owner: PlayerId,
    ) -> (source: CombatCostSource)
        ensures
            source.describes(world, terrain, room, me_owner),
    {
        let mut blockers: Vec<(u8, u8)> = Vec::new();
        let ghost structure = standing_structure(room);
        let mut i: usize = 0;
        while i < world.structures.len()
            invariant
                i <= world.structures@.len(),
                structure == standing_structure(room),
                blockers@ == filter_map(world.structures@.take(i as int), structure),
            decreases world.structures@.len() - i,
        {
            let s = world.structures[i];
            proof {
                lemma_filter_map_take(world.structures@, structure, i as int);
            }
            if s.alive && s.pos.room_name() == room {
                blockers.push((s.pos.x(), s.pos.y()));
            }
            i = i + 1;
        }
        let ghost built = blockers@;
        let ghost tower = standing_tower_tile(room);
        proof {
            assert(world.structures@.take(world.structures@.len() as int) =~= world.structures@);
            assert(blockers@ =~= built + filter_map(world.towers@.take(0), tower));
        }
        let mut k: usize = 0;
        while k < world.towers.len()
            invariant
                k <= world.towers@.len(),
                tower == standing_tower_tile(room),
                blockers@ == built + filter_map(world.towers@.take(k as int), tower),
            decreases world.towers@.len() - k,
        {
            let t = world.towers[k];
            proof {
                lemma_filter_map_take(world.towers@, tower, k as int);
            }
            if t.alive && t.pos.room_name() == room {
                blockers.push((t.pos.x(), t.pos.y()));
                proof {
                    assert(blockers@ =~= built + filter_map(world.towers@.take(k + 1), tower));
                }
            }
            k = k + 1;
        }
        let mut hostiles: Vec<(u8, u8)> = Vec::new();
        let ghost hostile = hostile_tile(room, me_owner);
        let mut j: usize = 0;
        while j < world.creeps.len()
            invariant
                j <= world.creeps@.len(),
                hostile == hostile_tile(room, me_owner),
                hostiles@ == filter_map(world.creeps@.take(j as int), hostile),
            decreases world.creeps@.len() - j,
        {
            let c = world.creeps[j];
            proof {
                lemma_filter_map_take(world.creeps@, hostile, j as int);
            }
            if c.alive && c.owner != me_owner && c.pos.room_name() == room {
                hostiles.push((c.pos.x(), c.pos.y()));
            }
            j = j + 1;
        }
        proof {
            assert(world.towers@.take(world.towers@.len() as int) =~= world.towers@);
            assert(world.creeps@.take(world.creeps@.len() as int) =~= world.creeps@);
        }
        CombatCostSource {
            room,
            walls: copy_tiles(&terrain.walls),
            swamps: copy_tiles(&terrain.swamps),
            blockers,
            hostiles,
        }
    }

    /// The terrain and structure layers of this source's own room. Swamps come first, so that an
    /// obstacle on a swamp wins.
    pub fn get_structure_costs(&self, room_name: RoomName) -> (costs: Option<StructureCosts>)
        ensures
            costs is Some <==> room_name == self.room,
            costs is Some <==> self.structure_layers(room_name) is Some,
            costs matches Some(c) ==> {
                &&& (c.roads@, c.other@) == self.structure_layers(room_name)->0
                &&& c.roads@.len() == 0
                &&& c.other@ == tiles_at(self.swamps@, SWAMP_COST) + tiles_at(
                    self.walls@,
                    IMPASSABLE,
                ) + tiles_at(self.blockers@, IMPASSABLE)
            },
    {
        if room_name != self.room {
            return None;
        }
        let mut other: Vec<TileCost> = Vec::new();
        push_tiles(&mut other, &self.swamps, SWAMP_COST);
        push_tiles(&mut other, &self.walls, IMPASSABLE);
        push_tiles(&mut other, &self.blockers, IMPASSABLE);
        proof {
            assert(other@ =~= tiles_at(self.swamps@, SWAMP_COST) + tiles_at(self.walls@, IMPASSABLE)
                + tiles_at(self.blockers@, IMPASSABLE));
        }
        Some(StructureCosts { roads: Vec::new(), other })
    }

    /// Construction sites have no cost in combat.
    pub fn get_construction_site_costs(&self, _room: RoomName) -> (costs: Option<Vec<TileCost>>)
        ensures
            costs is None,
    {
        None
    }

    /// The creep layers of this source's own room: hostiles block, friends are not avoided.
    pub fn get_creep_costs(&self, room_name: RoomName) -> (costs: Option<CreepCosts>)
        ensures
            costs is Some <==> room_name == self.room,
            costs is Some <==> self.creep_layers(room_name) is Some,
            costs matches Some(c) ==> {
                &&& (c.friendly_creeps@, c.hostile_creeps@, c.source_keeper_agro@)
                    == self.creep_layers(room_name)->0
                &&& c.friendly_creeps@.len() == 0
                &&& c.hostile_creeps@ == tiles_at(self.hostiles@, IMPASSABLE)
                &&& c.source_keeper_agro@.len() == 0
            },
    {
        if room_name != self.room {
            return None;
        }
        let mut hostile_creeps: Vec<TileCost> = Vec::new();
        push_tiles(&mut hostile_creeps, &self.hostiles, IMPASSABLE);
        proof {
            assert(hostile_creeps@ =~= tiles_at(self.hostiles@, IMPASSABLE));
        }
        Some(
            CreepCosts {
                friendly_creeps: Vec::new(),
                hostile_creeps,
                source_keeper_agro: Vec::new(),
            },
        )
    }
}

/// Whether `matrix` is what the builder gave for the obstacles that `me_owner` sees in `room`.
pub open spec fn builds_to<
    M,
    H: Fn(RoomName) -> Terrain,
    B: Fn(&CombatCostSource, RoomName) -> Option<M>,
>(
    world: &CombatWorld,
    room: RoomName,
    me_owner: PlayerId,
    terrain: H,
    build: B,
    matrix: Option<M>,
) -> bool {
    exists|ground: Terrain, source: CombatCostSource|
        {
            &&& #[trigger] call_ensures(terrain, (room,), ground)
            &&& source.describes(world, &ground, room, me_owner)
            &&& #[trigger] call_ensures(build, (&source, room), matrix)
        }
}

/// Build the cost matrix of `room` from `me_owner`'s side by the caller's matrix builder, over the
/// room's obstacles; `terrain` gives a room's terrain. `None` where the builder gives none.
pub fn build_combat_matrix<
    M,
    H: Fn(RoomName) -> Terrain,
    B: Fn(&CombatCostSource, RoomName) -> Option<M>,
>(
    world: &CombatWorld,
    room: RoomName,
    me_owner: PlayerId,
    terrain: &H,
    build: &B,
) -> (matrix: Option<M>)
    requires
        call_requires(*terrain, (room,)),
        forall|source: &CombatCostSource| #[trigger] call_requires(*build, (source, room)),
    ensures
        builds_to(world, room, me_owner, *terrain, *build, matrix),
{
    let ground = terrain(room);
    let source = CombatCostSource::from_world(world, &ground, room, me_owner);
    let matrix = build(&source, room);
    proof {
        assert(call_ensures(*terrain, (room,), ground));
        assert(call_ensures(*build, (&source, room), matrix));
    }
    matrix
}

/// Whether `direction` is what a movement intent comes to: nothing where it does not move, else
/// the first step of some path that the pathfinder gave for the intent's request, over the
/// obstacles of the walker's room.
pub open spec fn resolves_to<
    H: Fn(RoomName) -> Terrain,
    S: Fn(&CombatCostSource, &SearchRequest) -> Vec<Position>,
>(
    world: &CombatWorld,
    from: Position,
    me_owner: PlayerId,
    intent: CombatIntent,
    terrain: H,
    search: S,
    direction: Option<Direction>,
) -> bool {
    match search_plan(from, intent) {
        None => direction is None,
        Some(plan) => exists|
            ground: Terrain,
            source: CombatCostSource,
            request: SearchRequest,
            path: Vec<Position>,
        |
            {
                &&& #[trigger] call_ensures(terrain, (from.room_name(),), ground)
                &&& source.describes(world, &ground, from.room_name(), me_owner)
                &&& request@ == plan
                &&& #[trigger] call_ensures(search, (&source, &request), path)
                &&& direction == path_step(from, path@)
            },
    }
}

/// Resolve a movement goal to the next step from `from`, by the caller's pathfinder over the
/// obstacles that `me_owner` sees in the room of `from`; `terrain` gives a room's terrain. `None`
/// for an intent that does not move, and where the path is empty because the goal is met or no
/// route exists.
pub fn resolve_move_direction<
    H: Fn(RoomName) -> Terrain,
    S: Fn(&CombatCostSource, &SearchRequest) -> Vec<Position>,
>(
    world: &CombatWorld,
    from: Position,
    me_owner: PlayerId,
    intent: &CombatIntent,
    terrain: &H,
    search: &S,
) -> (direction: Option<Direction>)
    requires
        call_requires(*terrain, (from.room_name(),)),
        forall|source: &CombatCostSource, request: &SearchRequest| #[trigger]
            call_requires(*search, (source, request)),
    ensures
        resolves_to(world, from, me_owner, *intent, *terrain, *search, direction),
{
    match plan_search(from, intent) {
        None => None,
        Some(request) => {
            let ground = terrain(from.room_name());
            let source = CombatCostSource::from_world(world, &ground, from.room_name(), me_owner);
            let path = search(&source, &request);
            proof {
                assert(call_ensures(*terrain, (from.room_name(),), ground));
                assert(call_ensures(*search, (&source, &request), path));
            }
            first_step(from, &path)
        },
    }
}

/// Whether something that cannot be entered stands on a tile of `room`: a wall, a structure or a
/// tower.
pub open spec fn obstacle_at(
    world: &CombatWorld,
    terrain: &Terrain,
    room: RoomName,
    x: u8,
    y: u8,
) -> bool {
    ||| terrain.walls@.contains((x, y))
    ||| exists|i: int|
        {
            &&& 0 <= i < world.structures@.len()
            &&& (#[trigger] world.structures@[i]).alive
            &&& world.structures@[i].pos.room_name() == room
            &&& world.structures@[i].pos.x() == x
            &&& world.structures@[i].pos.y() == y
        }
    ||| exists|i: int|
        {
            &&& 0 <= i < world.towers@.len()
            &&& (#[trigger] world.towers@[i]).alive
            &&& world.towers@[i].pos.room_name() == room
            &&& world.towers@[i].pos.x() == x
            &&& world.towers@[i].pos.y() == y
        }
}

/// Whether a living creep that is not `me_owner`'s stands on a tile of `room`.
pub open spec fn hostile_at(
    world: &CombatWorld,
    room: RoomName,
    me_owner: PlayerId,
    x: u8,
    y: u8,
) -> bool {
    exists|i: int|
        {
            &&& 0 <= i < world.creeps@.len()
            &&& (#[trigger] world.creeps@[i]).alive
            &&& world.creeps@[i].owner != me_owner
            &&& world.creeps@[i].pos.room_name() == room
            &&& world.creeps@[i].pos.x() == x
            &&& world.creeps@[i].pos.y() == y
        }
}

proof fn lemma_layer_tiles(tiles: Seq<(u8, u8)>, cost: u8, x: u8, y: u8)
    ensures
        layer_cost(tiles_at(tiles, cost), x, y) == (if tiles.contains((x, y)) {
            Some(cost)
        } else {
            None
        }),
    decreases tiles.len(),
{
    if tiles.len() > 0 {
        let init = tiles.drop_last();
        lemma_layer_tiles(init, cost, x, y);
        assert(tiles_at(tiles, cost).drop_last() =~= tiles_at(init, cost));
        if tiles.last() == (x, y) {
            assert(tiles[tiles.len() - 1] == (x, y));
        } else if init.contains((x, y)) {
            let k = choose|k: int| 0 <= k < init.len() && init[k] == (x, y);
            assert(tiles[k] == (x, y));
        } else if tiles.contains((x, y)) {
            let k = choose|k: int| 0 <= k < tiles.len() && tiles[k] == (x, y);
            assert(init[k] == (x, y));
        }
    }
}

proof fn lemma_layer_concat(a: Seq<TileCost>, b: Seq<TileCost>, x: u8, y: u8)
    ensures
        layer_cost(a + b, x, y) == (match layer_cost(b, x, y) {
            Some(cost) => Some(cost),
            None => layer_cost(a, x, y),
        }),
    decreases b.len(),
{
    if b.len() == 0 {
        assert(a + b =~= a);
    } else {
        lemma_layer_concat(a, b.drop_last(), x, y);
        assert((a + b).drop_last() =~= a + b.drop_last());
    }
}

/// In the terrain and structure layer of a room, a tile costs [`IMPASSABLE`] where a wall, a
/// living structure or a living tower of that same room stands on it, even on a swamp; else
/// [`SWAMP_COST`] on a swamp; else nothing is set.
pub proof fn law_structure_layer(
    source: CombatCostSource,
    world: &CombatWorld,
    terrain: &Terrain,
    room: RoomName,
    me_owner: PlayerId,
    x: u8,
    y: u8,
)
    requires
        source.describes(world, terrain, room, me_owner),
    ensures
        layer_cost(
            tiles_at(source.swamps@, SWAMP_COST) + tiles_at(source.walls@, IMPASSABLE) + tiles_at(
                source.blockers@,
                IMPASSABLE,
            ),
            x,
            y,
        ) == (if obstacle_at(world, terrain, room, x, y) {
            Some(IMPASSABLE)
        } else if terrain.swamps@.contains((x, y)) {
            Some(SWAMP_COST)
        } else {
            None
        }),
{
    let swamps = tiles_at(source.swamps@, SWAMP_COST);
    let walls = tiles_at(source.walls@, IMPASSABLE);
    let blockers = tiles_at(source.blockers@, IMPASSABLE);
    lemma_layer_concat(swamps + walls, blockers, x, y);
    lemma_layer_concat(swamps, walls, x, y);
    lemma_layer_tiles(source.swamps@, SWAMP_COST, x, y);
    lemma_layer_tiles(source.walls@, IMPASSABLE, x, y);
    lemma_layer_tiles(source.blockers@, IMPASSABLE, x, y);
    let built = filter_map(world.structures@, standing_structure(room));
    let towers = filter_map(world.towers@, standing_tower_tile(room));
    lemma_filter_map_contains(world.structures@, standing_structure(room), (x, y));
    lemma_filter_map_contains(world.towers@, standing_tower_tile(room), (x, y));
    if source.blockers@.contains((x, y)) {
        let k = choose|k: int| 0 <= k < source.blockers@.len() && source.blockers@[k] == (x, y);
        if k < built.len() {
            assert(built[k] == (x, y));
            let i = choose|i: int|
                0 <= i < world.structures@.len() && #[trigger] standing_structure(room)(
                    world.structures@[i],
                ) == Some((x, y));
            assert(world.structures@[i].alive);
        } else {
            assert(towers[k - built.len()] == (x, y));
            let i = choose|i: int|
                0 <= i < world.towers@.len() && #[trigger] standing_tower_tile(room)(
                    world.towers@[i],
                ) == Some((x, y));
            assert(world.towers@[i].alive);
        }
    }
    assert forall|i: int|
        {
            &&& 0 <= i < world.structures@.len()
            &&& (#[trigger] world.structures@[i]).alive
            &&& world.structures@[i].pos.room_name() == room
            &&& world.structures@[i].pos.x() == x
            &&& world.structures@[i].pos.y() == y
        } implies source.blockers@.contains((x, y)) by {
        assert(standing_structure(room)(world.structures@[i]) == Some((x, y)));
        let k = choose|k: int| 0 <= k < built.len() && built[k] == (x, y);
        assert(source.blockers@[k] == (x, y));
    }
    assert forall|i: int|
        {
            &&& 0 <= i < world.towers@.len()
            &&& (#[trigger] world.towers@[i]).alive
            &&& world.towers@[i].pos.room_name() == room
            &&& world.towers@[i].pos.x() == x
            &&& world.towers@[i].pos.y() == y
        } implies source.blockers@.contains((x, y)) by {
        assert(standing_tower_tile(room)(world.towers@[i]) == Some((x, y)));
        let k = choose|k: int| 0 <= k < towers.len() && towers[k] == (x, y);
        assert(source.blockers@[built.len() + k] == (x, y));
    }
}

/// In the creep layer of a room, a tile costs [`IMPASSABLE`] exactly where a living hostile of that
/// same room stands on it: a side's own creeps, and creeps of other rooms, never block.
pub proof fn law_creep_layer(
    source: CombatCostSource,
    world: &CombatWorld,
    terrain: &Terrain,
    room: RoomName,
    me_owner: PlayerId,
    x: u8,
    y: u8,
)
    requires
        source.describes(world, terrain, room, me_owner),
    ensures
        layer_cost(tiles_at(source.hostiles@, IMPASSABLE), x, y) == (if hostile_at(
            world,
            room,
            me_owner,
            x,
            y,
        ) {
            Some(IMPASSABLE)
        } else {
            None
        }),
{
    let keep = hostile_tile(room, me_owner);
    lemma_layer_tiles(source.hostiles@, IMPASSABLE, x, y);
    lemma_filter_map_contains(world.creeps@, keep, (x, y));
    if source.hostiles@.contains((x, y)) {
        let i = choose|i: int|
            0 <= i < world.creeps@.len() && #[trigger] keep(world.creeps@[i]) == Some((x, y));
        assert(world.creeps@[i].alive);
    }
    if hostile_at(world, room, me_owner, x, y) {
        let i = choose|i: int|
            {
                &&& 0 <= i < world.creeps@.len()
                &&& (#[trigger] world.creeps@[i]).alive
                &&& world.creeps@[i].owner != me_owner
                &&& world.creeps@[i].pos.room_name() == room
                &&& world.creeps@[i].pos.x() == x
                &&& world.creeps@[i].pos.y() == y
            };
        assert(keep(world.creeps@[i]) == Some((x, y)));
    }
}

pub open spec fn blocking_structure(room: RoomName) -> spec_fn(SimStructure) -> bool {
    |s: SimStructure| s.alive && s.pos.room_name() == room
}

pub open spec fn blocking_tower(room: RoomName) -> spec_fn(SimTower) -> bool {
    |t: SimTower| t.alive && t.pos.room_name() == room
}

pub open spec fn blocking_creep(room: RoomName, me_owner: PlayerId) -> spec_fn(SimCreep) -> bool {
    |c: SimCreep| c.alive && c.owner != me_owner && c.pos.room_name() == room
}

/// Whether two worlds differ, as far as `room` goes, only in what never blocks `me_owner`: its own
/// creeps, the dead, and what is in other rooms.
pub open spec fn same_obstacles(
    a: &CombatWorld,
    b: &CombatWorld,
    room: RoomName,
    me_owner: PlayerId,
) -> bool {
    &&& a.structures@.filter(blocking_structure(room)) == b.structures@.filter(
        blocking_structure(room),
    )
    &&& a.towers@.filter(blocking_tower(room)) == b.towers@.filter(blocking_tower(room))
    &&& a.creeps@.filter(blocking_creep(room, me_owner)) == b.creeps@.filter(
        blocking_creep(room, me_owner),
    )
}

/// Worlds that differ only in a side's own creeps, in the dead and in what is in other rooms have
/// the same obstacles in a room, and so the same cost matrix.
pub proof fn law_matrix_ignores_friends_the_dead_and_other_rooms<
    M,
    H: Fn(RoomName) -> Terrain,
    B: Fn(&CombatCostSource, RoomName) -> Option<M>,
>(
    a: &CombatWorld,
    b: &CombatWorld,
    room: RoomName,
    me_owner: PlayerId,
    terrain: H,
    build: B,
    matrix: Option<M>,
)
    requires
        same_obstacles(a, b, room, me_owner),
    ensures
        forall|source: CombatCostSource, ground: Terrain| #[trigger]
            source.describes(a, &ground, room, me_owner) == source.describes(
                b,
                &ground,
                room,
                me_owner,
            ),
        builds_to(a, room, me_owner, terrain, build, matrix) == builds_to(
            b,
            room,
            me_owner,
            terrain,
            build,
            matrix,
        ),
{
    lemma_same_sources(a, b, room, me_owner);
}

proof fn lemma_same_sources(a: &CombatWorld, b: &CombatWorld, room: RoomName, me_owner: PlayerId)
    requires
        same_obstacles(a, b, room, me_owner),
    ensures
        forall|source: CombatCostSource, ground: Terrain| #[trigger]
            source.describes(a, &ground, room, me_owner) == source.describes(
                b,
                &ground,
                room,
                me_owner,
            ),
{
    let structure = standing_structure(room);
    let tower = standing_tower_tile(room);
    let creep = hostile_tile(room, me_owner);
    lemma_filter_map_filter(a.structures@, blocking_structure(room), structure);
    lemma_filter_map_filter(b.structures@, blocking_structure(room), structure);
    lemma_filter_map_filter(a.towers@, blocking_tower(room), tower);
    lemma_filter_map_filter(b.towers@, blocking_tower(room), tower);
    lemma_filter_map_filter(a.creeps@, blocking_creep(room, me_owner), creep);
    lemma_filter_map_filter(b.creeps@, blocking_creep(room, me_owner), creep);
}

/// A side's own creeps, the dead and what is in other rooms never change a step.
pub proof fn law_step_ignores_friends_the_dead_and_other_rooms<
    H: Fn(RoomName) -> Terrain,
    S: Fn(&CombatCostSource, &SearchRequest) -> Vec<Position>,
>(
    a: &CombatWorld,
    b: &CombatWorld,
    from: Position,
    me_owner: PlayerId,
    intent: CombatIntent,
    terrain: H,
    search: S,
    direction: Option<Direction>,
)
    requires
        same_obstacles(a, b, from.room_name(), me_owner),
    ensures
        resolves_to(a, from, me_owner, intent, terrain, search, direction) == resolves_to(
            b,
            from,
            me_owner,
            intent,
            terrain,
            search,
            direction,
        ),
{
    lemma_same_sources(a, b, from.room_name(), me_owner);
}

/// Whether a tile can be entered by the layers of a source.
pub open spec fn enterable(source: CombatCostSource, x: u8, y: u8) -> bool {
    &&& layer_cost(
        tiles_at(source.swamps@, SWAMP_COST) + tiles_at(source.walls@, IMPASSABLE) + tiles_at(
            source.blockers@,
            IMPASSABLE,
        ),
        x,
        y,
    ) != Some(IMPASSABLE)
    &&& layer_cost(tiles_at(source.hostiles@, IMPASSABLE), x, y) != Some(IMPASSABLE)
}

/// Whether a pathfinder keeps to the room and its costs: a path that it gives starts with a
/// neighbouring tile of the room that can be entered.
pub open spec fn keeps_to_costs<S: Fn(&CombatCostSource, &SearchRequest) -> Vec<Position>>(
    search: S,
) -> bool {
    forall|source: CombatCostSource, request: SearchRequest, path: Vec<Position>| #[trigger]
        call_ensures(search, (&source, &request), path) && path@.len() > 0 ==> {
            let first = path@[0];
            &&& first.valid()
            &&& first.room_name() == request.from.room_name()
            &&& range(request.from, first) == 1
            &&& enterable(source, first.x(), first.y())
        }
}

/// With a pathfinder that keeps to the costs, the tile that a step leads to holds no wall, no
/// living structure or tower, and no living creep of another side.
pub proof fn law_steps_enter_no_obstacle<
    H: Fn(RoomName) -> Terrain,
    S: Fn(&CombatCostSource, &SearchRequest) -> Vec<Position>,
>(
    world: &CombatWorld,
    from: Position,
    me_owner: PlayerId,
    intent: CombatIntent,
    terrain: H,
    search: S,
    direction: Direction,
)
    requires
        from.valid(),
        keeps_to_costs(search),
        resolves_to(world, from, me_owner, intent, terrain, search, Some(direction)),
    ensures
        exists|ground: Terrain, tile: Position|
            {
                &&& #[trigger] call_ensures(terrain, (from.room_name(),), ground)
                &&& tile == #[trigger] Position::at(tile.x(), tile.y(), from.room_name())
                &&& tile.valid()
                &&& tile.x() == from.x() + direction.dx()
                &&& tile.y() == from.y() + direction.dy()
                &&& !obstacle_at(world, &ground, from.room_name(), tile.x(), tile.y())
                &&& !hostile_at(world, from.room_name(), me_owner, tile.x(), tile.y())
            },
{
    let room = from.room_name();
    let plan = search_plan(from, intent)->0;
    let (ground, source, request, path) = choose|
        ground: Terrain,
        source: CombatCostSource,
        request: SearchRequest,
        path: Vec<Position>,
    |
        {
            &&& #[trigger] call_ensures(terrain, (from.room_name(),), ground)
            &&& source.describes(world, &ground, from.room_name(), me_owner)
            &&& request@ == plan
            &&& #[trigger] call_ensures(search, (&source, &request), path)
            &&& Some(direction) == path_step(from, path@)
        };
    let tile = path@[0];
    assert(request.from == request@.from);
    assert(call_ensures(search, (&source, &request), path));
    law_structure_layer(source, world, &ground, room, me_owner, tile.x(), tile.y());
    law_creep_layer(source, world, &ground, room, me_owner, tile.x(), tile.y());
    assert(call_ensures(terrain, (from.room_name(),), ground));
    Position::lemma_made_of_parts(tile);
    assert(tile == Position::at(tile.x(), tile.y(), from.room_name()));
}

/// The goal of a walk lies in the walker's own room, and no tile of that room is nearer to the
/// target.
pub proof fn law_goal_is_nearest(from: Position, target: Position, other: Position)
    requires
        from.valid(),
        target.valid(),
        other.valid(),
        other.room_name() == from.room_name(),
    ensures
        room_goal(from, target).valid(),
        room_goal(from, target).room_name() == from.room_name(),
        range(room_goal(from, target), target) <= range(other, target),
{
}

/// A target of another room gives a goal on the edge of the walker's room, from where the exit
/// carries it across.
pub proof fn law_goal_is_an_exit(from: Position, target: Position)
    requires
        from.valid(),
        target.valid(),
        from.room_name() != target.room_name(),
    ensures
        ({
            let goal = room_goal(from, target);
            goal.x() == 0 || goal.x() == 49 || goal.y() == 0 || goal.y() == 49
        }),
{
    let a = from.room_name();
    let b = target.room_name();
    assert(a.x_coord() != b.x_coord() || a.y_coord() != b.y_coord());
}

/// A source has layers for its own room alone. There a tile costs [`IMPASSABLE`] where a wall, a
/// living structure or a living tower of the room stands on it, else [`SWAMP_COST`] on a swamp;
/// a living creep of another side in the room makes it [`IMPASSABLE`] too; and nothing else has a
/// cost: no road, no friend, no keeper.
pub proof fn law_layers_hold_just_the_rooms_obstacles(
    source: CombatCostSource,
    world: &CombatWorld,
    terrain: &Terrain,
    room: RoomName,
    me_owner: PlayerId,
    asked: RoomName,
    x: u8,
    y: u8,
)
    requires
        source.describes(world, terrain, room, me_owner),
    ensures
        source.structure_layers(asked) is Some <==> asked == room,
        source.creep_layers(asked) is Some <==> asked == room,
        source.structure_layers(asked) matches Some((roads, other)) ==> {
            &&& layer_cost(roads, x, y) is None
            &&& layer_cost(other, x, y) == (if obstacle_at(world, terrain, room, x, y) {
                Some(255u8)
            } else if terrain.swamps@.contains((x, y)) {
                Some(10u8)
            } else {
                None
            })
        },
        source.creep_layers(asked) matches Some((friends, hostiles, keepers)) ==> {
            &&& layer_cost(friends, x, y) is None
            &&& layer_cost(keepers, x, y) is None
            &&& layer_cost(hostiles, x, y) == (if hostile_at(world, room, me_owner, x, y) {
                Some(255u8)
            } else {
                None
            })
        },
{
    law_structure_layer(source, world, terrain, room, me_owner, x, y);
    law_creep_layer(source, world, terrain, room, me_owner, x, y);
}

/// The cost of a tile in a layer is the one set last, and a tile that was never set has none.
pub proof fn law_last_cost_of_a_tile_counts(layer: Seq<TileCost>, x: u8, y: u8, k: int)
    requires
        0 <= k <= layer.len(),
        k < layer.len() ==> layer[k].x == x && layer[k].y == y,
        forall|j: int| k < j < layer.len() ==> (#[trigger] layer[j]).x != x || layer[j].y != y,
        k == layer.len() ==> forall|j: int|
            0 <= j < layer.len() ==> (#[trigger] layer[j]).x != x || layer[j].y != y,
    ensures
        layer_cost(layer, x, y) == (if k < layer.len() {
            Some(layer[k].cost)
        } else {
            None
        }),
    decreases layer.len(),
{
    if layer.len() > 0 {
        let init = layer.drop_last();
        assert(forall|j: int| 0 <= j < init.len() ==> #[trigger] init[j] == layer[j]);
        assert(layer[layer.len() - 1] == layer.last());
        if k < layer.len() - 1 {
            law_last_cost_of_a_tile_counts(init, x, y, k);
        } else if k == layer.len() {
            law_last_cost_of_a_tile_counts(init, x, y, init.len() as int);
        }
    }
}

/// A list of intents carries the actions in it, each once and in order, and nothing else.
pub proof fn law_actions_are_carried_in_order(intents: Seq<CombatIntent>, next: CombatIntent)
    ensures
        ({
            let before = filter_map(intents, carried_action());
            let after = filter_map(intents.push(next), carried_action());
            match next {
                CombatIntent::Act(action) => after == before.push(action),
                _ => after == before,
            }
        }),
        filter_map(Seq::<CombatIntent>::empty(), carried_action()).len() == 0,
{
    assert(intents.push(next).drop_last() =~= intents);
}

/// Along each axis the goal of a walk is as near to the target as any tile of the walker's room.
pub proof fn law_goal_is_nearest_along_each_axis(from: Position, target: Position, other: Position)
    requires
        from.valid(),
        target.valid(),
        other.valid(),
        other.room_name() == from.room_name(),
    ensures
        ({
            let goal = room_goal(from, target);
            &&& goal.valid()
            &&& goal.room_name() == from.room_name()
            &&& abs(goal.world_x() - target.world_x()) <= abs(other.world_x() - target.world_x())
            &&& abs(goal.world_y() - target.world_y()) <= abs(other.world_y() - target.world_y())
        }),
{
}

/// The pathfinder is asked from where the walker stands. A target of the walker's room is sought at
/// the range that the intent says, one of another room at its exit tile exactly, and each threat is
/// fled by the range that the intent says; an intent that does not move asks nothing.
pub proof fn law_searches_ask_for_what_the_intent_says(from: Position, intent: CombatIntent)
    ensures
        search_plan(from, intent) matches Some(plan) ==> plan.from == from && plan.max_ops == 2000,
        match intent {
            CombatIntent::MoveTo { target, range } => {
                &&& search_plan(from, intent) matches Some(plan)
                &&& !plan.flee
                &&& plan.goals.len() == 1
                &&& target.room_name() == from.room_name() ==> plan.goals[0] == (target, range)
                &&& target.room_name() != from.room_name() ==> {
                    &&& plan.goals[0].1 == 0
                    &&& plan.goals[0].0.room_name() == from.room_name()
                    &&& plan.goals[0].0 == room_goal(from, target)
                }
            },
            CombatIntent::Flee { from: threats, range } => {
                &&& search_plan(from, intent) matches Some(plan)
                &&& plan.flee
                &&& plan.goals.len() == threats@.len()
                &&& forall|i: int|
                    0 <= i < threats@.len() ==> #[trigger] plan.goals[i] == (threats@[i], range)
            },
            _ => search_plan(from, intent) is None,
        },
{
}

/// The step of a path leads onto its first tile, where that is next to the walker in its room; an
/// empty path, and one that starts where the walker stands, has none.
pub proof fn law_steps_lead_onto_the_first_tile(from: Position, path: Seq<Position>)
    requires
        from.valid(),
        path.len() > 0 ==> path[0].valid() && path[0].room_name() == from.room_name(),
    ensures
        path.len() == 0 ==> path_step(from, path) is None,
        path.len() > 0 ==> (path_step(from, path) is None <==> path[0] == from),
        path.len() > 0 && range(from, path[0]) == 1 ==> {
            &&& path_step(from, path) matches Some(direction)
            &&& path[0].x() == from.x() + direction.dx()
            &&& path[0].y() == from.y() + direction.dy()
        },
{
    if path.len() > 0 {
        Position::lemma_made_of_parts(from);
        Position::lemma_made_of_parts(path[0]);
    }
}

/// The step of a walker that moves is the first of a path that its pathfinder gave, when asked from
/// where it stands, over the obstacles that its side sees in its own room.
pub proof fn law_steps_are_the_pathfinders<
    H: Fn(RoomName) -> Terrain,
    S: Fn(&CombatCostSource, &SearchRequest) -> Vec<Position>,
>(
    world: &CombatWorld,
    from: Position,
    me_owner: PlayerId,
    target: Position,
    within: u32,
    terrain: H,
    search: S,
    direction: Option<Direction>,
)
    requires
        from.valid(),
        target.valid(),
        resolves_to(
            world,
            from,
            me_owner,
            CombatIntent::MoveTo { target, range: within },
            terrain,
            search,
            direction,
        ),
    ensures
        exists|
            ground: Terrain,
            source: CombatCostSource,
            request: SearchRequest,
            path: Vec<Position>,
        |
            {
                &&& #[trigger] call_ensures(terrain, (from.room_name(),), ground)
                &&& source.describes(world, &ground, from.room_name(), me_owner)
                &&& #[trigger] call_ensures(search, (&source, &request), path)
                &&& request.from == from
                &&& !request.flee
                &&& request.max_ops == 2000
                &&& request.goals@.len() == 1
                &&& target.room_name() == from.room_name() ==> request.goals@[0] == (target, within)
                &&& target.room_name() != from.room_name() ==> request.goals@[0] == (
                    room_goal(from, target),
                    0u32,
                )
                &&& direction is Some ==> path@.len() > 0
                &&& path@.len() > 0 ==> direction == direction_between(from, path@[0])
            },
{
    let intent = CombatIntent::MoveTo { target, range: within };
    let plan = search_plan(from, intent)->0;
    let (ground, source, request, path) = choose|
        ground: Terrain,
        source: CombatCostSource,
        request: SearchRequest,
        path: Vec<Position>,
    |
        {
            &&& #[trigger] call_ensures(terrain, (from.room_name(),), ground)
            &&& source.describes(world, &ground, from.room_name(), me_owner)
            &&& request@ == plan
            &&& #[trigger] call_ensures(search, (&source, &request), path)
            &&& direction == path_step(from, path@)
        };
    law_searches_ask_for_what_the_intent_says(from, intent);
    assert(request.goals@ == request@.goals && request.from == request@.from);
    assert(call_ensures(terrain, (from.room_name(),), ground));
    assert(call_ensures(search, (&source, &request), path));
}

/// A walker that flees takes the first step of a path that its pathfinder gave, when asked to get
/// away from each threat by the range that the intent says; an intent that does not move comes to
/// no step.
pub proof fn law_flights_are_the_pathfinders<
    H: Fn(RoomName) -> Terrain,
    S: Fn(&CombatCostSource, &SearchRequest) -> Vec<Position>,
>(
    world: &CombatWorld,
    from: Position,
    me_owner: PlayerId,
    intent: CombatIntent,
    terrain: H,
    search: S,
    direction: Option<Direction>,
)
    requires
        resolves_to(world, from, me_owner, intent, terrain, search, direction),
    ensures
        intent !is MoveTo && intent !is Flee ==> direction is None,
        intent matches CombatIntent::Flee { from: threats, range: by } ==> exists|
            ground: Terrain,
            source: CombatCostSource,
            request: SearchRequest,
            path: Vec<Position>,
        |
            {
                &&& #[trigger] call_ensures(terrain, (from.room_name(),), ground)
                &&& source.describes(world, &ground, from.room_name(), me_owner)
                &&& #[trigger] call_ensures(search, (&source, &request), path)
                &&& request.from == from
                &&& request.flee
                &&& request.max_ops == 2000
                &&& request.goals@.len() == threats@.len()
                &&& forall|i: int|
                    0 <= i < threats@.len() ==> #[trigger] request.goals@[i] == (threats@[i], by)
                &&& direction is Some ==> path@.len() > 0
                &&& path@.len() > 0 ==> direction == direction_between(from, path@[0])
            },
{
    if intent is Flee {
        let plan = search_plan(from, intent)->0;
        let (ground, source, request, path) = choose|
            ground: Terrain,
            source: CombatCostSource,
            request: SearchRequest,
            path: Vec<Position>,
        |
            {
                &&& #[trigger] call_ensures(terrain, (from.room_name(),), ground)
                &&& source.describes(world, &ground, from.room_name(), me_owner)
                &&& request@ == plan
                &&& #[trigger] call_ensures(search, (&source, &request), path)
                &&& direction == path_step(from, path@)
            };
        law_searches_ask_for_what_the_intent_says(from, intent);
        assert(request.goals@ == request@.goals && request.from == request@.from);
        assert(request.flee == request@.flee);
        assert(call_ensures(terrain, (from.room_name(),), ground));
        assert(call_ensures(search, (&source, &request), path));
    }
}

/// The matrix of a room is built over the obstacles that the side sees in that room, on that room's
/// own terrain.
pub proof fn law_matrices_are_built_over_the_rooms_obstacles<
    M,
    H: Fn(RoomName) -> Terrain,
    B: Fn(&CombatCostSource, RoomName) -> Option<M>,
>(
    world: &CombatWorld,
    room: RoomName,
    me_owner: PlayerId,
    terrain: H,
    build: B,
    matrix: Option<M>,
)
    requires
        builds_to(world, room, me_owner, terrain, build, matrix),
    ensures
        exists|ground: Terrain, source: CombatCostSource|
            {
                &&& #[trigger] call_ensures(terrain, (room,), ground)
                &&& #[trigger] call_ensures(build, (&source, room), matrix)
                &&& source.blocks_like(world, &ground, room, me_owner)
            },
{
    let (ground, source) = choose|ground: Terrain, source: CombatCostSource|
        {
            &&& #[trigger] call_ensures(terrain, (room,), ground)
            &&& source.describes(world, &ground, room, me_owner)
            &&& #[trigger] call_ensures(build, (&source, room), matrix)
        };
    assert forall|x: u8, y: u8| #[trigger] source.blocks_tile(
        world,
        &ground,
        room,
        me_owner,
        x,
        y,
    ) by {
        law_layers_hold_just_the_rooms_obstacles(
            source,
            world,
            &ground,
            room,
            me_owner,
            room,
            x,
            y,
        );
    }
    assert(call_ensures(terrain, (room,), ground));
    assert(call_ensures(build, (&source, room), matrix));
}

impl CombatCostSource {
    /// Whether the layers of `room` give a tile the cost of what stands on it: 255 for a wall, a
    /// structure, a tower or a living creep of another side, else 10 for a swamp, else none.
    pub open spec fn blocks_tile(
        self,
        world: &CombatWorld,
        terrain: &Terrain,
        room: RoomName,
        me_owner: PlayerId,
        x: u8,
        y: u8,
    ) -> bool {
        &&& self.structure_layers(room) matches Some((roads, other))
        &&& self.creep_layers(room) matches Some((friends, hostiles, keepers))
        &&& layer_cost(roads, x, y) is None
        &&& layer_cost(friends, x, y) is None
        &&& layer_cost(keepers, x, y) is None
        &&& layer_cost(other, x, y) == (if obstacle_at(world, terrain, room, x, y) {
            Some(255u8)
        } else if terrain.swamps@.contains((x, y)) {
            Some(10u8)
        } else {
            None
        })
        &&& layer_cost(hostiles, x, y) == (if hostile_at(world, room, me_owner, x, y) {
            Some(255u8)
        } else {
            None
        })
    }

    /// Whether the layers of `room` give each tile the cost of what stands on it.
    pub open spec fn blocks_like(
        self,
        world: &CombatWorld,
        terrain: &Terrain,
        room: RoomName,
        me_owner: PlayerId,
    ) -> bool {
        forall|x: u8, y: u8| #[trigger] self.blocks_tile(world, terrain, room, me_owner, x, y)
    }
}

} // verus!
