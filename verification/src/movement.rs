//! Requests to the mover: what a member asks for, holding as a request of its own, and the damper
//! on goals that cannot be met.
use crate::geometry::{range, Position};
use crate::pathing::CombatIntent;
use crate::select::{filter_map, lemma_filter_map_contains, lemma_filter_map_take};
use crate::world::{first_living, law_first_living_creep_is_found, lives_first, CombatWorld};
use crate::world::{CreepId, SimCreep};
use std::collections::HashMap;
use vstd::prelude::*;

verus! {

broadcast use vstd::std_specs::hash::group_hash_axioms;

/// Where a creep asks to go.
#[derive(Clone, Debug)]
pub enum MoveGoal {
    To { target: Position, range: u32 },
    Flee { from: Vec<Position>, range: u32 },
}

/// Who yields to whom on a contested tile.
#[derive(Clone, Copy, Debug, PartialEq, Eq, Structural)]
pub enum MovementPriority {
    /// The mover's default.
    Standard,
    High,
    /// Never displaced.
    Immovable,
}

/// One creep's request to the mover for a tick. What is `None` is left at the mover's default.
#[derive(Clone, Debug)]
pub struct MoveRequest {
    pub creep: CreepId,
    pub goal: MoveGoal,
    pub priority: MovementPriority,
    /// A numeric bid, by which contention is ordered in place of the priority.
    pub priority_value: Option<i64>,
    /// Whether the creep may shove others aside.
    pub shove: Option<bool>,
    /// The tile and the radius that displacement must stay within.
    pub anchor: Option<(Position, u32)>,
    /// Whether the creep is part of a formation: a stuck repath of it looks through its
    /// squadmates rather than around them.
    pub engaged: bool,
}

/// The contents of a [`MoveGoal`].
#[verifier::ext_equal]
pub enum MoveGoalView {
    To { target: Position, range: u32 },
    Flee { from: Seq<Position>, range: u32 },
}

/// The contents of a [`MoveRequest`].
#[verifier::ext_equal]
pub struct MoveRequestView {
    pub creep: CreepId,
    pub goal: MoveGoalView,
    pub priority: MovementPriority,
    pub priority_value: Option<i64>,
    pub shove: Option<bool>,
    pub anchor: Option<(Position, u32)>,
    pub engaged: bool,
}

impl View for MoveGoal {
    type V = MoveGoalView;

    open spec fn view(&self) -> MoveGoalView {
        match *self {
            MoveGoal::To { target, range } => MoveGoalView::To { target, range },
            MoveGoal::Flee { from, range } => MoveGoalView::Flee { from: from@, range },
        }
    }
}

impl View for MoveRequest {
    type V = MoveRequestView;

    open spec fn view(&self) -> MoveRequestView {
        MoveRequestView {
            creep: self.creep,
            goal: self.goal@,
            priority: self.priority,
            priority_value: self.priority_value,
            shove: self.shove,
            anchor: self.anchor,
            engaged: self.engaged,
        }
    }
}

/// The contents of each request of a list.
pub open spec fn request_views(reqs: Seq<MoveRequest>) -> Seq<MoveRequestView> {
    Seq::new(reqs.len(), |i: int| reqs[i]@)
}

impl MoveRequestView {
    /// A request for `goal` with nothing else set.
    pub open spec fn plain(creep: CreepId, goal: MoveGoalView) -> MoveRequestView {
        MoveRequestView {
            creep,
            goal,
            priority: MovementPriority::Standard,
            priority_value: None,
            shove: None,
            anchor: None,
            engaged: false,
        }
    }

    /// A claim on the creep's own tile.
    pub open spec fn hold(creep: CreepId, pos: Position) -> MoveRequestView {
        MoveRequestView {
            priority: MovementPriority::Immovable,
            ..MoveRequestView::plain(creep, MoveGoalView::To { target: pos, range: 0 })
        }
    }
}

impl MoveRequest {
    /// A request for `goal` with nothing else set.
    pub fn new(creep: CreepId, goal: MoveGoal) -> (req: MoveRequest)
        ensures
            req@ == MoveRequestView::plain(creep, goal@),
    {
        MoveRequest {
            creep,
            goal,
            priority: MovementPriority::Standard,
            priority_value: None,
            shove: None,
            anchor: None,
            engaged: false,
        }
    }

    /// A claim on the creep's own tile. Holding is a request like any other: the mover sees the
    /// creep, squadmates go around it, and nobody shoves it away.
    pub fn hold(creep: CreepId, pos: Position) -> (req: MoveRequest)
        ensures
            req@ == MoveRequestView::hold(creep, pos),
    {
        MoveRequest {
            creep,
            goal: MoveGoal::To { target: pos, range: 0 },
            priority: MovementPriority::Immovable,
            priority_value: None,
            shove: None,
            anchor: None,
            engaged: false,
        }
    }
}

/// The request that a movement intent comes to; `None` for an intent that does not move.
pub open spec fn request_of(creep: CreepId, intent: CombatIntent) -> Option<MoveRequestView> {
    match intent {
        CombatIntent::MoveTo { target, range } => Some(
            MoveRequestView::plain(creep, MoveGoalView::To { target, range }),
        ),
        CombatIntent::Flee { from, range } => Some(
            MoveRequestView::plain(creep, MoveGoalView::Flee { from: from@, range }),
        ),
        _ => None,
    }
}

pub(crate) fn copy_positions(tiles: &Vec<Position>) -> (copy: Vec<Position>)
    ensures
        copy@ == tiles@,
{
    let mut copy: Vec<Position> = Vec::new();
    let mut i: usize = 0;
    while i < tiles.len()
        invariant
            i <= tiles@.len(),
            copy@ =~= tiles@.take(i as int),
        decreases tiles@.len() - i,
    {
        copy.push(tiles[i]);
        i = i + 1;
    }
    proof {
        assert(copy@ =~= tiles@);
    }
    copy
}

/// Turn a movement intent into a request; `None` for an intent that does not move.
pub fn move_request_from_intent(creep: CreepId, intent: &CombatIntent) -> (req: Option<MoveRequest>)
    ensures
        req is Some <==> request_of(creep, *intent) is Some,
        req matches Some(r) ==> r@ == request_of(creep, *intent)->0,
{
    match intent {
        CombatIntent::MoveTo { target, range } => Some(
            MoveRequest::new(creep, MoveGoal::To { target: *target, range: *range }),
        ),
        CombatIntent::Flee { from, range } => Some(
            MoveRequest::new(creep, MoveGoal::Flee { from: copy_positions(from), range: *range }),
        ),
        _ => None,
    }
}

/// Whether some request is that creep's.
pub open spec fn requested(reqs: Seq<MoveRequestView>, id: CreepId) -> bool {
    exists|i: int| 0 <= i < reqs.len() && (#[trigger] reqs[i]).creep == id
}

/// The hold of a living creep that has no request yet.
pub open spec fn hold_of(creeps: Seq<SimCreep>, reqs: Seq<MoveRequestView>) -> spec_fn(
    CreepId,
) -> Option<MoveRequestView> {
    |id: CreepId|
        if requested(reqs, id) {
            None
        } else {
            match first_living(creeps, id) {
                Some(c) => Some(MoveRequestView::hold(id, c.pos)),
                None => None,
            }
        }
}

/// `reqs` with a hold for each living member that has no request in it.
pub open spec fn with_holds(
    creeps: Seq<SimCreep>,
    members: Seq<CreepId>,
    reqs: Seq<MoveRequestView>,
) -> Seq<MoveRequestView> {
    reqs + filter_map(members, hold_of(creeps, reqs))
}

fn is_requested(reqs: &Vec<MoveRequest>, upto: usize, id: CreepId) -> (found: bool)
    requires
        upto <= reqs@.len(),
    ensures
        found == requested(request_views(reqs@).take(upto as int), id),
{
    let ghost views = request_views(reqs@).take(upto as int);
    let mut i: usize = 0;
    while i < upto
        invariant
            i <= upto <= reqs@.len(),
            views == request_views(reqs@).take(upto as int),
            forall|k: int| 0 <= k < i ==> (#[trigger] views[k]).creep != id,
        decreases upto - i,
    {
        assert(views[i as int].creep == reqs@[i as int].creep);
        if reqs[i].creep == id {
            return true;
        }
        i = i + 1;
    }
    false
}

/// Add a hold for each living member that has no request this tick: claiming its own tile is what
/// makes a creep that stays visible to the mover.
pub fn push_hold_requests(
    world: &CombatWorld,
    members: &Vec<CreepId>,
    move_reqs: &mut Vec<MoveRequest>,
)
    ensures
        request_views(final(move_reqs)@) == with_holds(
            world.creeps@,
            members@,
            request_views(old(move_reqs)@),
        ),
{
    let built: usize = move_reqs.len();
    let ghost start = request_views(move_reqs@);
    let ghost keep = hold_of(world.creeps@, start);
    let mut i: usize = 0;
    proof {
        assert(request_views(move_reqs@) =~= start + filter_map(members@.take(0), keep));
    }
    while i < members.len()
        invariant
            i <= members@.len(),
            built <= move_reqs@.len(),
            built == start.len(),
            keep == hold_of(world.creeps@, start),
            request_views(move_reqs@) == start + filter_map(members@.take(i as int), keep),
        decreases members@.len() - i,
    {
        let id: CreepId = members[i];
        proof {
            lemma_filter_map_take(members@, keep, i as int);
            assert(request_views(move_reqs@).take(built as int) =~= start);
        }
        if !is_requested(move_reqs, built, id) {
            if let Some(c) = world.living_creep(id) {
                let ghost before = move_reqs@;
                move_reqs.push(MoveRequest::hold(id, c.pos));
                proof {
                    assert(request_views(move_reqs@) =~= request_views(before).push(
                        MoveRequestView::hold(id, c.pos),
                    ));
                    assert(request_views(move_reqs@) =~= start + filter_map(
                        members@.take(i + 1),
                        keep,
                    ));
                }
            }
        }
        i = i + 1;
    }
    proof {
        assert(members@.take(members@.len() as int) =~= members@);
    }
}

/// How many ticks in a row a goal must be doomed before its member stands.
pub const DOOMED_GOAL_HOLD_AFTER: u16 = 3;

/// Whether a tile is claimed by a hold.
pub open spec fn is_held(reqs: Seq<MoveRequestView>, tile: Position) -> bool {
    exists|i: int|
        {
            &&& 0 <= i < reqs.len()
            &&& (#[trigger] reqs[i]).priority == MovementPriority::Immovable
            &&& reqs[i].goal matches MoveGoalView::To { target, range: _ }
            &&& target == tile
        }
}

/// Where a request is doomed, its goal and where its creep stands: it wants a tile that another
/// holds, and its creep is already next to it.
pub open spec fn doom(
    req: MoveRequestView,
    reqs: Seq<MoveRequestView>,
    creeps: Seq<SimCreep>,
) -> Option<(Position, Position)> {
    match (req.goal, first_living(creeps, req.creep)) {
        (MoveGoalView::To { target, range: within }, Some(c)) => if req.priority
            != MovementPriority::Immovable && within == 0 && is_held(reqs, target) && range(
            c.pos,
            target,
        ) <= 1 {
            Some((target, c.pos))
        } else {
            None
        },
        _ => None,
    }
}

/// The damper after some of the requests: every streak, those of this tick's doomed goals, and the
/// requests as they now stand.
#[verifier::ext_equal]
pub struct Damped {
    pub streaks: Map<CreepId, (Position, int)>,
    pub doomed: Map<CreepId, (Position, int)>,
    pub reqs: Seq<MoveRequestView>,
}

/// The damper over the first `k` requests.
pub open spec fn damp(
    reqs: Seq<MoveRequestView>,
    creeps: Seq<SimCreep>,
    streaks: Map<CreepId, (Position, int)>,
    k: int,
) -> Damped
    decreases k,
{
    if k <= 0 {
        Damped { streaks, doomed: Map::empty(), reqs: Seq::empty() }
    } else {
        let before = damp(reqs, creeps, streaks, k - 1);
        let req = reqs[k - 1];
        match doom(req, reqs, creeps) {
            None => Damped { reqs: before.reqs.push(req), ..before },
            Some((target, pos)) => {
                let streak = if before.streaks.dom().contains(req.creep)
                    && before.streaks[req.creep].0 == target {
                    before.streaks[req.creep].1 + 1
                } else {
                    1
                };
                Damped {
                    streaks: before.streaks.insert(req.creep, (target, streak)),
                    doomed: before.doomed.insert(req.creep, (target, streak)),
                    reqs: before.reqs.push(
                        if streak >= DOOMED_GOAL_HOLD_AFTER {
                            MoveRequestView::hold(req.creep, pos)
                        } else {
                            req
                        },
                    ),
                }
            },
        }
    }
}

/// The streaks that a map of counters holds.
pub open spec fn streak_view(streaks: Map<CreepId, (Position, u16)>) -> Map<
    CreepId,
    (Position, int),
> {
    streaks.map_values(|s: (Position, u16)| (s.0, s.1 as int))
}

/// Whether no streak outgrows its counter on these requests.
pub open spec fn streaks_fit(
    reqs: Seq<MoveRequestView>,
    creeps: Seq<SimCreep>,
    streaks: Map<CreepId, (Position, int)>,
) -> bool {
    forall|k: int, id: CreepId|
        0 <= k <= reqs.len() && #[trigger] damp(reqs, creeps, streaks, k).streaks.dom().contains(id)
            ==> damp(reqs, creeps, streaks, k).streaks[id].1 <= u16::MAX
}

fn held_tiles(reqs: &Vec<MoveRequest>) -> (tiles: Vec<Position>)
    ensures
        forall|tile: Position| #[trigger]
            tiles@.contains(tile) <==> is_held(request_views(reqs@), tile),
{
    let ghost views = request_views(reqs@);
    let mut tiles: Vec<Position> = Vec::new();
    let mut i: usize = 0;
    while i < reqs.len()
        invariant
            i <= reqs@.len(),
            views == request_views(reqs@),
            forall|tile: Position| #[trigger]
                tiles@.contains(tile) <==> is_held(views.take(i as int), tile),
        decreases reqs@.len() - i,
    {
        let ghost before = tiles@;
        let ghost seen = views.take(i as int);
        let ghost now = views.take(i + 1);
        proof {
            assert(now =~= seen.push(views[i as int]));
            assert(views[i as int] == reqs@[i as int]@);
        }
        if reqs[i].priority == MovementPriority::Immovable {
            match &reqs[i].goal {
                MoveGoal::To { target, range: _ } => {
                    tiles.push(*target);
                },
                MoveGoal::Flee { from: _, range: _ } => {},
            }
        }
        proof {
            assert forall|tile: Position| #[trigger]
                tiles@.contains(tile) <==> is_held(now, tile) by {
                if before.contains(tile) {
                    let j = choose|j: int| 0 <= j < before.len() && before[j] == tile;
                    assert(tiles@[j] == tile);
                    assert(is_held(seen, tile));
                    let k = choose|k: int|
                        {
                            &&& 0 <= k < seen.len()
                            &&& (#[trigger] seen[k]).priority == MovementPriority::Immovable
                            &&& seen[k].goal matches MoveGoalView::To { target, range: _ }
                            &&& target == tile
                        };
                    assert(now[k] == seen[k]);
                } else {
                    if tiles@.contains(tile) {
                        let j = choose|j: int| 0 <= j < tiles@.len() && tiles@[j] == tile;
                        assert(j == before.len());
                        assert(now[i as int] == views[i as int]);
                    }
                    if is_held(now, tile) {
                        let k = choose|k: int|
                            {
                                &&& 0 <= k < now.len()
                                &&& (#[trigger] now[k]).priority == MovementPriority::Immovable
                                &&& now[k].goal matches MoveGoalView::To { target, range: _ }
                                &&& target == tile
                            };
                        if k < i {
                            assert(seen[k] == now[k]);
                        }
                        assert(tiles@[before.len() as int] == tile);
                    }
                }
            }
        }
        i = i + 1;
    }
    proof {
        assert(views.take(reqs@.len() as int) =~= views);
    }
    tiles
}

fn has_tile(tiles: &Vec<Position>, tile: Position) -> (found: bool)
    ensures
        found == tiles@.contains(tile),
{
    let mut i: usize = 0;
    while i < tiles.len()
        invariant
            i <= tiles@.len(),
            forall|k: int| 0 <= k < i ==> tiles@[k] != tile,
        decreases tiles@.len() - i,
    {
        if tiles[i] == tile {
            return true;
        }
        i = i + 1;
    }
    false
}

/// Where a request is doomed, its goal and where its creep stands; `held` are the tiles that the
/// requests of this tick hold.
fn find_doom(world: &CombatWorld, req: &MoveRequest, held: &Vec<Position>, Ghost(reqs): Ghost<
    Seq<MoveRequestView>,
>) -> (found: Option<(Position, Position)>)
    requires
        forall|tile: Position| #[trigger] held@.contains(tile) <==> is_held(reqs, tile),
    ensures
        found == doom(req@, reqs, world.creeps@),
{
    if req.priority == MovementPriority::Immovable {
        return None;
    }
    match &req.goal {
        MoveGoal::To { target, range: within } => {
            if *within == 0 && has_tile(held, *target) {
                if let Some(c) = world.living_creep(req.creep) {
                    if c.pos.get_range_to(*target) <= 1 {
                        return Some((*target, c.pos));
                    }
                }
            }
            None
        },
        MoveGoal::Flee { from: _, range: _ } => None,
    }
}

/// Damp goals that cannot be met: a member next to a tile that a squadmate holds, and bound for
/// exactly that tile, would sidestep forever. Once its goal has been doomed for
/// [`DOOMED_GOAL_HOLD_AFTER`] ticks in a row it stands where it is. Members farther off are left
/// alone, and a streak is dropped as soon as its goal is no longer doomed.
pub fn convert_persistent_doomed_goals(
    world: &CombatWorld,
    move_reqs: &mut Vec<MoveRequest>,
    streaks: &mut HashMap<CreepId, (Position, u16)>,
)
    requires
        streaks_fit(request_views(old(move_reqs)@), world.creeps@, streak_view(old(streaks)@)),
    ensures
        ({
            let before = request_views(old(move_reqs)@);
            let damped = damp(
                before,
                world.creeps@,
                streak_view(old(streaks)@),
                before.len() as int,
            );
            &&& request_views(final(move_reqs)@) == damped.reqs
            &&& streak_view(final(streaks)@) == damped.doomed
        }),
{
    let held = held_tiles(move_reqs);
    let mut doomed: HashMap<CreepId, (Position, u16)> = HashMap::new();
    let ghost init = move_reqs@;
    let ghost before = request_views(move_reqs@);
    let ghost start = streak_view(streaks@);
    proof {
        assert(streak_view(doomed@) =~= Map::empty());
    }
    let mut i: usize = 0;
    while i < move_reqs.len()
        invariant
            i <= move_reqs@.len(),
            move_reqs@.len() == init.len(),
            before == request_views(init),
            streaks_fit(before, world.creeps@, start),
            forall|tile: Position| #[trigger] held@.contains(tile) <==> is_held(before, tile),
            forall|k: int| i <= k < init.len() ==> move_reqs@[k] == init[k],
            request_views(move_reqs@).take(i as int) == damp(
                before,
                world.creeps@,
                start,
                i as int,
            ).reqs,
            streak_view(streaks@) == damp(before, world.creeps@, start, i as int).streaks,
            streak_view(doomed@) == damp(before, world.creeps@, start, i as int).doomed,
        decreases move_reqs@.len() - i,
    {
        let ghost state = damp(before, world.creeps@, start, i as int);
        let ghost next = damp(before, world.creeps@, start, i + 1);
        let ghost current = move_reqs@;
        assert(before[i as int] == move_reqs@[i as int]@);
        let found = find_doom(world, &move_reqs[i], &held, Ghost(before));
        if let Some((target, pos)) = found {
            let creep: CreepId = move_reqs[i].creep;
            let ghost old_streaks = streaks@;
            let ghost old_doomed = doomed@;
            proof {
                assert(next.streaks.dom().contains(creep));
                assert(next.streaks[creep].1 <= u16::MAX);
                assert(streak_view(streaks@).dom().contains(creep) <==> streaks@.dom().contains(
                    creep,
                ));
            }
            let streak: u16 = match streaks.get(&creep) {
                Some(s) => if s.0 == target {
                    s.1 + 1
                } else {
                    1
                },
                None => 1,
            };
            streaks.insert(creep, (target, streak));
            doomed.insert(creep, (target, streak));
            proof {
                assert(streak_view(streaks@) =~= streak_view(old_streaks).insert(
                    creep,
                    (target, streak as int),
                ));
                assert(streak_view(doomed@) =~= streak_view(old_doomed).insert(
                    creep,
                    (target, streak as int),
                ));
            }
            if streak >= DOOMED_GOAL_HOLD_AFTER {
                move_reqs.set(i, MoveRequest::hold(creep, pos));
            }
        }
        proof {
            assert(request_views(move_reqs@).take(i + 1) =~= request_views(current).take(
                i as int,
            ).push(move_reqs@[i as int]@));
        }
        i = i + 1;
    }
    proof {
        assert(request_views(move_reqs@).take(move_reqs@.len() as int) =~= request_views(
            move_reqs@,
        ));
    }
    *streaks = doomed;
}

/// Once the holds are added no living member is without a request.
pub proof fn law_no_living_member_without_request(
    creeps: Seq<SimCreep>,
    members: Seq<CreepId>,
    reqs: Seq<MoveRequestView>,
    id: CreepId,
)
    requires
        members.contains(id),
        first_living(creeps, id) is Some,
    ensures
        requested(with_holds(creeps, members, reqs), id),
{
    let all = with_holds(creeps, members, reqs);
    let keep = hold_of(creeps, reqs);
    if requested(reqs, id) {
        let k = choose|k: int| 0 <= k < reqs.len() && (#[trigger] reqs[k]).creep == id;
        assert(all[k] == reqs[k]);
    } else {
        let m = choose|m: int| 0 <= m < members.len() && members[m] == id;
        let hold = keep(members[m])->0;
        lemma_filter_map_contains(members, keep, hold);
        let holds = filter_map(members, keep);
        let k = choose|k: int| 0 <= k < holds.len() && holds[k] == hold;
        assert(all[reqs.len() + k] == hold);
    }
}

/// Adding the holds leaves every request that was made as it is, and what it adds is the claim of
/// a living member, without a request of its own, on the tile it stands on.
pub proof fn law_holds_only_claim_own_tiles(
    creeps: Seq<SimCreep>,
    members: Seq<CreepId>,
    reqs: Seq<MoveRequestView>,
    i: int,
)
    requires
        0 <= i < with_holds(creeps, members, reqs).len(),
    ensures
        i < reqs.len() ==> with_holds(creeps, members, reqs)[i] == reqs[i],
        i >= reqs.len() ==> ({
            let added = with_holds(creeps, members, reqs)[i];
            &&& members.contains(added.creep)
            &&& !requested(reqs, added.creep)
            &&& first_living(creeps, added.creep) matches Some(c)
            &&& added == MoveRequestView::hold(added.creep, c.pos)
        }),
{
    if i >= reqs.len() {
        let keep = hold_of(creeps, reqs);
        let holds = filter_map(members, keep);
        let added = holds[i - reqs.len()];
        assert(holds.contains(added));
        lemma_filter_map_contains(members, keep, added);
        let m = choose|m: int| 0 <= m < members.len() && #[trigger] keep(members[m]) == Some(added);
        assert(members.contains(members[m]));
    }
}

/// Where every living member has its request, no hold is added.
pub proof fn law_requested_members_need_no_hold(
    creeps: Seq<SimCreep>,
    members: Seq<CreepId>,
    reqs: Seq<MoveRequestView>,
)
    requires
        forall|id: CreepId| #[trigger]
            members.contains(id) && first_living(creeps, id) is Some ==> requested(reqs, id),
    ensures
        with_holds(creeps, members, reqs) == reqs,
{
    let all = with_holds(creeps, members, reqs);
    if all.len() > reqs.len() {
        law_holds_only_claim_own_tiles(creeps, members, reqs, reqs.len() as int);
        let added = all[reqs.len() as int];
        assert(members.contains(added.creep));
    }
    assert(all =~= reqs);
}

/// The damper keeps the list's length and order; a request whose goal is not doomed stays as it
/// is, and a doomed one either stays or becomes its creep's hold on the tile it stands on.
pub proof fn law_damper_only_holds_doomed_goals(
    reqs: Seq<MoveRequestView>,
    creeps: Seq<SimCreep>,
    streaks: Map<CreepId, (Position, int)>,
    k: int,
)
    requires
        0 <= k <= reqs.len(),
    ensures
        damp(reqs, creeps, streaks, k).reqs.len() == k,
        forall|i: int|
            0 <= i < k ==> match doom(reqs[i], reqs, creeps) {
                None => #[trigger] damp(reqs, creeps, streaks, k).reqs[i] == reqs[i],
                Some((_, pos)) => {
                    ||| damp(reqs, creeps, streaks, k).reqs[i] == reqs[i]
                    ||| damp(reqs, creeps, streaks, k).reqs[i] == MoveRequestView::hold(
                        reqs[i].creep,
                        pos,
                    )
                },
            },
    decreases k,
{
    if k > 0 {
        law_damper_only_holds_doomed_goals(reqs, creeps, streaks, k - 1);
        let before = damp(reqs, creeps, streaks, k - 1);
        let after = damp(reqs, creeps, streaks, k);
        assert forall|i: int| 0 <= i < k implies match doom(reqs[i], reqs, creeps) {
            None => #[trigger] after.reqs[i] == reqs[i],
            Some((_, pos)) => {
                ||| after.reqs[i] == reqs[i]
                ||| after.reqs[i] == MoveRequestView::hold(reqs[i].creep, pos)
            },
        } by {
            if i < k - 1 {
                assert(after.reqs[i] == before.reqs[i]);
            }
        }
    }
}

/// A creep farther than one step from its goal is never frozen, and neither is one whose goal
/// nobody holds.
pub proof fn law_damper_spares_the_distant(
    reqs: Seq<MoveRequestView>,
    creeps: Seq<SimCreep>,
    streaks: Map<CreepId, (Position, int)>,
    i: int,
)
    requires
        0 <= i < reqs.len(),
        reqs[i].goal matches MoveGoalView::To { target, range: _ } && (!is_held(reqs, target)
            || (first_living(creeps, reqs[i].creep) matches Some(c) && range(c.pos, target) > 1)),
    ensures
        damp(reqs, creeps, streaks, reqs.len() as int).reqs[i] == reqs[i],
{
    law_damper_only_holds_doomed_goals(reqs, creeps, streaks, reqs.len() as int);
}

/// After a tick a creep has a streak exactly where its goal was doomed in that tick: once the goal
/// changes, the holder leaves or the creep dies, the streak is gone.
pub proof fn law_streaks_reset(
    reqs: Seq<MoveRequestView>,
    creeps: Seq<SimCreep>,
    streaks: Map<CreepId, (Position, int)>,
    k: int,
    id: CreepId,
)
    requires
        0 <= k <= reqs.len(),
    ensures
        damp(reqs, creeps, streaks, k).doomed.dom().contains(id) <==> exists|i: int|
            {
                &&& 0 <= i < k
                &&& (#[trigger] reqs[i]).creep == id
                &&& doom(reqs[i], reqs, creeps) is Some
            },
    decreases k,
{
    if k > 0 {
        law_streaks_reset(reqs, creeps, streaks, k - 1, id);
        if doom(reqs[k - 1], reqs, creeps) is Some && reqs[k - 1].creep == id {
            assert(reqs[k - 1].creep == id);
        }
    }
}

/// Whether request `i` is the only doomed one of its creep.
pub open spec fn sole_doomed(reqs: Seq<MoveRequestView>, creeps: Seq<SimCreep>, i: int) -> bool {
    &&& 0 <= i < reqs.len()
    &&& doom(reqs[i], reqs, creeps) is Some
    &&& forall|j: int|
        0 <= j < reqs.len() && j != i && doom(#[trigger] reqs[j], reqs, creeps) is Some
            ==> reqs[j].creep != reqs[i].creep
}

/// The streak that a doomed goal reaches in a tick: one more than before for the same tile, else
/// one.
pub open spec fn next_streak(
    streaks: Map<CreepId, (Position, int)>,
    creep: CreepId,
    target: Position,
) -> int {
    if streaks.dom().contains(creep) && streaks[creep].0 == target {
        streaks[creep].1 + 1
    } else {
        1
    }
}

proof fn lemma_damp_sole(
    reqs: Seq<MoveRequestView>,
    creeps: Seq<SimCreep>,
    streaks: Map<CreepId, (Position, int)>,
    i: int,
    k: int,
)
    requires
        sole_doomed(reqs, creeps, i),
        0 <= k <= reqs.len(),
    ensures
        ({
            let damped = damp(reqs, creeps, streaks, k);
            let creep = reqs[i].creep;
            let (target, pos) = doom(reqs[i], reqs, creeps)->0;
            let streak = next_streak(streaks, creep, target);
            &&& damped.reqs.len() == k
            &&& k <= i ==> {
                &&& damped.streaks.dom().contains(creep) == streaks.dom().contains(creep)
                &&& damped.streaks[creep] == streaks[creep]
            }
            &&& k > i ==> {
                &&& damped.doomed.dom().contains(creep)
                &&& damped.doomed[creep] == (target, streak)
                &&& damped.reqs[i] == (if streak >= DOOMED_GOAL_HOLD_AFTER {
                    MoveRequestView::hold(creep, pos)
                } else {
                    reqs[i]
                })
            }
        }),
    decreases k,
{
    if k > 0 {
        lemma_damp_sole(reqs, creeps, streaks, i, k - 1);
        let before = damp(reqs, creeps, streaks, k - 1);
        if k - 1 != i && doom(reqs[k - 1], reqs, creeps) is Some {
            assert(reqs[k - 1].creep != reqs[i].creep);
        }
    }
}

/// A doomed goal adds one to its creep's streak, or starts it anew on another tile, and the creep
/// stands from the tick on in which the streak reaches [`DOOMED_GOAL_HOLD_AFTER`].
pub proof fn law_streak_counts(
    reqs: Seq<MoveRequestView>,
    creeps: Seq<SimCreep>,
    streaks: Map<CreepId, (Position, int)>,
    i: int,
)
    requires
        sole_doomed(reqs, creeps, i),
    ensures
        ({
            let damped = damp(reqs, creeps, streaks, reqs.len() as int);
            let creep = reqs[i].creep;
            let (target, pos) = doom(reqs[i], reqs, creeps)->0;
            let streak = next_streak(streaks, creep, target);
            &&& damped.doomed.dom().contains(creep)
            &&& damped.doomed[creep] == (target, streak)
            &&& damped.reqs[i] == (if streak >= DOOMED_GOAL_HOLD_AFTER {
                MoveRequestView::hold(creep, pos)
            } else {
                reqs[i]
            })
        }),
{
    lemma_damp_sole(reqs, creeps, streaks, i, reqs.len() as int);
}

/// A conflict that lasts no more than two ticks passes through untouched; one that lasts a third
/// tick ends in a hold. The three ticks may differ in everything but the creep and the tile.
pub proof fn law_grace_of_two_ticks(
    first: Seq<MoveRequestView>,
    second: Seq<MoveRequestView>,
    third: Seq<MoveRequestView>,
    creeps_1: Seq<SimCreep>,
    creeps_2: Seq<SimCreep>,
    creeps_3: Seq<SimCreep>,
    streaks: Map<CreepId, (Position, int)>,
    i: int,
    j: int,
    k: int,
    creep: CreepId,
    target: Position,
)
    requires
        sole_doomed(first, creeps_1, i),
        sole_doomed(second, creeps_2, j),
        sole_doomed(third, creeps_3, k),
        first[i].creep == creep,
        second[j].creep == creep,
        third[k].creep == creep,
        (doom(first[i], first, creeps_1)->0).0 == target,
        (doom(second[j], second, creeps_2)->0).0 == target,
        (doom(third[k], third, creeps_3)->0).0 == target,
        !streaks.dom().contains(creep),
    ensures
        ({
            let after_1 = damp(first, creeps_1, streaks, first.len() as int);
            let after_2 = damp(second, creeps_2, after_1.doomed, second.len() as int);
            let after_3 = damp(third, creeps_3, after_2.doomed, third.len() as int);
            &&& after_1.reqs[i] == first[i]
            &&& after_2.reqs[j] == second[j]
            &&& after_3.reqs[k] == MoveRequestView::hold(
                creep,
                (doom(third[k], third, creeps_3)->0).1,
            )
        }),
{
    law_streak_counts(first, creeps_1, streaks, i);
    let after_1 = damp(first, creeps_1, streaks, first.len() as int);
    law_streak_counts(second, creeps_2, after_1.doomed, j);
    let after_2 = damp(second, creeps_2, after_1.doomed, second.len() as int);
    law_streak_counts(third, creeps_3, after_2.doomed, k);
}

/// A movement intent asks for just what it says, at the mover's defaults; any other intent asks for
/// nothing.
pub proof fn law_requests_say_what_the_intent_says(creep: CreepId, intent: CombatIntent)
    ensures
        request_of(creep, intent) matches Some(req) ==> {
            &&& req.creep == creep
            &&& req.priority == MovementPriority::Standard
            &&& req.priority_value is None
            &&& req.shove is None
            &&& req.anchor is None
            &&& !req.engaged
        },
        match intent {
            CombatIntent::MoveTo { target, range } => {
                &&& request_of(creep, intent) matches Some(req)
                &&& req.goal == MoveGoalView::To { target, range }
            },
            CombatIntent::Flee { from, range } => {
                &&& request_of(creep, intent) matches Some(req)
                &&& req.goal == MoveGoalView::Flee { from: from@, range }
            },
            _ => request_of(creep, intent) is None,
        },
{
}

/// Whether a request is its creep's plain claim on a tile: to that very tile, never displaced, and
/// with nothing else set.
pub open spec fn claims(req: MoveRequestView, creep: CreepId, tile: Position) -> bool {
    &&& req.creep == creep
    &&& req.goal == MoveGoalView::To { target: tile, range: 0 }
    &&& req.priority == MovementPriority::Immovable
    &&& req.priority_value is None
    &&& req.shove is None
    &&& req.anchor is None
    &&& !req.engaged
}

/// A hold is a plain claim on the tile.
pub proof fn law_a_hold_is_a_plain_claim(creep: CreepId, tile: Position)
    ensures
        claims(MoveRequestView::hold(creep, tile), creep, tile),
{
}

/// Once the holds are added, a creep with requests has as many as it had; a living member of an id
/// of its own that had none has one, its claim on the tile where the first living creep of that id
/// stands; and the dead and strangers have none.
pub proof fn law_who_has_no_request_holds_once(
    creeps: Seq<SimCreep>,
    members: Seq<CreepId>,
    reqs: Seq<MoveRequestView>,
    id: CreepId,
)
    ensures
        ({
            let all = with_holds(creeps, members, reqs);
            let had = exists|i: int| 0 <= i < reqs.len() && (#[trigger] reqs[i]).creep == id;
            &&& forall|i: int| 0 <= i < reqs.len() ==> #[trigger] all[i] == reqs[i]
            &&& had ==> forall|i: int|
                reqs.len() <= i < all.len() ==> (#[trigger] all[i]).creep != id
            &&& forall|m: int, k: int|
                {
                    &&& !had
                    &&& 0 <= m < members.len()
                    &&& #[trigger] members[m] == id
                    &&& forall|j: int|
                        0 <= j < members.len() && j != m ==> #[trigger] members[j] != id
                    &&& #[trigger] lives_first(creeps, id, k)
                } ==> exists|i: int|
                    {
                        &&& reqs.len() <= i < all.len()
                        &&& claims(#[trigger] all[i], id, creeps[k].pos)
                        &&& forall|j: int|
                            0 <= j < all.len() && j != i ==> (#[trigger] all[j]).creep != id
                    }
            &&& !had && (!members.contains(id) || forall|j: int|
                0 <= j < creeps.len() ==> !((#[trigger] creeps[j]).id == id && creeps[j].alive))
                ==> forall|i: int| 0 <= i < all.len() ==> (#[trigger] all[i]).creep != id
        }),
{
    let keep = hold_of(creeps, reqs);
    let holds = filter_map(members, keep);
    let all = with_holds(creeps, members, reqs);
    law_first_living_creep_is_found(creeps, id);
    assert forall|i: int| reqs.len() <= i < all.len() implies {
        let added = #[trigger] all[i];
        &&& members.contains(added.creep)
        &&& !requested(reqs, added.creep)
        &&& first_living(creeps, added.creep) is Some
        &&& added == MoveRequestView::hold(
            added.creep,
            (first_living(creeps, added.creep)->0).pos,
        )
    } by {
        law_holds_only_claim_own_tiles(creeps, members, reqs, i);
    }
    let had = exists|i: int| 0 <= i < reqs.len() && (#[trigger] reqs[i]).creep == id;
    assert(had == requested(reqs, id));
    assert forall|m: int, k: int|
        {
            &&& !had
            &&& 0 <= m < members.len()
            &&& #[trigger] members[m] == id
            &&& forall|j: int| 0 <= j < members.len() && j != m ==> #[trigger] members[j] != id
            &&& #[trigger] lives_first(creeps, id, k)
        } implies exists|i: int|
        {
            &&& reqs.len() <= i < all.len()
            &&& claims(#[trigger] all[i], id, creeps[k].pos)
            &&& forall|j: int| 0 <= j < all.len() && j != i ==> (#[trigger] all[j]).creep != id
        } by {
        let (before, after) = lemma_hold_split(creeps, members, reqs, m);
        let i = (reqs.len() + before.len()) as int;
        assert(all[i] == MoveRequestView::hold(id, creeps[k].pos));
        assert forall|j: int| 0 <= j < all.len() && j != i implies (#[trigger] all[j]).creep
            != id by {
            if j >= reqs.len() {
                let h = j - reqs.len();
                if h < before.len() {
                    assert(before[h] == all[j]);
                } else {
                    assert(after[h - before.len() - 1] == all[j]);
                }
            } else {
                assert(all[j] == reqs[j]);
            }
        }
    }
}

/// The holds, split at the one of a living member without a request whose id occurs once.
proof fn lemma_hold_split(
    creeps: Seq<SimCreep>,
    members: Seq<CreepId>,
    reqs: Seq<MoveRequestView>,
    m: int,
) -> (split: (Seq<MoveRequestView>, Seq<MoveRequestView>))
    requires
        0 <= m < members.len(),
        forall|j: int| 0 <= j < members.len() && j != m ==> #[trigger] members[j] != members[m],
        first_living(creeps, members[m]) is Some,
        !requested(reqs, members[m]),
    ensures
        filter_map(members, hold_of(creeps, reqs)) == split.0.push(
            MoveRequestView::hold(members[m], (first_living(creeps, members[m])->0).pos),
        ) + split.1,
        forall|j: int| 0 <= j < split.0.len() ==> (#[trigger] split.0[j]).creep != members[m],
        forall|j: int| 0 <= j < split.1.len() ==> (#[trigger] split.1[j]).creep != members[m],
    decreases members.len(),
{
    let keep = hold_of(creeps, reqs);
    let init = members.drop_last();
    let id = members[m];
    if m == members.len() - 1 {
        let before = filter_map(init, keep);
        assert forall|j: int| 0 <= j < before.len() implies (#[trigger] before[j]).creep != id by {
            assert(before.contains(before[j]));
            lemma_filter_map_contains(init, keep, before[j]);
            let n = choose|n: int|
                0 <= n < init.len() && #[trigger] keep(init[n]) == Some(before[j]);
            assert(members[n] == init[n]);
        }
        let after = Seq::<MoveRequestView>::empty();
        assert(filter_map(members, keep) =~= before.push(
            MoveRequestView::hold(id, (first_living(creeps, id)->0).pos),
        ) + after);
        (before, after)
    } else {
        assert forall|j: int| 0 <= j < init.len() && j != m implies #[trigger] init[j]
            != init[m] by {
            assert(members[j] != members[m]);
        }
        let (before, rest) = lemma_hold_split(creeps, init, reqs, m);
        let last = members.last();
        assert(members[members.len() - 1] != members[m]);
        match keep(last) {
            Some(hold) => {
                let after = rest.push(hold);
                assert(filter_map(members, keep) =~= before.push(
                    MoveRequestView::hold(id, (first_living(creeps, id)->0).pos),
                ) + after);
                (before, after)
            },
            None => (before, rest),
        }
    }
}

/// Whether the creep of request `i` is next to `target`, stands at `pos`, and wants exactly that
/// tile, which some request claims for good.
pub open spec fn barred(
    reqs: Seq<MoveRequestView>,
    creeps: Seq<SimCreep>,
    i: int,
    target: Position,
    pos: Position,
) -> bool {
    &&& 0 <= i < reqs.len()
    &&& reqs[i].priority != MovementPriority::Immovable
    &&& reqs[i].goal == MoveGoalView::To { target, range: 0 }
    &&& exists|h: int|
        {
            &&& 0 <= h < reqs.len()
            &&& (#[trigger] reqs[h]).priority == MovementPriority::Immovable
            &&& reqs[h].goal matches MoveGoalView::To { target: tile, range: _ }
            &&& tile == target
        }
    &&& exists|k: int| #[trigger] lives_first(creeps, reqs[i].creep, k) && creeps[k].pos == pos
    &&& range(pos, target) <= 1
}

/// A creep with one request that is barred from its tile has its count raised by one, or set to one
/// where it was barred from another tile or none before; from a count of three on its request
/// becomes a plain claim on where it stands. A creep with one request that is not barred keeps it,
/// and has no count.
pub proof fn law_barred_creeps_stand_from_the_third_tick(
    reqs: Seq<MoveRequestView>,
    creeps: Seq<SimCreep>,
    streaks: Map<CreepId, (Position, int)>,
    i: int,
)
    requires
        0 <= i < reqs.len(),
        forall|j: int|
            0 <= j < reqs.len() && j != i ==> (#[trigger] reqs[j]).creep != reqs[i].creep,
    ensures
        ({
            let damped = damp(reqs, creeps, streaks, reqs.len() as int);
            let creep = reqs[i].creep;
            &&& damped.reqs.len() == reqs.len()
            &&& forall|target: Position, pos: Position| #[trigger]
                barred(reqs, creeps, i, target, pos) ==> {
                    let count = if streaks.dom().contains(creep) && streaks[creep].0 == target {
                        streaks[creep].1 + 1
                    } else {
                        1
                    };
                    &&& damped.doomed.dom().contains(creep)
                    &&& damped.doomed[creep] == (target, count)
                    &&& count >= 3 ==> claims(damped.reqs[i], creep, pos)
                    &&& count < 3 ==> damped.reqs[i] == reqs[i]
                }
            &&& (forall|target: Position, pos: Position| !(#[trigger] barred(
                reqs,
                creeps,
                i,
                target,
                pos,
            ))) ==> {
                &&& damped.reqs[i] == reqs[i]
                &&& !damped.doomed.dom().contains(creep)
            }
        }),
{
    let n = reqs.len() as int;
    let creep = reqs[i].creep;
    law_first_living_creep_is_found(creeps, creep);
    law_damper_only_holds_doomed_goals(reqs, creeps, streaks, n);
    law_streaks_reset(reqs, creeps, streaks, n, creep);
    assert forall|target: Position, pos: Position| #[trigger]
        barred(reqs, creeps, i, target, pos) implies doom(reqs[i], reqs, creeps) == Some(
        (target, pos),
    ) by {
        assert(is_held(reqs, target));
    }
    if doom(reqs[i], reqs, creeps) is Some {
        let (target, pos) = doom(reqs[i], reqs, creeps)->0;
        assert(is_held(reqs, target));
        let k = choose|k: int| #[trigger] lives_first(creeps, creep, k);
        assert(creeps[k].pos == pos);
        assert(barred(reqs, creeps, i, target, pos));
        assert(sole_doomed(reqs, creeps, i));
        law_streak_counts(reqs, creeps, streaks, i);
    }
}

/// The contents of a list of requests are those of each request in its place, field by field.
pub proof fn law_contents_are_the_requests_own(reqs: Seq<MoveRequest>, i: int)
    requires
        0 <= i < reqs.len(),
    ensures
        request_views(reqs).len() == reqs.len(),
        ({
            let view = request_views(reqs)[i];
            &&& view.creep == reqs[i].creep
            &&& view.priority == reqs[i].priority
            &&& view.priority_value == reqs[i].priority_value
            &&& view.shove == reqs[i].shove
            &&& view.anchor == reqs[i].anchor
            &&& view.engaged == reqs[i].engaged
            &&& match reqs[i].goal {
                MoveGoal::To { target, range } => view.goal == MoveGoalView::To { target, range },
                MoveGoal::Flee { from, range } => {
                    &&& view.goal matches MoveGoalView::Flee { from: tiles, range: by }
                    &&& tiles == from@
                    &&& by == range
                },
            }
        }),
{
}

/// A plain request has the mover's defaults, and a streak is kept with its tile and its count.
pub proof fn law_plain_requests_and_streaks_are_kept(
    creep: CreepId,
    goal: MoveGoalView,
    streaks: Map<CreepId, (Position, u16)>,
)
    ensures
        ({
            let req = MoveRequestView::plain(creep, goal);
            &&& req.creep == creep
            &&& req.goal == goal
            &&& req.priority == MovementPriority::Standard
            &&& req.priority_value is None
            &&& req.shove is None
            &&& req.anchor is None
            &&& !req.engaged
        }),
        streak_view(streaks).dom().contains(creep) == streaks.dom().contains(creep),
        streaks.dom().contains(creep) ==> streak_view(streaks)[creep] == (
            streaks[creep].0,
            streaks[creep].1 as int,
        ),
{
}

} // verus!
