//! The combat world as a plain snapshot, and the intents that a side hands back for a tick.
use crate::geometry::{Direction, Position};
use std::collections::HashMap;
use vstd::prelude::*;

verus! {

broadcast use vstd::std_specs::hash::group_hash_axioms;

pub type CreepId = u32;

pub type PlayerId = u32;

pub type StructureId = u32;

/// What a creep's body can still take and deal.
#[derive(Clone, Copy, Debug, PartialEq, Eq, Structural)]
pub struct SimBody {
    pub hits: u32,
    pub hits_max: u32,
    /// Melee damage per tick.
    pub attack_power: u32,
    /// Ranged damage per tick.
    pub ranged_attack_power: u32,
}

#[derive(Clone, Copy, Debug, PartialEq, Eq, Structural)]
pub struct SimCreep {
    pub id: CreepId,
    pub owner: PlayerId,
    pub pos: Position,
    pub body: SimBody,
    pub alive: bool,
}

#[derive(Clone, Copy, Debug, PartialEq, Eq, Structural)]
pub enum StructureKind {
    Spawn,
    Rampart,
    Wall,
    Other,
}

#[derive(Clone, Copy, Debug, PartialEq, Eq, Structural)]
pub struct SimStructure {
    pub id: StructureId,
    pub kind: StructureKind,
    pub owner: Option<PlayerId>,
    pub pos: Position,
    pub hits: u32,
    pub hits_max: u32,
    pub alive: bool,
}

#[derive(Clone, Copy, Debug, PartialEq, Eq, Structural)]
pub struct SimTower {
    pub id: StructureId,
    pub owner: PlayerId,
    pub pos: Position,
    pub hits: u32,
    pub alive: bool,
}

/// A room's terrain: the tiles that are walls, and those that are swamp.
#[derive(Clone, Debug)]
pub struct Terrain {
    pub walls: Vec<(u8, u8)>,
    pub swamps: Vec<(u8, u8)>,
}

/// One tick's picture of the fight, over all rooms.
#[derive(Clone, Debug)]
pub struct CombatWorld {
    pub creeps: Vec<SimCreep>,
    pub structures: Vec<SimStructure>,
    pub towers: Vec<SimTower>,
    /// The player whose safe mode is running, if any.
    pub safe_mode_owner: Option<PlayerId>,
}

#[derive(Clone, Copy, Debug, PartialEq, Eq, Structural)]
pub enum CombatAction {
    Attack(CreepId),
    RangedAttack(CreepId),
    RangedMassAttack,
    Dismantle(StructureId),
    Heal(CreepId),
    RangedHeal(CreepId),
    /// An action of the engine that this library carries without reading it, under a number of
    /// the caller's.
    Other(u32),
}

#[derive(Clone, Copy, Debug, PartialEq, Eq, Structural)]
pub enum TowerAction {
    Attack(CreepId),
    Heal(CreepId),
    Repair(StructureId),
}

/// The first living creep of that id.
pub open spec fn first_living(creeps: Seq<SimCreep>, id: CreepId) -> Option<SimCreep>
    decreases creeps.len(),
{
    if creeps.len() == 0 {
        None
    } else if creeps[0].id == id && creeps[0].alive {
        Some(creeps[0])
    } else {
        first_living(creeps.skip(1), id)
    }
}

impl CombatWorld {
    /// The first living creep of that id.
    pub fn living_creep(&self, id: CreepId) -> (creep: Option<SimCreep>)
        ensures
            creep == first_living(self.creeps@, id),
    {
        let mut i: usize = 0;
        proof {
            assert(self.creeps@.skip(0) =~= self.creeps@);
        }
        while i < self.creeps.len()
            invariant
                i <= self.creeps@.len(),
                first_living(self.creeps@, id) == first_living(self.creeps@.skip(i as int), id),
            decreases self.creeps@.len() - i,
        {
            let c = self.creeps[i];
            if c.id == id && c.alive {
                return Some(c);
            }
            proof {
                assert(self.creeps@.skip(i as int).skip(1) =~= self.creeps@.skip(i + 1));
            }
            i = i + 1;
        }
        None
    }
}

/// What the creeps and towers of a side are told to do in a tick.
#[derive(Clone, Debug)]
pub struct Intents {
    pub creeps: HashMap<CreepId, Vec<CombatAction>>,
    pub moves: HashMap<CreepId, Direction>,
    pub towers: HashMap<StructureId, TowerAction>,
}

/// The contents of [`Intents`].
#[verifier::ext_equal]
pub struct IntentsView {
    pub creeps: Map<CreepId, Seq<CombatAction>>,
    pub moves: Map<CreepId, Direction>,
    pub towers: Map<StructureId, TowerAction>,
}

impl View for Intents {
    type V = IntentsView;

    open spec fn view(&self) -> IntentsView {
        IntentsView {
            creeps: self.creeps@.map_values(|actions: Vec<CombatAction>| actions@),
            moves: self.moves@,
            towers: self.towers@,
        }
    }
}

impl IntentsView {
    pub open spec fn empty() -> IntentsView {
        IntentsView { creeps: Map::empty(), moves: Map::empty(), towers: Map::empty() }
    }
}

impl Intents {
    /// No orders.
    pub fn new() -> (intents: Intents)
        ensures
            intents@ == IntentsView::empty(),
    {
        let intents = Intents {
            creeps: HashMap::new(),
            moves: HashMap::new(),
            towers: HashMap::new(),
        };
        proof {
            assert(intents@ =~= IntentsView::empty());
        }
        intents
    }

    /// Give a creep its combat actions, in place of any it had.
    pub fn set(&mut self, id: CreepId, actions: Vec<CombatAction>)
        ensures
            final(self)@ == (IntentsView {
                creeps: old(self)@.creeps.insert(id, actions@),
                ..old(self)@
            }),
    {
        self.creeps.insert(id, actions);
        proof {
            assert(self@.creeps =~= old(self)@.creeps.insert(id, actions@));
        }
    }

    /// Give a creep its step, in place of any it had.
    pub fn set_move(&mut self, id: CreepId, direction: Direction)
        ensures
            final(self)@ == (IntentsView {
                moves: old(self)@.moves.insert(id, direction),
                ..old(self)@
            }),
    {
        self.moves.insert(id, direction);
    }

    /// Give a tower its action, in place of any it had.
    pub fn set_tower(&mut self, id: StructureId, action: TowerAction)
        ensures
            final(self)@ == (IntentsView {
                towers: old(self)@.towers.insert(id, action),
                ..old(self)@
            }),
    {
        self.towers.insert(id, action);
    }
}

/// `moves` with each of the mover's steps, the last one of a creep winning.
pub open spec fn with_steps(
    moves: Map<CreepId, Direction>,
    steps: Seq<(CreepId, Direction)>,
) -> Map<CreepId, Direction>
    decreases steps.len(),
{
    if steps.len() == 0 {
        moves
    } else {
        with_steps(moves, steps.drop_last()).insert(steps.last().0, steps.last().1)
    }
}

impl Intents {
    /// Give each creep the step that the mover found for it.
    pub fn set_moves(&mut self, steps: &Vec<(CreepId, Direction)>)
        ensures
            final(self)@ == (IntentsView {
                moves: with_steps(old(self)@.moves, steps@),
                ..old(self)@
            }),
    {
        let ghost start = self@;
        let mut i: usize = 0;
        while i < steps.len()
            invariant
                i <= steps@.len(),
                self@ == (IntentsView {
                    moves: with_steps(start.moves, steps@.take(i as int)),
                    ..start
                }),
            decreases steps@.len() - i,
        {
            let (id, direction) = steps[i];
            proof {
                assert(steps@.take(i + 1).drop_last() =~= steps@.take(i as int));
            }
            self.set_move(id, direction);
            i = i + 1;
        }
        proof {
            assert(steps@.take(steps@.len() as int) =~= steps@);
        }
    }
}

/// Whether creep `k` lives and is the first living one of that id.
pub open spec fn lives_first(creeps: Seq<SimCreep>, id: CreepId, k: int) -> bool {
    &&& 0 <= k < creeps.len()
    &&& creeps[k].id == id
    &&& creeps[k].alive
    &&& forall|j: int| 0 <= j < k ==> !((#[trigger] creeps[j]).id == id && creeps[j].alive)
}

/// Whether some creep of an id lives.
pub open spec fn living(creeps: Seq<SimCreep>) -> spec_fn(CreepId) -> bool {
    |id: CreepId| exists|k: int| lives_first(creeps, id, k)
}

/// Of several living creeps of an id the first is found, and none where none of it lives.
pub proof fn law_first_living_creep_is_found(creeps: Seq<SimCreep>, id: CreepId)
    ensures
        forall|k: int| #[trigger]
            lives_first(creeps, id, k) ==> first_living(creeps, id) == Some(creeps[k]),
        first_living(creeps, id) is Some <==> exists|k: int| #[trigger] lives_first(creeps, id, k),
        first_living(creeps, id) is None <==> forall|j: int|
            0 <= j < creeps.len() ==> !((#[trigger] creeps[j]).id == id && creeps[j].alive),
    decreases creeps.len(),
{
    if creeps.len() > 0 {
        let rest = creeps.skip(1);
        law_first_living_creep_is_found(rest, id);
        assert(forall|j: int| 0 <= j < rest.len() ==> #[trigger] rest[j] == creeps[j + 1]);
        let here = creeps[0].id == id && creeps[0].alive;
        if here {
            assert(lives_first(creeps, id, 0));
        }
        assert forall|k: int| #[trigger] lives_first(creeps, id, k) implies first_living(creeps, id)
            == Some(creeps[k]) by {
            if here {
                assert(k == 0);
            } else {
                assert(k > 0);
                assert forall|j: int| 0 <= j < k - 1 implies !((#[trigger] rest[j]).id == id
                    && rest[j].alive) by {
                    assert(rest[j] == creeps[j + 1]);
                }
                assert(lives_first(rest, id, k - 1));
            }
        }
        if !here && first_living(rest, id) is Some {
            let k = choose|k: int| #[trigger] lives_first(rest, id, k);
            assert forall|j: int| 0 <= j < k + 1 implies !((#[trigger] creeps[j]).id == id
                && creeps[j].alive) by {
                if j > 0 {
                    assert(rest[j - 1] == creeps[j]);
                }
            }
            assert(lives_first(creeps, id, k + 1));
        }
        if first_living(creeps, id) is None {
            assert forall|j: int| 0 <= j < creeps.len() implies !((#[trigger] creeps[j]).id == id
                && creeps[j].alive) by {
                if j > 0 {
                    assert(rest[j - 1] == creeps[j]);
                }
            }
        }
    }
}

/// Whether step `k` is the last one of that creep.
pub open spec fn steps_last(steps: Seq<(CreepId, Direction)>, id: CreepId, k: int) -> bool {
    &&& 0 <= k < steps.len()
    &&& steps[k].0 == id
    &&& forall|j: int| k < j < steps.len() ==> (#[trigger] steps[j]).0 != id
}

/// Of several steps for a creep the last counts, and a creep without one keeps what it had.
pub proof fn law_last_step_counts(
    moves: Map<CreepId, Direction>,
    steps: Seq<(CreepId, Direction)>,
    id: CreepId,
)
    ensures
        forall|k: int| #[trigger]
            steps_last(steps, id, k) ==> {
                &&& with_steps(moves, steps).dom().contains(id)
                &&& with_steps(moves, steps)[id] == steps[k].1
            },
        (forall|j: int| 0 <= j < steps.len() ==> (#[trigger] steps[j]).0 != id) ==> {
            &&& with_steps(moves, steps).dom().contains(id) == moves.dom().contains(id)
            &&& with_steps(moves, steps)[id] == moves[id]
        },
    decreases steps.len(),
{
    if steps.len() > 0 {
        let init = steps.drop_last();
        law_last_step_counts(moves, init, id);
        assert(forall|j: int| 0 <= j < init.len() ==> #[trigger] init[j] == steps[j]);
        assert(steps[steps.len() - 1] == steps.last());
        assert forall|k: int| #[trigger] steps_last(steps, id, k) implies {
            &&& with_steps(moves, steps).dom().contains(id)
            &&& with_steps(moves, steps)[id] == steps[k].1
        } by {
            if k < init.len() {
                assert(steps[steps.len() - 1].0 != id);
                assert forall|j: int| k < j < init.len() implies (#[trigger] init[j]).0 != id by {
                    assert(init[j] == steps[j]);
                }
                assert(steps_last(init, id, k));
            }
        }
    }
}

/// The contents of intents are what their maps hold, entry by entry, and those of empty intents are
/// none.
pub proof fn law_intents_hold_what_their_maps_hold(
    intents: Intents,
    creep: CreepId,
    tower: StructureId,
)
    ensures
        intents@.creeps.dom().contains(creep) == intents.creeps@.dom().contains(creep),
        intents.creeps@.dom().contains(creep) ==> intents@.creeps[creep]
            == intents.creeps@[creep]@,
        intents@.moves.dom().contains(creep) == intents.moves@.dom().contains(creep),
        intents.moves@.dom().contains(creep) ==> intents@.moves[creep] == intents.moves@[creep],
        intents@.towers.dom().contains(tower) == intents.towers@.dom().contains(tower),
        intents.towers@.dom().contains(tower) ==> intents@.towers[tower] == intents.towers@[tower],
        !IntentsView::empty().creeps.dom().contains(creep),
        !IntentsView::empty().moves.dom().contains(creep),
        !IntentsView::empty().towers.dom().contains(tower),
{
}

} // verus!
