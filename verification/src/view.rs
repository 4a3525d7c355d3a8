//! One side's view of a room, as the decision kernel reads it.
use crate::geometry::Position;
use crate::world::CreepId;
use vstd::prelude::*;

verus! {

/// One of the side's own creeps.
#[derive(Clone, Copy, Debug, PartialEq, Eq, Structural)]
pub struct FriendView {
    pub creep: CreepId,
    /// The id under which the decision kernel knows the creep.
    pub id: u128,
    pub pos: Position,
    pub hits: u32,
    pub hits_max: u32,
    /// Working parts, by kind.
    pub heal_parts: u32,
    pub ranged_attack_parts: u32,
    pub attack_parts: u32,
    pub work_parts: u32,
    pub claim_parts: u32,
    /// Whether a ranged attack part works.
    pub has_ranged: bool,
}

/// A creep of another side.
#[derive(Clone, Copy, Debug, PartialEq, Eq, Structural)]
pub struct HostileView {
    pub pos: Position,
    pub hits: u32,
}

#[derive(Clone, Copy, Debug, PartialEq, Eq, Structural)]
pub enum Ownership {
    Mine,
    Hostile,
    Neutral,
}

#[derive(Clone, Copy, Debug, PartialEq, Eq, Structural)]
pub struct StructureView {
    pub ownership: Ownership,
    pub pos: Position,
    pub hits: u32,
}

/// What one side sees of a room.
#[derive(Clone, Debug)]
pub struct SimView {
    pub friends: Vec<FriendView>,
    pub hostiles: Vec<HostileView>,
    pub structures: Vec<StructureView>,
}

/// Where a creep first stands among the friends, counted from `from`.
pub open spec fn friend_from(friends: Seq<FriendView>, id: CreepId, from: int) -> Option<int>
    decreases friends.len() - from,
{
    if from < 0 || from >= friends.len() {
        None
    } else if friends[from].creep == id {
        Some(from)
    } else {
        friend_from(friends, id, from + 1)
    }
}

/// The index of a creep among the friends.
pub open spec fn friend_of(friends: Seq<FriendView>, id: CreepId) -> Option<int> {
    friend_from(friends, id, 0)
}

impl SimView {
    /// The index of a creep among the friends; `None` where this view does not show it.
    pub fn friend_index(&self, id: CreepId) -> (index: Option<usize>)
        ensures
            index matches Some(i) ==> {
                &&& friend_of(self.friends@, id) == Some(i as int)
                &&& i < self.friends@.len()
            },
            index is None ==> friend_of(self.friends@, id) is None,
    {
        let mut i: usize = 0;
        while i < self.friends.len()
            invariant
                i <= self.friends@.len(),
                friend_of(self.friends@, id) == friend_from(self.friends@, id, i as int),
            decreases self.friends@.len() - i,
        {
            if self.friends[i].creep == id {
                return Some(i);
            }
            i = i + 1;
        }
        None
    }
}

/// Whether friend `k` is that creep, and the first that is.
pub open spec fn shown_first(friends: Seq<FriendView>, id: CreepId, k: int) -> bool {
    &&& 0 <= k < friends.len()
    &&& friends[k].creep == id
    &&& forall|j: int| 0 <= j < k ==> (#[trigger] friends[j]).creep != id
}

/// Whether some friend is that creep.
pub open spec fn shown(friends: Seq<FriendView>) -> spec_fn(CreepId) -> bool {
    |id: CreepId| exists|k: int| shown_first(friends, id, k)
}

/// A creep is found where it first stands among the friends, and only there; where none of them is
/// that creep it is not found.
pub proof fn law_first_friend_is_found(friends: Seq<FriendView>, id: CreepId)
    ensures
        forall|k: int| #[trigger]
            shown_first(friends, id, k) ==> friend_of(friends, id) == Some(k),
        friend_of(friends, id) matches Some(k) ==> shown_first(friends, id, k),
        friend_of(friends, id) is None <==> forall|j: int|
            0 <= j < friends.len() ==> (#[trigger] friends[j]).creep != id,
{
    lemma_friend_from(friends, id, 0);
}

proof fn lemma_friend_from(friends: Seq<FriendView>, id: CreepId, from: int)
    requires
        0 <= from <= friends.len(),
        forall|j: int| 0 <= j < from ==> (#[trigger] friends[j]).creep != id,
    ensures
        forall|k: int| #[trigger]
            shown_first(friends, id, k) ==> friend_from(friends, id, from) == Some(k),
        friend_from(friends, id, from) matches Some(k) ==> shown_first(friends, id, k),
        friend_from(friends, id, from) is None <==> forall|j: int|
            0 <= j < friends.len() ==> (#[trigger] friends[j]).creep != id,
    decreases friends.len() - from,
{
    if from < friends.len() {
        if friends[from].creep == id {
            assert(shown_first(friends, id, from));
        } else {
            lemma_friend_from(friends, id, from + 1);
        }
    }
}

} // verus!
