//! The hidden trait of world objects: which players have spotted an object.
//! Detection is per player; one player spotting it never affects another.

use std::collections::HashSet;

use vstd::prelude::*;

verus! {

/// Fallback Chebyshev range of perception when an object's definition
/// gives no inspect range.
pub const DEFAULT_INSPECT_RANGE: i32 = 3;

/// Identity of a player.
#[derive(Clone, Copy, Debug, PartialEq, Eq, Hash, Structural)]
pub struct PlayerId(pub u64);

/// A hidden object: the difficulty of spotting it and the players that
/// have.
pub struct Hidden {
    pub dc: u32,
    pub detected_by: HashSet<u64>,
}

impl Hidden {
    /// The players that have spotted the object, by id.
    pub open spec fn detected(&self) -> Set<u64> {
        self.detected_by@
    }

    /// Hidden from everyone.
    pub fn new(dc: u32) -> (h: Self)
        ensures
            h.dc == dc,
            h.detected() == Set::<u64>::empty(),
    {
        Hidden { dc, detected_by: HashSet::new() }
    }

    /// Whether `player_id` has spotted the object.
    pub fn is_detected_by(&self, player_id: PlayerId) -> (b: bool)
        ensures
            b == self.detected().contains(player_id.0),
    {
        broadcast use vstd::std_specs::hash::group_hash_axioms;
        self.detected_by.contains(&player_id.0)
    }

    /// Reveals the object to `player_id`; returns whether this call changed
    /// anything, that is whether the player had not spotted it before.
    pub fn reveal_to(&mut self, player_id: PlayerId) -> (changed: bool)
        ensures
            final(self).detected() == old(self).detected().insert(player_id.0),
            changed == !old(self).detected().contains(player_id.0),
            final(self).dc == old(self).dc,
    {
        broadcast use vstd::std_specs::hash::group_hash_axioms;
        self.detected_by.insert(player_id.0)
    }
}

/// Revealing is idempotent and per player: a second reveal to the same
/// player changes nothing, and revealing to one player leaves whether any
/// other player has spotted the object as it was.
pub proof fn lemma_reveal_idempotent_and_isolated(before: Set<u64>, p: u64, q: u64)
    ensures
        before.insert(p).insert(p) == before.insert(p),
        before.insert(p).contains(p),
        q != p ==> (before.insert(p).contains(q) == before.contains(q)),
{
    assert(before.insert(p).insert(p) =~= before.insert(p));
}

} // verus!
