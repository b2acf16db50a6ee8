//! A "colony" is a single unit that manages a collection of one or more
//! regions.  It has complete control over those regions; other colonies
//! might send an agent through a region it does not control, but they never
//! interfere with actions.

pub mod memory;
pub mod room;

use vstd::prelude::*;

verus! {

/// A process-wide identifier for a colony.
#[derive(Debug, Clone, Copy, PartialEq, Eq, Structural)]
pub struct ColonyId(pub u32);

impl ColonyId {
    /// Returns the next colony id and advances the counter kept in memory.
    pub fn next(next_colony_id: &mut u32) -> (id: ColonyId)
        requires
            *old(next_colony_id) < u32::MAX,
        ensures
            id.0 == *old(next_colony_id),
            *final(next_colony_id) == *old(next_colony_id) + 1,
    {
        let id = *next_colony_id;
        *next_colony_id = *next_colony_id + 1;
        ColonyId(id)
    }
}

/// A colony: its name and the regions it manages.
#[derive(Debug)]
pub struct Colony {
    pub name: String,
    pub rooms: Vec<room::RoomInfo>,
}

} // verus!
