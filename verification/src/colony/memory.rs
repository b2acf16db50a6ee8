//! The durable shape of a colony, as it would be written to memory.

use vstd::prelude::*;

use crate::world::RoomName;

verus! {

/// What a colony persists: its name and the names of its regions.
#[derive(Debug)]
pub struct ColonyMemory {
    pub name: String,
    pub rooms: Vec<RoomName>,
}

} // verus!
