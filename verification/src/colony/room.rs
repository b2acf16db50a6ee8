//! Per-region bookkeeping of a colony.

use vstd::prelude::*;

use crate::world::RoomName;

verus! {

/// One region a colony manages, and what the colony uses it for.
#[derive(Debug)]
pub struct RoomInfo {
    pub name: RoomName,
    pub kind: RoomKind,
}

/// The role of a region within its colony.
#[derive(Debug, Clone, Copy, PartialEq, Eq, Structural)]
pub enum RoomKind {
    /// An owned region that is meant to be the "center" of a colony; it will
    /// have spawns and other infrastructure to support other regions in the
    /// colony.
    Owned,
    /// A remote mining region.
    Remote { reserved: bool },
}

} // verus!
