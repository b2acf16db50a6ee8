//! Plain-value snapshots of the world state that the core reads each tick.
//!
//! The surrounding driver observes the live world (dropped resource piles,
//! storage structures, agents) once per tick and hands the core these
//! snapshots; the core never queries the world itself.

use vstd::prelude::*;

verus! {

/// The kind of resource a target holds or a structure stores.
///
/// Only the kinds the storage rules distinguish are represented; every
/// remaining kind is folded into `Other`.
#[derive(Debug, Clone, Copy, PartialEq, Eq, Hash, Structural)]
pub enum ResourceKind {
    Energy,
    Power,
    Ghodium,
    Other,
}

/// The subtype of a storage-capable structure, as far as the storage rules
/// and the haul priority order distinguish them.
#[derive(Debug, Clone, Copy, PartialEq, Eq, Hash, Structural)]
pub enum StructureKind {
    Spawn,
    Extension,
    Tower,
    Storage,
    Container,
    Factory,
    Lab,
    Link,
    Nuker,
    PowerSpawn,
    Terminal,
    Other,
}

/// A quantity for each resource kind.
#[derive(Debug, Clone, Copy, PartialEq, Eq, Structural)]
pub struct Amounts {
    pub energy: u32,
    pub power: u32,
    pub ghodium: u32,
    pub other: u32,
}

impl Amounts {
    pub open spec fn spec_get(self, kind: ResourceKind) -> u32 {
        match kind {
            ResourceKind::Energy => self.energy,
            ResourceKind::Power => self.power,
            ResourceKind::Ghodium => self.ghodium,
            ResourceKind::Other => self.other,
        }
    }

    pub fn get(&self, kind: ResourceKind) -> (r: u32)
        ensures
            r == self.spec_get(kind),
    {
        match kind {
            ResourceKind::Energy => self.energy,
            ResourceKind::Power => self.power,
            ResourceKind::Ghodium => self.ghodium,
            ResourceKind::Other => self.other,
        }
    }
}

/// One dropped resource pile observed this tick: its stable world object
/// identifier, the kind it holds, and how much of it lies there.
#[derive(Debug, Clone, Copy, PartialEq, Eq, Structural)]
pub struct PileView {
    pub id: u128,
    pub kind: ResourceKind,
    pub amount: u32,
}

/// One storage structure observed this tick, with its used capacity per kind.
#[derive(Debug, Clone, Copy, PartialEq, Eq, Structural)]
pub struct StoreView {
    pub id: u128,
    pub used: Amounts,
}

/// Everything the ledger reads of the world this tick.
#[derive(Debug)]
pub struct WorldView {
    pub piles: Vec<PileView>,
    pub stores: Vec<StoreView>,
}

/// The first pile in `piles` carrying the identifier `id`, if any.
pub open spec fn spec_find_pile(piles: Seq<PileView>, id: u128) -> Option<PileView>
    decreases piles.len(),
{
    if piles.len() == 0 {
        None
    } else if piles[0].id == id {
        Some(piles[0])
    } else {
        spec_find_pile(piles.skip(1), id)
    }
}

/// The first store in `stores` carrying the identifier `id`, if any.
pub open spec fn spec_find_store(stores: Seq<StoreView>, id: u128) -> Option<StoreView>
    decreases stores.len(),
{
    if stores.len() == 0 {
        None
    } else if stores[0].id == id {
        Some(stores[0])
    } else {
        spec_find_store(stores.skip(1), id)
    }
}

impl WorldView {
    pub open spec fn spec_pile(self, id: u128) -> Option<PileView> {
        spec_find_pile(self.piles@, id)
    }

    pub open spec fn spec_store(self, id: u128) -> Option<StoreView> {
        spec_find_store(self.stores@, id)
    }

    /// Looks the pile with identifier `id` up in this tick's observations.
    pub fn find_pile(&self, id: u128) -> (r: Option<PileView>)
        ensures
            r == self.spec_pile(id),
    {
        let mut i: usize = 0;
        assert(self.piles@.skip(0) =~= self.piles@);
        while i < self.piles.len()
            invariant
                0 <= i <= self.piles.len(),
                spec_find_pile(self.piles@, id) == spec_find_pile(self.piles@.skip(i as int), id),
            decreases self.piles.len() - i,
        {
            if self.piles[i].id == id {
                assert(self.piles@.skip(i as int)[0] == self.piles@[i as int]);
                return Some(self.piles[i]);
            }
            assert(self.piles@.skip(i as int).skip(1) =~= self.piles@.skip(i + 1));
            i = i + 1;
        }
        assert(self.piles@.skip(i as int).len() == 0);
        None
    }

    /// Looks the store with identifier `id` up in this tick's observations.
    pub fn find_store(&self, id: u128) -> (r: Option<StoreView>)
        ensures
            r == self.spec_store(id),
    {
        let mut i: usize = 0;
        assert(self.stores@.skip(0) =~= self.stores@);
        while i < self.stores.len()
            invariant
                0 <= i <= self.stores.len(),
                spec_find_store(self.stores@, id) == spec_find_store(
                    self.stores@.skip(i as int),
                    id,
                ),
            decreases self.stores.len() - i,
        {
            if self.stores[i].id == id {
                assert(self.stores@.skip(i as int)[0] == self.stores@[i as int]);
                return Some(self.stores[i]);
            }
            assert(self.stores@.skip(i as int).skip(1) =~= self.stores@.skip(i + 1));
            i = i + 1;
        }
        assert(self.stores@.skip(i as int).len() == 0);
        None
    }
}

/// A region of the world, by its stable name code.
#[derive(Debug, Clone, Copy, PartialEq, Eq, Hash, Structural)]
pub struct RoomName(pub u32);

/// One storage-capable structure observed this tick, with its free capacity
/// per resource kind.
#[derive(Debug, Clone, Copy, PartialEq, Eq, Structural)]
pub struct StructureView {
    pub id: u128,
    pub kind: StructureKind,
    pub free: Amounts,
}

/// One agent as observed this tick: its identifier, the region it stands
/// in, whether it is still materializing, and its equipped parts.
#[derive(Debug)]
pub struct AgentView {
    pub id: u128,
    pub room: RoomName,
    pub spawning: bool,
    pub parts: Vec<PartKind>,
}

/// Everything the scheduler reads of one region this tick: the harvestable
/// sources, the region's own storage-capable structures, and the target
/// observations the ledger works from.
#[derive(Debug)]
pub struct RoomSnapshot {
    pub sources: Vec<u128>,
    pub structures: Vec<StructureView>,
    pub world: WorldView,
}

/// What the driver observed about one task step's objective object: whether
/// it still resolves in the world, whether the agent stands adjacent to it,
/// and whether it can receive a transfer.  `transferable` is read only when
/// a task is about to deliver; for other steps the driver may pass any
/// value.
#[derive(Debug, Clone, Copy, PartialEq, Eq, Structural)]
pub struct StepFacts {
    pub present: bool,
    pub adjacent: bool,
    pub transferable: bool,
}

/// The outcome of one world action (harvest, pickup or transfer), as the
/// driver reports it back: success or one of the named failure outcomes the
/// state machines pattern-match on.
#[derive(Debug, Clone, Copy, PartialEq, Eq, Structural)]
pub enum ActionOutcome {
    Success,
    NotEnough,
    Full,
    InvalidTarget,
    Other,
}

/// The functional body parts an agent may be equipped with, as far as task
/// assignment distinguishes them.
#[derive(Debug, Clone, Copy, PartialEq, Eq, Structural)]
pub enum PartKind {
    Work,
    Carry,
    Other,
}

} // verus!
