//! The in-memory state the scheduler works on: one ledger and one task
//! mapping per region, plus the small persistent memory.  All of it lives
//! only for the process lifetime; nothing here is ever written out.

use vstd::prelude::*;

use crate::inventory::{ReservationId, RoomInventory};
use crate::tasks::RoomTasks;
use crate::world::RoomName;

verus! {

/// The persistent memory: only the colony id counter so far.
#[derive(Debug, Clone, Copy, PartialEq, Eq, Structural)]
pub struct Memory {
    pub next_colony_id: u32,
}

impl Default for Memory {
    fn default() -> (m: Memory)
        ensures
            m.next_colony_id == 0,
    {
        Memory { next_colony_id: 0 }
    }
}

/// The phase a haul task is in: still collecting the reserved resource, or
/// carrying it to the destination.
#[derive(Debug, Clone, Copy, PartialEq, Eq, Structural)]
pub enum HaulState {
    Gathering,
    Delivering,
}

/// The per-region state: the reservation ledger and the task mapping.
#[derive(Debug)]
pub struct RoomState {
    pub inventory: RoomInventory,
    pub tasks: RoomTasks,
}

impl RoomState {
    /// Both parts of the region's state are internally consistent.
    pub open spec fn wf(self) -> bool {
        self.inventory.wf() && self.tasks.wf()
    }

    /// A freshly created region's state: nothing tracked, nothing reserved,
    /// no tasks.
    pub open spec fn is_fresh(self) -> bool {
        &&& self.inventory.order() == Seq::<crate::inventory::Target>::empty()
        &&& forall|id: ReservationId| !(#[trigger] self.inventory.has_res(id))
        &&& forall|a: u128| !(#[trigger] self.tasks.has_task(a))
    }
}

impl Default for RoomState {
    /// A fresh region: empty ledger, no tasks.
    fn default() -> (s: RoomState)
        ensures
            s.wf(),
            s.is_fresh(),
    {
        RoomState { inventory: RoomInventory::default(), tasks: RoomTasks::default() }
    }
}

/// The whole process state: one `RoomState` per region the agent population
/// touches, and the memory.
#[derive(Debug)]
pub struct GlobalState {
    pub room_state: Vec<(RoomName, RoomState)>,
    pub memory: Memory,
}

impl GlobalState {
    /// The regions with state, in insertion order.
    pub open spec fn room_names(self) -> Seq<RoomName> {
        self.room_state@.map_values(|p: (RoomName, RoomState)| p.0)
    }

    /// Whether region `name` has state.
    pub open spec fn has_room(self, name: RoomName) -> bool {
        self.room_names().contains(name)
    }

    /// The state of region `name`.
    pub open spec fn room_of(self, name: RoomName) -> RoomState
        recommends
            self.has_room(name),
    {
        self.room_state@[self.room_names().index_of(name)].1
    }

    /// Each region appears once and every region's state is consistent.
    pub open spec fn wf(self) -> bool {
        &&& self.room_names().no_duplicates()
        &&& forall|i: int|
            0 <= i < self.room_state@.len() ==> (#[trigger] self.room_state@[i]).1.wf()
    }

    /// Every reservation id in every region's ledger lies below `bound`;
    /// the single process-wide id counter is threaded as the bound.
    pub open spec fn ids_below(self, bound: u32) -> bool {
        forall|i: int|
            0 <= i < self.room_state@.len() ==> (
            #[trigger] self.room_state@[i]).1.inventory.ids_below(bound)
    }

    pub fn new() -> (s: GlobalState)
        ensures
            s.wf(),
            s.room_names() == Seq::<RoomName>::empty(),
            forall|n: RoomName| !(#[trigger] s.has_room(n)),
            forall|bound: u32| #[trigger] s.ids_below(bound),
            s.memory == (Memory { next_colony_id: 0 }),
    {
        let s = GlobalState { room_state: Vec::new(), memory: Memory { next_colony_id: 0 } };
        proof {
            assert(s.room_names() =~= Seq::<RoomName>::empty());
        }
        s
    }

    /// Whether region `name` has state.
    pub fn contains_room(&self, name: RoomName) -> (r: bool)
        ensures
            r == self.has_room(name),
    {
        match self.find_room_index(name) {
            Some(i) => {
                proof {
                    assert(self.room_names()[i as int] == self.room_state@[i as int].0);
                }
                true
            },
            None => false,
        }
    }

    /// Creates empty state for region `name` if none exists yet, as the
    /// driver does for each region the agent population touches.
    pub fn ensure_room(&mut self, name: RoomName)
        requires
            old(self).wf(),
        ensures
            final(self).wf(),
            final(self).has_room(name),
            old(self).has_room(name) ==> *final(self) == *old(self),
            !old(self).has_room(name) ==> final(self).room_of(name).is_fresh()
                && forall|n2: RoomName|
                n2 != name ==> #[trigger] final(self).has_room(n2) == old(self).has_room(n2)
                    && (old(self).has_room(n2) ==> final(self).room_of(n2) == old(self).room_of(
                    n2,
                )),
            final(self).memory == old(self).memory,
            forall|bound: u32|
                #[trigger] old(self).ids_below(bound) ==> final(self).ids_below(bound),
    {
        let ghost pre = *self;
        if self.contains_room(name) {
            return ;
        }
        self.room_state.push((name, RoomState::default()));
        proof {
            let n = pre.room_state@.len() as int;
            assert(self.room_names() =~= pre.room_names().push(name));
            assert forall|i: int, j: int| 0 <= i < j < self.room_names().len() implies self
                .room_names()[i] != self.room_names()[j] by {
                if j < n {
                    assert(pre.room_names()[i] == self.room_names()[i]);
                    assert(pre.room_names()[j] == self.room_names()[j]);
                } else {
                    assert(self.room_names()[i] == pre.room_names()[i]);
                    assert(pre.room_names().contains(pre.room_names()[i]));
                }
            }
            assert(self.room_names()[n] == name);
            assert(self.has_room(name));
            lemma_room_index(*self, n, name);
            assert forall|n2: RoomName| n2 != name && pre.has_room(n2) implies #[trigger] self
                .room_of(n2) == pre.room_of(n2) by {
                let j = choose|j: int|
                    0 <= j < pre.room_names().len() && pre.room_names()[j] == n2;
                lemma_room_index(pre, j, n2);
                lemma_room_index(*self, j, n2);
            }
            assert forall|n2: RoomName| n2 != name implies #[trigger] self.has_room(n2) == pre
                .has_room(n2) by {
                if self.has_room(n2) {
                    let j = choose|j: int|
                        0 <= j < self.room_names().len() && self.room_names()[j] == n2;
                    assert(j != n);
                    assert(pre.room_names()[j] == n2);
                }
                if pre.has_room(n2) {
                    let j = choose|j: int|
                        0 <= j < pre.room_names().len() && pre.room_names()[j] == n2;
                    assert(self.room_names()[j] == n2);
                }
            }
            assert forall|bound: u32| #[trigger] pre.ids_below(bound) implies self.ids_below(
                bound,
            ) by {
                assert forall|i: int| 0 <= i < self.room_state@.len() implies (
                #[trigger] self.room_state@[i]).1.inventory.ids_below(bound) by {
                    if i < n {
                        assert(self.room_state@[i] == pre.room_state@[i]);
                    } else {
                        assert(self.room_state@[i].1.inventory.ids_below(bound));
                    }
                }
            }
        }
    }

    /// A mutable handle on the region state stored at position `i`.
    pub(crate) fn room_mut(&mut self, i: usize) -> (room: &mut RoomState)
        requires
            i < old(self).room_state@.len(),
        ensures
            *room == old(self).room_state@[i as int].1,
            final(self).room_state@ == old(self).room_state@.update(
                i as int,
                (old(self).room_state@[i as int].0, *final(room)),
            ),
            final(self).memory == old(self).memory,
    {
        &mut self.room_state[i].1
    }

    /// The index of region `name`'s entry, if it has one.
    pub(crate) fn find_room_index(&self, name: RoomName) -> (r: Option<usize>)
        ensures
            match r {
                Some(i) => i < self.room_state@.len() && self.room_state@[i as int].0 == name,
                None => !self.has_room(name),
            },
    {
        let mut i: usize = 0;
        while i < self.room_state.len()
            invariant
                0 <= i <= self.room_state.len(),
                forall|j: int| 0 <= j < i ==> (#[trigger] self.room_state@[j]).0 != name,
            decreases self.room_state.len() - i,
        {
            if self.room_state[i].0 == name {
                return Some(i);
            }
            i = i + 1;
        }
        assert forall|j: int| 0 <= j < self.room_names().len() implies self.room_names()[j]
            != name by {
            assert(self.room_names()[j] == self.room_state@[j].0);
        }
        None
    }
}

/// Replacing the state of the region at position `i` leaves every other
/// region's state, and the set of regions, untouched.
pub proof fn lemma_room_update(pre: GlobalState, post: GlobalState, i: int, name: RoomName)
    requires
        pre.room_names().no_duplicates(),
        0 <= i < pre.room_state@.len(),
        pre.room_state@[i].0 == name,
        post.room_state@ == pre.room_state@.update(i, (name, post.room_state@[i].1)),
    ensures
        post.room_names() == pre.room_names(),
        forall|n: RoomName| #[trigger] post.has_room(n) == pre.has_room(n),
        post.has_room(name),
        post.room_of(name) == post.room_state@[i].1,
        forall|n: RoomName|
            n != name && pre.has_room(n) ==> #[trigger] post.room_of(n) == pre.room_of(n),
        forall|j: int|
            0 <= j < post.room_state@.len() && j != i ==> #[trigger] post.room_state@[j]
                == pre.room_state@[j],
{
    assert(post.room_names() =~= pre.room_names());
    lemma_room_index(post, i, name);
    assert forall|n: RoomName| n != name && pre.has_room(n) implies #[trigger] post.room_of(n)
        == pre.room_of(n) by {
        let j = choose|j: int| 0 <= j < pre.room_names().len() && pre.room_names()[j] == n;
        assert(j != i);
        lemma_room_index(pre, j, n);
        lemma_room_index(post, j, n);
        assert(post.room_state@[j] == pre.room_state@[j]);
    }
}

/// In a well-formed global state, the entry at a position holding region
/// `name` is the one `room_of` reads.
pub proof fn lemma_room_index(s: GlobalState, i: int, name: RoomName)
    requires
        s.room_names().no_duplicates(),
        0 <= i < s.room_state@.len(),
        s.room_state@[i].0 == name,
    ensures
        s.has_room(name),
        s.room_names().index_of(name) == i,
        s.room_of(name) == s.room_state@[i].1,
{
    assert(s.room_names()[i] == name);
    assert(s.room_names().contains(name));
    let j = s.room_names().index_of(name);
    assert(0 <= j < s.room_names().len() && s.room_names()[j] == name);
}

} // verus!
