//! The per-agent task scheduler: assigns a task to every agent lacking one
//! and drives existing tasks forward one step per tick.
//!
//! One step is split in three, so that the surrounding driver can perform
//! the world actions between them: `process_tasks` skips agents that cannot
//! act and assigns a task where none exists; `step_task` decides what the
//! task does this tick (finish, move, or attempt an action); and
//! `conclude_step` interprets the outcome of the attempted action,
//! releasing reservations and reaping finished tasks.

pub mod drop_harvest;
pub mod haul;

use vstd::prelude::*;

use crate::inventory::{ReservationId, RoomInventory};
use crate::state::{GlobalState, HaulState};
use crate::state::lemma_room_index;
use crate::world::{ActionOutcome, AgentView, PartKind, ResourceKind, RoomName, RoomSnapshot, StepFacts};

verus! {

/// An agent's current activity.
#[derive(Debug, Clone, Copy, PartialEq, Eq, Structural)]
pub enum Task {
    /// Harvest the source with this identifier, dropping the yield.
    DropHarvest(u128),
    /// Haul a reserved resource to a target store.
    ///
    /// The destination must, at assignment time, be structurally capable of
    /// storing the reserved resource kind; it may not have room for the
    /// whole reservation, which the execution logic handles when it
    /// delivers.
    Haul(HaulState, ReservationId, u128),
}

/// What one task step reported.
#[derive(Debug, Clone, Copy, PartialEq, Eq, Structural)]
pub enum TaskResult {
    /// The task was completed; remove it from the task list.
    Complete,
    /// The task is still in progress.
    InProgress,
    /// The task was not able to complete, but cannot be continued.
    Error,
}

/// A world action a task step asks the driver to perform; the driver
/// reports the outcome back through `conclude_step`.
#[derive(Debug, Clone, Copy, PartialEq, Eq, Structural)]
pub enum StepAction {
    Harvest(u128),
    Pickup(u128),
    Transfer(u128, ResourceKind),
}

/// What one task step decided: the step is over with the given result, the
/// agent should move toward the given object and the task stays in
/// progress, or the driver should attempt an action and report its outcome.
#[derive(Debug, Clone, Copy, PartialEq, Eq, Structural)]
pub enum StepPlan {
    Done(TaskResult),
    Move(u128),
    Act(StepAction),
}

/// The per-region mapping from agent identifier to its task; at most one
/// task per agent, and absence means the agent needs (re)assignment.
#[derive(Debug)]
pub struct RoomTasks {
    tasks: Vec<(u128, Task)>,
}

impl RoomTasks {
    /// The agents that currently have a task, in insertion order.
    pub closed spec fn agents(self) -> Seq<u128> {
        self.tasks@.map_values(|p: (u128, Task)| p.0)
    }

    /// Whether agent `agent` currently has a task.
    pub open spec fn has_task(self, agent: u128) -> bool {
        self.agents().contains(agent)
    }

    /// The task of agent `agent`.
    pub closed spec fn task_of(self, agent: u128) -> Task
        recommends
            self.has_task(agent),
    {
        self.tasks@[self.agents().index_of(agent)].1
    }

    /// Each agent has at most one task.
    pub closed spec fn wf(self) -> bool {
        self.agents().no_duplicates()
    }

    /// An empty mapping: every agent needs assignment.
    pub fn new() -> (t: RoomTasks)
        ensures
            t.wf(),
            forall|a: u128| !(#[trigger] t.has_task(a)),
    {
        let t = RoomTasks { tasks: Vec::new() };
        proof {
            assert(t.agents() =~= Seq::<u128>::empty());
        }
        t
    }

    /// Every agent but `agent` keeps exactly the task assignment it had.
    pub open spec fn otherwise_unchanged(pre: RoomTasks, post: RoomTasks, agent: u128) -> bool {
        forall|a2: u128|
            a2 != agent ==> #[trigger] post.has_task(a2) == pre.has_task(a2) && (pre.has_task(a2)
                ==> post.task_of(a2) == pre.task_of(a2))
    }

    /// Returns agent `agent`'s current task, if it has one.
    pub fn get(&self, agent: u128) -> (r: Option<&Task>)
        requires
            self.wf(),
        ensures
            r is Some <==> self.has_task(agent),
            r matches Some(task) ==> *task == self.task_of(agent),
    {
        match self.find_index(agent) {
            None => None,
            Some(i) => {
                proof {
                    assert(self.agents()[i as int] == self.tasks@[i as int].0);
                    lemma_task_index(*self, i as int, agent);
                }
                Some(&self.tasks[i].1)
            },
        }
    }

    /// The index of agent `agent`'s entry, if it has one.
    fn find_index(&self, agent: u128) -> (r: Option<usize>)
        ensures
            match r {
                Some(i) => i < self.tasks@.len() && self.tasks@[i as int].0 == agent,
                None => !self.has_task(agent),
            },
    {
        let mut i: usize = 0;
        while i < self.tasks.len()
            invariant
                0 <= i <= self.tasks.len(),
                forall|j: int| 0 <= j < i ==> (#[trigger] self.tasks@[j]).0 != agent,
            decreases self.tasks.len() - i,
        {
            if self.tasks[i].0 == agent {
                return Some(i);
            }
            i = i + 1;
        }
        assert forall|j: int| 0 <= j < self.agents().len() implies self.agents()[j] != agent by {
            assert(self.agents()[j] == self.tasks@[j].0);
        }
        None
    }

    /// Gives agent `agent` the task `task`; the agent must not have one.
    fn insert(&mut self, agent: u128, task: Task)
        requires
            old(self).wf(),
            !old(self).has_task(agent),
        ensures
            final(self).wf(),
            final(self).has_task(agent),
            final(self).task_of(agent) == task,
            Self::otherwise_unchanged(*old(self), *final(self), agent),
    {
        let ghost pre = *self;
        self.tasks.push((agent, task));
        proof {
            let n = pre.tasks@.len() as int;
            assert(self.agents() =~= pre.agents().push(agent));
            assert forall|i: int, j: int| 0 <= i < j < self.agents().len() implies self.agents()[i]
                != self.agents()[j] by {
                if j < n {
                    assert(pre.agents()[i] == self.agents()[i]);
                    assert(pre.agents()[j] == self.agents()[j]);
                } else {
                    assert(self.agents()[i] == pre.agents()[i]);
                    assert(pre.agents().contains(pre.agents()[i]));
                }
            }
            assert(self.agents()[n] == agent);
            lemma_task_index(*self, n, agent);
            assert forall|a2: u128| a2 != agent implies #[trigger] self.has_task(a2) == pre
                .has_task(a2) && (pre.has_task(a2) ==> self.task_of(a2) == pre.task_of(a2)) by {
                if self.has_task(a2) {
                    let j = choose|j: int|
                        0 <= j < self.agents().len() && self.agents()[j] == a2;
                    assert(j != n);
                    assert(pre.agents()[j] == a2);
                }
                if pre.has_task(a2) {
                    let j = choose|j: int|
                        0 <= j < pre.agents().len() && pre.agents()[j] == a2;
                    assert(self.agents()[j] == a2);
                    lemma_task_index(pre, j, a2);
                    lemma_task_index(*self, j, a2);
                }
            }
        }
    }

    /// Replaces agent `agent`'s task; the agent must have one.
    fn set_task(&mut self, agent: u128, task: Task)
        requires
            old(self).wf(),
            old(self).has_task(agent),
        ensures
            final(self).wf(),
            final(self).has_task(agent),
            final(self).task_of(agent) == task,
            Self::otherwise_unchanged(*old(self), *final(self), agent),
    {
        let ghost pre = *self;
        let i = match self.find_index(agent) {
            Some(i) => i,
            None => {
                proof {
                    assert(false);
                }
                0
            },
        };
        self.tasks.set(i, (agent, task));
        proof {
            assert(self.agents() =~= pre.agents());
            assert(pre.agents()[i as int] == agent);
            lemma_task_index(pre, i as int, agent);
            lemma_task_index(*self, i as int, agent);
            assert forall|a2: u128| a2 != agent && pre.has_task(a2) implies #[trigger] self
                .task_of(a2) == pre.task_of(a2) by {
                let j = choose|j: int| 0 <= j < pre.agents().len() && pre.agents()[j] == a2;
                assert(j != i as int);
                lemma_task_index(pre, j, a2);
                lemma_task_index(*self, j, a2);
            }
        }
    }

    /// Removes agent `agent`'s task; the agent must have one.
    fn remove(&mut self, agent: u128)
        requires
            old(self).wf(),
            old(self).has_task(agent),
        ensures
            final(self).wf(),
            !final(self).has_task(agent),
            Self::otherwise_unchanged(*old(self), *final(self), agent),
    {
        let ghost pre = *self;
        let i = match self.find_index(agent) {
            Some(i) => i,
            None => {
                proof {
                    assert(false);
                }
                0
            },
        };
        proof {
            lemma_task_index(pre, i as int, agent);
        }
        self.tasks.remove(i);
        proof {
            let n = pre.tasks@.len() as int;
            let ki = i as int;
            pre.tasks@.remove_ensures(ki);
            pre.agents().remove_ensures(ki);
            assert forall|x: int| 0 <= x < self.agents().len() implies self.agents()[x] == pre
                .agents().remove(ki)[x] by {
                if x < ki {
                    assert(pre.tasks@.remove(ki)[x] == pre.tasks@[x]);
                    assert(pre.agents().remove(ki)[x] == pre.agents()[x]);
                } else {
                    assert(pre.tasks@.remove(ki)[x] == pre.tasks@[x + 1]);
                    assert(pre.agents().remove(ki)[x] == pre.agents()[x + 1]);
                }
            }
            assert(self.agents() =~= pre.agents().remove(ki));
            assert forall|x: int, y: int| 0 <= x < y < self.agents().len() implies self.agents()[x]
                != self.agents()[y] by {
                let x0: int = if x < ki { x } else { x + 1 };
                let y0: int = if y < ki { y } else { y + 1 };
                assert(self.agents()[x] == pre.agents()[x0]);
                assert(self.agents()[y] == pre.agents()[y0]);
            }
            if self.has_task(agent) {
                let x = choose|x: int|
                    0 <= x < self.agents().len() && self.agents()[x] == agent;
                let x0: int = if x < ki { x } else { x + 1 };
                assert(pre.agents()[x0] == agent);
                assert(x0 == ki);
                assert(false);
            }
            assert forall|a2: u128| a2 != agent implies #[trigger] self.has_task(a2) == pre
                .has_task(a2) && (pre.has_task(a2) ==> self.task_of(a2) == pre.task_of(a2)) by {
                if self.has_task(a2) {
                    let x = choose|x: int|
                        0 <= x < self.agents().len() && self.agents()[x] == a2;
                    let x0: int = if x < ki { x } else { x + 1 };
                    assert(pre.agents()[x0] == a2);
                }
                if pre.has_task(a2) {
                    let y = choose|y: int|
                        0 <= y < pre.agents().len() && pre.agents()[y] == a2;
                    assert(y != ki);
                    let x: int = if y < ki { y } else { y - 1 };
                    assert(self.agents()[x] == a2);
                    lemma_task_index(pre, y, a2);
                    lemma_task_index(*self, x, a2);
                    assert(self.tasks@[x] == pre.tasks@[y]);
                }
            }
        }
    }
}

impl Default for RoomTasks {
    /// An empty mapping, as a fresh region starts with.
    fn default() -> (t: RoomTasks)
        ensures
            t.wf(),
            forall|a: u128| !(#[trigger] t.has_task(a)),
    {
        RoomTasks::new()
    }
}

/// What one task step decides, given the task, the ledger, and what the
/// driver observed of the step's objective.
pub open spec fn spec_step_plan(task: Task, inv: RoomInventory, facts: StepFacts) -> StepPlan {
    match task {
        Task::DropHarvest(src) => drop_harvest::spec_run(src, facts),
        Task::Haul(st, rid, dest) => haul::spec_plan(st, inv, rid, dest, facts),
    }
}

/// An agent part can yield a task right now: a work part yields a harvest
/// when the region has a source, a carry part yields a haul when a delivery
/// target can be chosen and reserved.
pub open spec fn spec_part_yields(
    part: PartKind,
    snap: RoomSnapshot,
    inv: RoomInventory,
) -> bool {
    match part {
        PartKind::Work => snap.sources@.len() > 0,
        PartKind::Carry => haul::spec_findable(inv, snap.world, snap.structures@),
        PartKind::Other => false,
    }
}

/// Some equipped part of the agent can yield a task right now.
pub open spec fn spec_can_assign(parts: Seq<PartKind>, snap: RoomSnapshot, inv: RoomInventory) -> bool {
    exists|p: int| 0 <= p < parts.len() && spec_part_yields(#[trigger] parts[p], snap, inv)
}

/// Picks a task for an idle agent from its capability profile: parts are
/// inspected in order and the first capability that yields a constructible
/// task wins, so an agent with several capabilities gets one task.  Yields
/// nothing when no capability can construct a task this tick; the agent
/// then stays idle, which is expected, not an error.
fn find_best_task(
    parts: &Vec<PartKind>,
    snap: &RoomSnapshot,
    inventory: &mut RoomInventory,
    next_reservation_id: &mut u32,
) -> (r: Option<Task>)
    requires
        old(inventory).wf(),
        old(inventory).ids_below(*old(next_reservation_id)),
        *old(next_reservation_id) < u32::MAX,
    ensures
        final(inventory).wf(),
        final(inventory).ids_below(*final(next_reservation_id)),
        *old(next_reservation_id) <= *final(next_reservation_id),
        r is Some <==> spec_can_assign(parts@, *snap, *old(inventory)),
        r is None ==> *final(inventory) == *old(inventory) && *final(next_reservation_id) == *old(next_reservation_id),
        r matches Some(task) ==> exists|p: int|
            {
                &&& 0 <= p < parts@.len()
                &&& spec_part_yields(#[trigger] parts@[p], *snap, *old(inventory))
                &&& forall|q: int|
                    0 <= q < p ==> !spec_part_yields(#[trigger] parts@[q], *snap, *old(inventory))
                &&& match parts@[p] {
                    PartKind::Work => task == Task::DropHarvest(snap.sources@[0])
                        && *final(inventory) == *old(inventory)
                        && *final(next_reservation_id) == *old(next_reservation_id),
                    PartKind::Carry => task matches Task::Haul(st, rid, dest) && st
                        == HaulState::Gathering && exists|c: int, k: int|
                        {
                            &&& #[trigger] haul::is_chosen(snap.structures@, c)
                            &&& dest == snap.structures@[c].id
                            &&& 0 <= k < crate::util::spec_resource_types(
                                snap.structures@[c].kind,
                            ).len()
                            &&& RoomInventory::request_ok_rel(
                                *old(inventory),
                                snap.world,
                                #[trigger] crate::util::spec_resource_types(
                                    snap.structures@[c].kind,
                                )[k],
                                haul::HAUL_AMOUNT,
                                rid,
                                *old(next_reservation_id),
                                *final(next_reservation_id),
                                *final(inventory),
                            )
                        },
                    PartKind::Other => false,
                }
            },
{
    let ghost pre = *inventory;
    let ghost c0 = *next_reservation_id;
    let mut p: usize = 0;
    while p < parts.len()
        invariant
            pre == *old(inventory),
            c0 == *old(next_reservation_id),
            pre.wf(),
            pre.ids_below(c0),
            c0 < u32::MAX,
            *inventory == pre,
            *next_reservation_id == c0,
            0 <= p <= parts@.len(),
            forall|q: int| 0 <= q < p ==> !spec_part_yields(#[trigger] parts@[q], *snap, pre),
        decreases parts@.len() - p,
    {
        match parts[p] {
            PartKind::Work => {
                if snap.sources.len() > 0 {
                    return Some(Task::DropHarvest(snap.sources[0]));
                }
            },
            PartKind::Carry => {
                match haul::find_target(inventory, &snap.structures, &snap.world, next_reservation_id) {
                    Some((rid, dest)) => {
                        return Some(Task::Haul(HaulState::Gathering, rid, dest));
                    },
                    None => {},
                }
            },
            PartKind::Other => {},
        }
        p = p + 1;
    }
    None
}

/// One scheduler visit to one agent, run once per agent per tick: a
/// materializing agent is skipped, an agent in a region without state is
/// skipped, an idle agent is assigned a task if one of its capabilities can
/// construct one, and the agent's current task (fresh or pre-existing) is
/// returned for the driver to step.
pub fn process_tasks(
    state: &mut GlobalState,
    agent: &AgentView,
    snap: &RoomSnapshot,
    next_reservation_id: &mut u32,
) -> (r: Option<Task>)
    requires
        old(state).wf(),
        old(state).ids_below(*old(next_reservation_id)),
        *old(next_reservation_id) < u32::MAX,
    ensures
        final(state).wf(),
        final(state).ids_below(*final(next_reservation_id)),
        final(state).memory == old(state).memory,
        *old(next_reservation_id) <= *final(next_reservation_id),
        forall|n: RoomName| #[trigger] final(state).has_room(n) == old(state).has_room(n),
        forall|n: RoomName|
            n != agent.room && old(state).has_room(n) ==> #[trigger] final(state).room_of(n)
                == old(state).room_of(n),
        agent.spawning || !old(state).has_room(agent.room) ==> r is None && *final(next_reservation_id) == *old(next_reservation_id) && (old(state).has_room(agent.room) ==> final(state).room_of(agent.room) == old(state).room_of(agent.room)),
        !agent.spawning && old(state).has_room(agent.room) && old(state).room_of(agent.room).tasks.has_task(agent.id) ==> r == Some(old(state).room_of(agent.room).tasks.task_of(agent.id)) && final(state).room_of(agent.room) == old(state).room_of(agent.room) && *final(next_reservation_id) == *old(next_reservation_id),
        !agent.spawning && old(state).has_room(agent.room) && !old(state).room_of(agent.room).tasks.has_task(agent.id) ==> {
            let pre_room = old(state).room_of(agent.room);
            let post_room = final(state).room_of(agent.room);
            &&& r is Some <==> spec_can_assign(agent.parts@, *snap, pre_room.inventory)
            &&& r is None ==> post_room == pre_room && *final(next_reservation_id) == *old(next_reservation_id)
            &&& r matches Some(task) ==> {
                &&& post_room.tasks.has_task(agent.id)
                &&& post_room.tasks.task_of(agent.id) == task
                &&& RoomTasks::otherwise_unchanged(pre_room.tasks, post_room.tasks, agent.id)
                &&& exists|p: int|
                    {
                        &&& 0 <= p < agent.parts@.len()
                        &&& spec_part_yields(#[trigger] agent.parts@[p], *snap, pre_room.inventory)
                        &&& forall|q: int|
                            0 <= q < p ==> !spec_part_yields(
                                #[trigger] agent.parts@[q],
                                *snap,
                                pre_room.inventory,
                            )
                        &&& match agent.parts@[p] {
                            PartKind::Work => task == Task::DropHarvest(snap.sources@[0])
                                && post_room.inventory == pre_room.inventory && *final(next_reservation_id) == *old(next_reservation_id),
                            PartKind::Carry => task matches Task::Haul(st, rid, dest) && st
                                == HaulState::Gathering && exists|c: int, k: int|
                                {
                                    &&& #[trigger] haul::is_chosen(snap.structures@, c)
                                    &&& dest == snap.structures@[c].id
                                    &&& 0 <= k < crate::util::spec_resource_types(
                                        snap.structures@[c].kind,
                                    ).len()
                                    &&& RoomInventory::request_ok_rel(
                                        pre_room.inventory,
                                        snap.world,
                                        #[trigger] crate::util::spec_resource_types(
                                            snap.structures@[c].kind,
                                        )[k],
                                        haul::HAUL_AMOUNT,
                                        rid,
                                        *old(next_reservation_id),
                                        *final(next_reservation_id),
                                        post_room.inventory,
                                    )
                                },
                            PartKind::Other => false,
                        }
                    }
            }
        },
{
    if agent.spawning {
        return None;
    }
    let ghost pre = *state;
    let ghost c0 = *next_reservation_id;
    let i = match state.find_room_index(agent.room) {
        None => {
            return None;
        },
        Some(i) => i,
    };
    proof {
        lemma_room_index(pre, i as int, agent.room);
    }
    let room = state.room_mut(i);
    let ghost pre_room = *room;
    let existing: Option<Task> = match room.tasks.get(agent.id) {
        Some(t) => Some(*t),
        None => None,
    };
    let out: Option<Task> = match existing {
        Some(t) => Some(t),
        None => {
            match find_best_task(&agent.parts, snap, &mut room.inventory, next_reservation_id) {
                Some(t) => {
                    room.tasks.insert(agent.id, t);
                    Some(t)
                },
                None => None,
            }
        },
    };
    proof {
        crate::state::lemma_room_update(pre, *state, i as int, agent.room);
        assert forall|j: int| 0 <= j < state.room_state@.len() implies (
        #[trigger] state.room_state@[j]).1.wf() by {
            if j != i as int {
                assert(state.room_state@[j] == pre.room_state@[j]);
            }
        }
        assert forall|j: int| 0 <= j < state.room_state@.len() implies (
        #[trigger] state.room_state@[j]).1.inventory.ids_below(*next_reservation_id) by {
            if j != i as int {
                assert(state.room_state@[j] == pre.room_state@[j]);
                assert(pre.room_state@[j].1.inventory.ids_below(c0));
                assert forall|id2: ReservationId|
                    #[trigger] state.room_state@[j].1.inventory.has_res(id2) implies id2.0
                    < *next_reservation_id by {}
            }
        }
    }
    out
}

/// Decides what the agent's task does this tick: finish with a result, move
/// toward an object, or attempt a world action.  A haul step whose delivery
/// can no longer happen releases its reservation here; a task whose plan is
/// a final non-`InProgress` result is removed from the mapping, freeing the
/// agent for reassignment next tick.
///
/// Must only be invoked for an agent that currently has a task in its
/// region's mapping — calling it otherwise is a programming error, not a
/// runtime condition.  For a haul task still gathering, a resolvable
/// reservation must point at a dropped pile that is present this tick (see
/// `haul::run`); the driver checks this before calling.
pub fn step_task(state: &mut GlobalState, agent: &AgentView, facts: &StepFacts) -> (plan: StepPlan)
    requires
        old(state).wf(),
        old(state).has_room(agent.room),
        old(state).room_of(agent.room).tasks.has_task(agent.id),
        ({
            let room = old(state).room_of(agent.room);
            room.tasks.task_of(agent.id) matches Task::Haul(st, rid, dest) ==> ((st
                is Gathering && room.inventory.spec_resolvable(rid))
                ==> room.inventory.res(rid).spec_target() is Resource && facts.present)
        }),
    ensures
        final(state).wf(),
        final(state).memory == old(state).memory,
        forall|n: RoomName| #[trigger] final(state).has_room(n) == old(state).has_room(n),
        forall|n: RoomName|
            n != agent.room && old(state).has_room(n) ==> #[trigger] final(state).room_of(n)
                == old(state).room_of(n),
        forall|bound: u32|
            #[trigger] old(state).ids_below(bound) ==> final(state).ids_below(bound),
        ({
            let room = old(state).room_of(agent.room);
            let post_room = final(state).room_of(agent.room);
            let task = room.tasks.task_of(agent.id);
            &&& plan == spec_step_plan(task, room.inventory, *facts)
            &&& match task {
                Task::DropHarvest(_) => post_room.inventory == room.inventory,
                Task::Haul(st, rid, _) => {
                    &&& haul::spec_plan_releases(st, room.inventory, rid, *facts)
                        ==> RoomInventory::release_rel(room.inventory, rid, post_room.inventory)
                    &&& !haul::spec_plan_releases(st, room.inventory, rid, *facts)
                        ==> post_room.inventory == room.inventory
                },
            }
            &&& match plan {
                StepPlan::Done(res) => {
                    &&& res != TaskResult::InProgress ==> !post_room.tasks.has_task(agent.id)
                    &&& res == TaskResult::InProgress ==> post_room.tasks == room.tasks
                },
                _ => post_room.tasks == room.tasks,
            }
            &&& RoomTasks::otherwise_unchanged(room.tasks, post_room.tasks, agent.id)
        }),
{
    let ghost pre = *state;
    let i = match state.find_room_index(agent.room) {
        None => {
            proof {
                assert(false);
            }
            0
        },
        Some(i) => i,
    };
    proof {
        lemma_room_index(pre, i as int, agent.room);
    }
    let room = state.room_mut(i);
    let task: Task = match room.tasks.get(agent.id) {
        Some(t) => *t,
        None => {
            proof {
                assert(false);
            }
            Task::DropHarvest(0)
        },
    };
    let plan = match task {
        Task::DropHarvest(src) => drop_harvest::run(src, facts),
        Task::Haul(st, rid, dest) => haul::run(st, &mut room.inventory, &rid, &dest, facts),
    };
    match plan {
        StepPlan::Done(res) => match res {
            TaskResult::InProgress => {},
            _ => {
                room.tasks.remove(agent.id);
            },
        },
        _ => {},
    }
    proof {
        crate::state::lemma_room_update(pre, *state, i as int, agent.room);
        assert forall|j: int| 0 <= j < state.room_state@.len() implies (
        #[trigger] state.room_state@[j]).1.wf() by {
            if j != i as int {
                assert(state.room_state@[j] == pre.room_state@[j]);
            }
        }
        assert forall|bound: u32| #[trigger] pre.ids_below(bound) implies state.ids_below(
            bound,
        ) by {
            assert forall|j: int| 0 <= j < state.room_state@.len() implies (
            #[trigger] state.room_state@[j]).1.inventory.ids_below(bound) by {
                if j != i as int {
                    assert(state.room_state@[j] == pre.room_state@[j]);
                } else {
                    let pre_inv = pre.room_state@[j].1.inventory;
                    let post_inv = state.room_state@[j].1.inventory;
                    assert(pre_inv.ids_below(bound));
                    assert forall|id2: ReservationId| #[trigger] post_inv.has_res(id2) implies id2.0
                        < bound by {
                        assert(pre_inv.has_res(id2));
                    }
                }
            }
        }
    }
    plan
}

/// Interprets the outcome of the world action a task step attempted this
/// tick: the harvest and haul outcome tables decide the result, a
/// successful pickup advances the haul phase in the mapping, reservations
/// are released where the tables say so, and a task whose result is final
/// is removed from the mapping.
///
/// Must only be invoked for an agent that currently has a task in its
/// region's mapping.
#[verifier::rlimit(50)]
#[verifier::spinoff_prover]
pub fn conclude_step(state: &mut GlobalState, agent: &AgentView, outcome: ActionOutcome) -> (r:
    TaskResult)
    requires
        old(state).wf(),
        old(state).has_room(agent.room),
        old(state).room_of(agent.room).tasks.has_task(agent.id),
    ensures
        final(state).wf(),
        final(state).memory == old(state).memory,
        forall|n: RoomName| #[trigger] final(state).has_room(n) == old(state).has_room(n),
        forall|n: RoomName|
            n != agent.room && old(state).has_room(n) ==> #[trigger] final(state).room_of(n)
                == old(state).room_of(n),
        forall|bound: u32|
            #[trigger] old(state).ids_below(bound) ==> final(state).ids_below(bound),
        ({
            let room = old(state).room_of(agent.room);
            let post_room = final(state).room_of(agent.room);
            room.tasks.task_of(agent.id) matches Task::DropHarvest(src) ==> {
                &&& r == drop_harvest::spec_conclude(outcome)
                &&& post_room.inventory == room.inventory
                &&& r != TaskResult::InProgress ==> !post_room.tasks.has_task(agent.id)
                &&& r == TaskResult::InProgress ==> post_room.tasks == room.tasks
            }
        }),
        ({
            let room = old(state).room_of(agent.room);
            let post_room = final(state).room_of(agent.room);
            room.tasks.task_of(agent.id) matches Task::Haul(st, rid, dest) ==> {
                &&& r == haul::spec_conclude_result(st, outcome)
                &&& haul::spec_conclude_releases(st, outcome) ==> RoomInventory::release_rel(
                    room.inventory,
                    rid,
                    post_room.inventory,
                )
                &&& !haul::spec_conclude_releases(st, outcome) ==> post_room.inventory
                    == room.inventory
                &&& r != TaskResult::InProgress ==> !post_room.tasks.has_task(agent.id)
                &&& r == TaskResult::InProgress ==> post_room.tasks.has_task(agent.id)
                    && post_room.tasks.task_of(agent.id) == Task::Haul(
                    haul::spec_conclude_next_state(st, outcome),
                    rid,
                    dest,
                )
            }
        }),
        RoomTasks::otherwise_unchanged(
            old(state).room_of(agent.room).tasks,
            final(state).room_of(agent.room).tasks,
            agent.id,
        ),
{
    let ghost pre = *state;
    let i = match state.find_room_index(agent.room) {
        None => {
            proof {
                assert(false);
            }
            0
        },
        Some(i) => i,
    };
    proof {
        lemma_room_index(pre, i as int, agent.room);
    }
    let room = state.room_mut(i);
    let task: Task = match room.tasks.get(agent.id) {
        Some(t) => *t,
        None => {
            proof {
                assert(false);
            }
            Task::DropHarvest(0)
        },
    };
    let result = match task {
        Task::DropHarvest(_) => {
            let r = drop_harvest::conclude(outcome);
            match r {
                TaskResult::InProgress => {},
                _ => {
                    room.tasks.remove(agent.id);
                },
            }
            r
        },
        Task::Haul(st, rid, dest) => {
            let mut phase = st;
            let r = haul::conclude(&mut phase, &mut room.inventory, &rid, outcome);
            match r {
                TaskResult::InProgress => {
                    room.tasks.set_task(agent.id, Task::Haul(phase, rid, dest));
                },
                _ => {
                    room.tasks.remove(agent.id);
                },
            }
            r
        },
    };
    proof {
        crate::state::lemma_room_update(pre, *state, i as int, agent.room);
        assert forall|j: int| 0 <= j < state.room_state@.len() implies (
        #[trigger] state.room_state@[j]).1.wf() by {
            if j != i as int {
                assert(state.room_state@[j] == pre.room_state@[j]);
            }
        }
        assert forall|bound: u32| #[trigger] pre.ids_below(bound) implies state.ids_below(
            bound,
        ) by {
            assert forall|j: int| 0 <= j < state.room_state@.len() implies (
            #[trigger] state.room_state@[j]).1.inventory.ids_below(bound) by {
                if j != i as int {
                    assert(state.room_state@[j] == pre.room_state@[j]);
                } else {
                    let pre_inv = pre.room_state@[j].1.inventory;
                    let post_inv = state.room_state@[j].1.inventory;
                    assert(pre_inv.ids_below(bound));
                    assert forall|id2: ReservationId| #[trigger] post_inv.has_res(id2) implies id2.0
                        < bound by {
                        assert(pre_inv.has_res(id2));
                    }
                }
            }
        }
        assert(RoomTasks::otherwise_unchanged(
            pre.room_of(agent.room).tasks,
            state.room_of(agent.room).tasks,
            agent.id,
        ));
    }
    result
}

/// In a duplicate-free task mapping, the entry at a position holding
/// `agent` is the one `task_of` reads.
proof fn lemma_task_index(t: RoomTasks, i: int, agent: u128)
    requires
        t.agents().no_duplicates(),
        0 <= i < t.tasks@.len(),
        t.tasks@[i].0 == agent,
    ensures
        t.has_task(agent),
        t.agents().index_of(agent) == i,
        t.task_of(agent) == t.tasks@[i].1,
{
    assert(t.agents()[i] == agent);
    assert(t.agents().contains(agent));
    let j = t.agents().index_of(agent);
    assert(0 <= j < t.agents().len() && t.agents()[j] == agent);
}

} // verus!
