//! The two-phase haul task: reserve a resource for a storage-capable
//! structure, gather it (from a dropped pile), then deliver it.  The
//! reservation is consumed or released as the task ends.

use vstd::prelude::*;

use crate::inventory::{ReservationId, RoomInventory, Target};
use crate::state::HaulState;
use crate::tasks::{StepAction, StepPlan, TaskResult};
use crate::util::{resource_types, spec_resource_types};
use crate::world::{ActionOutcome, ResourceKind, StepFacts, StructureKind, StructureView, WorldView};

verus! {

/// The fixed transfer quantum a haul reservation asks for.
pub const HAUL_AMOUNT: u32 = 50;

/// The delivery priority of a structure kind: spawns first, then
/// extensions, towers, storages, and everything else last.
pub open spec fn spec_rank(kind: StructureKind) -> int {
    match kind {
        StructureKind::Spawn => 0,
        StructureKind::Extension => 1,
        StructureKind::Tower => 2,
        StructureKind::Storage => 3,
        _ => 4,
    }
}

/// The delivery priority of a structure kind, smaller first.
fn rank(kind: StructureKind) -> (r: u8)
    ensures
        r == spec_rank(kind),
{
    match kind {
        StructureKind::Spawn => 0,
        StructureKind::Extension => 1,
        StructureKind::Tower => 2,
        StructureKind::Storage => 3,
        _ => 4,
    }
}

/// The structure can take more of at least one resource kind it stores.
pub open spec fn spec_candidate(s: StructureView) -> bool {
    exists|k: int|
        0 <= k < spec_resource_types(s.kind).len() && s.free.spec_get(
            #[trigger] spec_resource_types(s.kind)[k],
        ) > 0
}

/// Whether the structure can take more of some resource kind it stores.
fn has_free_capacity(s: &StructureView) -> (r: bool)
    ensures
        r == spec_candidate(*s),
{
    let kinds = resource_types(s.kind);
    let mut k: usize = 0;
    while k < kinds.len()
        invariant
            kinds@ == spec_resource_types(s.kind),
            0 <= k <= kinds@.len(),
            forall|j: int| 0 <= j < k ==> s.free.spec_get(#[trigger] kinds@[j]) == 0,
        decreases kinds@.len() - k,
    {
        if s.free.get(kinds[k]) > 0 {
            return true;
        }
        k = k + 1;
    }
    false
}

/// Position `c` holds the structure a haul would deliver to: it has free
/// capacity, no candidate has a strictly better rank, and it is the first
/// among candidates of its rank.
pub open spec fn is_chosen(structures: Seq<StructureView>, c: int) -> bool {
    &&& 0 <= c < structures.len()
    &&& spec_candidate(structures[c])
    &&& forall|j: int|
        0 <= j < structures.len() && spec_candidate(#[trigger] structures[j]) ==> spec_rank(
            structures[c].kind,
        ) < spec_rank(structures[j].kind) || (spec_rank(structures[c].kind) == spec_rank(
            structures[j].kind,
        ) && c <= j)
}

/// At most one position is chosen.
pub proof fn lemma_chosen_unique(structures: Seq<StructureView>, c1: int, c2: int)
    requires
        is_chosen(structures, c1),
        is_chosen(structures, c2),
    ensures
        c1 == c2,
{
}

/// A haul task can be constructed: some structure is chosen and the ledger
/// can fill a request for one of the kinds it stores.
pub open spec fn spec_findable(
    inv: RoomInventory,
    world: WorldView,
    structures: Seq<StructureView>,
) -> bool {
    exists|c: int, k: int|
        {
            &&& #[trigger] is_chosen(structures, c)
            &&& 0 <= k < spec_resource_types(structures[c].kind).len()
            &&& inv.spec_requestable(
                world,
                #[trigger] spec_resource_types(structures[c].kind)[k],
                HAUL_AMOUNT,
            )
        }
}

/// Picks the delivery target for a new haul task and reserves resources for
/// it: among the region's storage-capable structures with free capacity,
/// the one with the best priority rank wins (ties broken by enumeration
/// order), and the first of its accepted resource kinds that the ledger can
/// fill is reserved at the fixed transfer quantum.  No reservation means no
/// haul task this tick.
pub fn find_target(
    inventory: &mut RoomInventory,
    structures: &Vec<StructureView>,
    world: &WorldView,
    next_reservation_id: &mut u32,
) -> (r: Option<(ReservationId, u128)>)
    requires
        old(inventory).wf(),
        old(inventory).ids_below(*old(next_reservation_id)),
        *old(next_reservation_id) < u32::MAX,
    ensures
        final(inventory).wf(),
        final(inventory).ids_below(*final(next_reservation_id)),
        r is Some <==> spec_findable(*old(inventory), *world, structures@),
        r is None ==> *final(inventory) == *old(inventory) && *final(next_reservation_id) == *old(
            next_reservation_id,
        ),
        r matches Some((rid, dest)) ==> exists|c: int, k: int|
            {
                &&& #[trigger] is_chosen(structures@, c)
                &&& dest == structures@[c].id
                &&& 0 <= k < spec_resource_types(structures@[c].kind).len()
                &&& forall|k2: int|
                    0 <= k2 < k ==> !old(inventory).spec_requestable(
                        *world,
                        #[trigger] spec_resource_types(structures@[c].kind)[k2],
                        HAUL_AMOUNT,
                    )
                &&& RoomInventory::request_ok_rel(
                    *old(inventory),
                    *world,
                    #[trigger] spec_resource_types(structures@[c].kind)[k],
                    HAUL_AMOUNT,
                    rid,
                    *old(next_reservation_id),
                    *final(next_reservation_id),
                    *final(inventory),
                )
            },
{
    let ghost pre = *inventory;
    let ghost c0 = *next_reservation_id;

    // pick the best-ranked structure with free capacity
    let mut best: Option<usize> = None;
    let mut i: usize = 0;
    while i < structures.len()
        invariant
            0 <= i <= structures@.len(),
            match best {
                None => forall|j: int| 0 <= j < i ==> !spec_candidate(#[trigger] structures@[j]),
                Some(b) => {
                    &&& b < i
                    &&& spec_candidate(structures@[b as int])
                    &&& forall|j: int|
                        0 <= j < i && spec_candidate(#[trigger] structures@[j]) ==> spec_rank(
                            structures@[b as int].kind,
                        ) < spec_rank(structures@[j].kind) || (spec_rank(
                            structures@[b as int].kind,
                        ) == spec_rank(structures@[j].kind) && b <= j)
                },
            },
        decreases structures@.len() - i,
    {
        if has_free_capacity(&structures[i]) {
            match best {
                None => {
                    best = Some(i);
                },
                Some(b) => {
                    if rank(structures[i].kind) < rank(structures[b].kind) {
                        best = Some(i);
                    }
                },
            }
        }
        i = i + 1;
    }

    let b = match best {
        None => {
            proof {
                assert forall|c: int, k: int| !is_chosen(structures@, c) || !(0 <= k
                    < spec_resource_types(structures@[c].kind).len() && pre.spec_requestable(
                    *world,
                    spec_resource_types(structures@[c].kind)[k],
                    HAUL_AMOUNT,
                )) by {
                    if 0 <= c < structures@.len() {
                        assert(!spec_candidate(structures@[c]));
                    }
                }
            }
            return None;
        },
        Some(b) => b,
    };
    assert(is_chosen(structures@, b as int));

    // reserve the first of its accepted kinds that the ledger can fill
    let kinds = resource_types(structures[b].kind);
    let mut k: usize = 0;
    while k < kinds.len()
        invariant
            pre == *old(inventory),
            c0 == *old(next_reservation_id),
            pre.wf(),
            pre.ids_below(c0),
            c0 < u32::MAX,
            *inventory == pre,
            *next_reservation_id == c0,
            0 <= k <= kinds@.len(),
            b < structures@.len(),
            is_chosen(structures@, b as int),
            kinds@ == spec_resource_types(structures@[b as int].kind),
            forall|k2: int|
                0 <= k2 < k ==> !pre.spec_requestable(
                    *world,
                    #[trigger] kinds@[k2],
                    HAUL_AMOUNT,
                ),
        decreases kinds@.len() - k,
    {
        match inventory.request(kinds[k], HAUL_AMOUNT, world, next_reservation_id) {
            Ok(rid) => {
                return Some((rid, structures[b].id));
            },
            Err(_) => {},
        }
        k = k + 1;
    }
    proof {
        assert forall|c: int, k2: int| !is_chosen(structures@, c) || !(0 <= k2
            < spec_resource_types(structures@[c].kind).len() && pre.spec_requestable(
            *world,
            spec_resource_types(structures@[c].kind)[k2],
            HAUL_AMOUNT,
        )) by {
            if is_chosen(structures@, c) {
                lemma_chosen_unique(structures@, c, b as int);
            }
        }
    }
    None
}

/// What one haul step decides, given the phase, the ledger, and what the
/// driver observed of the step's objective.  A reservation that no longer
/// resolves ends the task (the resolve itself releases nothing).  While
/// gathering, the agent moves to the reserved pile and picks it up once
/// adjacent; gathering from a storage target is not defined, so callers
/// keep that case unreachable.  While delivering, a vanished or
/// untransferable destination ends the task, and an adjacent agent attempts
/// the transfer of the reserved kind.
pub open spec fn spec_plan(
    state: HaulState,
    inv: RoomInventory,
    rid: ReservationId,
    target: u128,
    facts: StepFacts,
) -> StepPlan {
    if !inv.spec_resolvable(rid) {
        StepPlan::Done(TaskResult::Error)
    } else {
        match state {
            HaulState::Gathering => match inv.res(rid).spec_target() {
                Target::Resource(pid) => if facts.adjacent {
                    StepPlan::Act(StepAction::Pickup(pid))
                } else {
                    StepPlan::Move(pid)
                },
                Target::Storage(_) => StepPlan::Done(TaskResult::Error),
            },
            HaulState::Delivering => {
                if !facts.present || !facts.transferable {
                    StepPlan::Done(TaskResult::Error)
                } else if facts.adjacent {
                    StepPlan::Act(StepAction::Transfer(target, inv.res(rid).spec_kind()))
                } else {
                    StepPlan::Move(target)
                }
            },
        }
    }
}

/// The step releases the reservation: only a delivery whose destination is
/// missing or cannot take a transfer does so at planning time.
pub open spec fn spec_plan_releases(
    state: HaulState,
    inv: RoomInventory,
    rid: ReservationId,
    facts: StepFacts,
) -> bool {
    inv.spec_resolvable(rid) && state is Delivering && (!facts.present || !facts.transferable)
}

/// One step of a haul task: decides this tick's plan and releases the
/// reservation on the delivery paths that end the task here.
///
/// While gathering, a resolvable reservation must point at a dropped pile
/// that is still present this tick: picking up from a storage target is an
/// open design gap and stays unreachable, and the ledger-resolved pile is
/// trusted to exist in the world.
pub fn run(
    state: HaulState,
    inventory: &mut RoomInventory,
    reservation_id: &ReservationId,
    target: &u128,
    facts: &StepFacts,
) -> (plan: StepPlan)
    requires
        old(inventory).wf(),
        old(inventory).spec_resolvable(*reservation_id) && state is Gathering ==> old(
            inventory,
        ).res(*reservation_id).spec_target() is Resource && facts.present,
    ensures
        final(inventory).wf(),
        plan == spec_plan(state, *old(inventory), *reservation_id, *target, *facts),
        spec_plan_releases(state, *old(inventory), *reservation_id, *facts)
            ==> RoomInventory::release_rel(*old(inventory), *reservation_id, *final(inventory)),
        !spec_plan_releases(state, *old(inventory), *reservation_id, *facts) ==> *final(inventory)
            == *old(inventory),
{
    let resolved: Option<(Target, ResourceKind)> = match inventory.resolve_reservation(
        reservation_id,
    ) {
        None => None,
        Some(r) => Some((r.target(), r.resource_type())),
    };
    match resolved {
        None => StepPlan::Done(TaskResult::Error),
        Some((res_target, res_kind)) => match state {
            HaulState::Gathering => match res_target {
                Target::Resource(pid) => {
                    if facts.adjacent {
                        StepPlan::Act(StepAction::Pickup(pid))
                    } else {
                        StepPlan::Move(pid)
                    }
                },
                Target::Storage(_) => {
                    proof {
                        assert(false);
                    }
                    StepPlan::Done(TaskResult::Error)
                },
            },
            HaulState::Delivering => {
                if !facts.present || !facts.transferable {
                    inventory.release(*reservation_id);
                    StepPlan::Done(TaskResult::Error)
                } else if facts.adjacent {
                    StepPlan::Act(StepAction::Transfer(*target, res_kind))
                } else {
                    StepPlan::Move(*target)
                }
            },
        },
    }
}

/// The result a haul step reports for an action outcome: while gathering,
/// success and a full inventory both advance to delivery and stay in
/// progress, anything else ends the task; while delivering, only success
/// completes the task, and a full destination is an accepted loss.
pub open spec fn spec_conclude_result(state: HaulState, outcome: ActionOutcome) -> TaskResult {
    match state {
        HaulState::Gathering => match outcome {
            ActionOutcome::Success => TaskResult::InProgress,
            ActionOutcome::Full => TaskResult::InProgress,
            _ => TaskResult::Error,
        },
        HaulState::Delivering => match outcome {
            ActionOutcome::Success => TaskResult::Complete,
            _ => TaskResult::Error,
        },
    }
}

/// The phase after an action outcome: a successful (or inventory-filling)
/// pickup advances gathering to delivering; nothing else moves the phase.
pub open spec fn spec_conclude_next_state(state: HaulState, outcome: ActionOutcome) -> HaulState {
    match state {
        HaulState::Gathering => match outcome {
            ActionOutcome::Success => HaulState::Delivering,
            ActionOutcome::Full => HaulState::Delivering,
            _ => state,
        },
        HaulState::Delivering => state,
    }
}

/// The outcome releases the reservation: every delivery outcome does, and a
/// failed pickup does.
pub open spec fn spec_conclude_releases(state: HaulState, outcome: ActionOutcome) -> bool {
    match state {
        HaulState::Gathering => !(outcome == ActionOutcome::Success || outcome
            == ActionOutcome::Full),
        HaulState::Delivering => true,
    }
}

/// Interprets the outcome of the action a haul step attempted, advancing
/// the phase and releasing the reservation as the tables above state.
pub fn conclude(
    state: &mut HaulState,
    inventory: &mut RoomInventory,
    reservation_id: &ReservationId,
    outcome: ActionOutcome,
) -> (r: TaskResult)
    requires
        old(inventory).wf(),
    ensures
        final(inventory).wf(),
        r == spec_conclude_result(*old(state), outcome),
        *final(state) == spec_conclude_next_state(*old(state), outcome),
        spec_conclude_releases(*old(state), outcome) ==> RoomInventory::release_rel(
            *old(inventory),
            *reservation_id,
            *final(inventory),
        ),
        !spec_conclude_releases(*old(state), outcome) ==> *final(inventory) == *old(inventory),
{
    match *state {
        HaulState::Gathering => match outcome {
            ActionOutcome::Success | ActionOutcome::Full => {
                *state = HaulState::Delivering;
                TaskResult::InProgress
            },
            _ => {
                inventory.release(*reservation_id);
                TaskResult::Error
            },
        },
        HaulState::Delivering => match outcome {
            ActionOutcome::Success => {
                inventory.release(*reservation_id);
                TaskResult::Complete
            },
            _ => {
                inventory.release(*reservation_id);
                TaskResult::Error
            },
        },
    }
}

} // verus!
