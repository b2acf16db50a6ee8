use colony::inventory::Target;
use colony::state::{GlobalState, HaulState};
use colony::tasks::haul::find_target;
use colony::tasks::{process_tasks, step_task, conclude_step};
use colony::tasks::{StepAction, StepPlan, Task, TaskResult};
use colony::world::{
    ActionOutcome, AgentView, Amounts, PartKind, PileView, ResourceKind, RoomName, RoomSnapshot,
    StepFacts, StructureKind, StructureView, WorldView,
};

fn spawn_structure(id: u128, free_energy: u32) -> StructureView {
    StructureView {
        id,
        kind: StructureKind::Spawn,
        free: Amounts { energy: free_energy, power: 0, ghodium: 0, other: 0 },
    }
}

fn snapshot_with(sources: Vec<u128>, structures: Vec<StructureView>, piles: Vec<PileView>) -> RoomSnapshot {
    RoomSnapshot { sources, structures, world: WorldView { piles, stores: Vec::new() } }
}

fn agent(id: u128, room: RoomName, parts: Vec<PartKind>) -> AgentView {
    AgentView { id, room, spawning: false, parts }
}

fn facts(present: bool, adjacent: bool, transferable: bool) -> StepFacts {
    StepFacts { present, adjacent, transferable }
}

const ROOM: RoomName = RoomName(7);

/// A state with one region whose ledger tracks the given piles.
fn state_with_piles(piles: &[(u128, u32)]) -> GlobalState {
    let mut state = GlobalState::new();
    state.ensure_room(ROOM);
    let observed: Vec<Target> = piles.iter().map(|&(id, _)| Target::Resource(id)).collect();
    state.room_state[0].1.inventory.update_targets(&observed);
    state
}

fn pile_views(piles: &[(u128, u32)]) -> Vec<PileView> {
    piles
        .iter()
        .map(|&(id, amount)| PileView { id, kind: ResourceKind::Energy, amount })
        .collect()
}

#[test]
fn spawning_agents_are_skipped() {
    let mut state = state_with_piles(&[]);
    let mut counter: u32 = 0;
    let snap = snapshot_with(vec![5], Vec::new(), Vec::new());
    let mut a = agent(1, ROOM, vec![PartKind::Work]);
    a.spawning = true;
    assert_eq!(process_tasks(&mut state, &a, &snap, &mut counter), None);
}

#[test]
fn work_capable_agents_harvest_the_first_source() {
    let mut state = state_with_piles(&[]);
    let mut counter: u32 = 0;
    let snap = snapshot_with(vec![5, 6], Vec::new(), Vec::new());
    let a = agent(1, ROOM, vec![PartKind::Other, PartKind::Work]);
    assert_eq!(process_tasks(&mut state, &a, &snap, &mut counter), Some(Task::DropHarvest(5)));
    // the assignment is remembered and returned unchanged next tick
    assert_eq!(process_tasks(&mut state, &a, &snap, &mut counter), Some(Task::DropHarvest(5)));
}

#[test]
fn carry_capable_agents_get_a_haul_with_a_reservation() {
    let piles = [(1u128, 100u32)];
    let mut state = state_with_piles(&piles);
    let mut counter: u32 = 0;
    let snap = snapshot_with(Vec::new(), vec![spawn_structure(40, 300)], pile_views(&piles));
    let a = agent(2, ROOM, vec![PartKind::Carry]);

    let task = process_tasks(&mut state, &a, &snap, &mut counter);
    match task {
        Some(Task::Haul(HaulState::Gathering, rid, dest)) => {
            assert_eq!(dest, 40);
            let inv = &state.room_state[0].1.inventory;
            let res = inv.resolve_reservation(&rid).unwrap();
            assert_eq!(res.target(), Target::Resource(1));
            assert_eq!(res.resource_type(), ResourceKind::Energy);
            assert_eq!(res.amount(), 50);
        },
        other => panic!("expected a gathering haul task, got {:?}", other),
    }
}

#[test]
fn the_first_capability_that_yields_wins() {
    let piles = [(1u128, 100u32)];
    let mut state = state_with_piles(&piles);
    let mut counter: u32 = 0;
    let snap = snapshot_with(vec![5], vec![spawn_structure(40, 300)], pile_views(&piles));

    // work comes before carry, and a source exists, so the agent harvests
    let a = agent(3, ROOM, vec![PartKind::Work, PartKind::Carry]);
    assert_eq!(process_tasks(&mut state, &a, &snap, &mut counter), Some(Task::DropHarvest(5)));

    // no source: the work part yields nothing and the carry part wins
    let snap2 = snapshot_with(Vec::new(), vec![spawn_structure(40, 300)], pile_views(&piles));
    let b = agent(4, ROOM, vec![PartKind::Work, PartKind::Carry]);
    match process_tasks(&mut state, &b, &snap2, &mut counter) {
        Some(Task::Haul(HaulState::Gathering, _, 40)) => {},
        other => panic!("expected a haul task, got {:?}", other),
    }
}

#[test]
fn agents_without_usable_capabilities_stay_idle() {
    let mut state = state_with_piles(&[]);
    let mut counter: u32 = 0;
    // no sources, no structures: neither capability can construct a task
    let snap = snapshot_with(Vec::new(), Vec::new(), Vec::new());
    let a = agent(5, ROOM, vec![PartKind::Work, PartKind::Carry, PartKind::Other]);
    assert_eq!(process_tasks(&mut state, &a, &snap, &mut counter), None);
}

#[test]
fn harvest_moves_then_acts_then_retries_on_depletion() {
    let mut state = state_with_piles(&[]);
    let mut counter: u32 = 0;
    let snap = snapshot_with(vec![5], Vec::new(), Vec::new());
    let a = agent(1, ROOM, vec![PartKind::Work]);
    process_tasks(&mut state, &a, &snap, &mut counter).unwrap();

    // not adjacent yet: move toward the source, task stays
    assert_eq!(step_task(&mut state, &a, &facts(true, false, false)), StepPlan::Move(5));

    // adjacent: attempt the harvest
    assert_eq!(
        step_task(&mut state, &a, &facts(true, true, false)),
        StepPlan::Act(StepAction::Harvest(5))
    );

    // the source holds nothing right now: depleted, not gone — retry next tick
    assert_eq!(conclude_step(&mut state, &a, ActionOutcome::NotEnough), TaskResult::InProgress);
    assert!(state.room_state[0].1.tasks.get(1).is_some());

    // a vanished source ends the task
    assert_eq!(step_task(&mut state, &a, &facts(false, false, false)), StepPlan::Done(TaskResult::Error));
    assert!(state.room_state[0].1.tasks.get(1).is_none());
}

#[test]
fn haul_target_disappears_mid_task() {
    let piles = [(1u128, 100u32)];
    let mut state = state_with_piles(&piles);
    let mut counter: u32 = 0;
    let snap = snapshot_with(Vec::new(), vec![spawn_structure(40, 300)], pile_views(&piles));
    let a = agent(2, ROOM, vec![PartKind::Carry]);
    let task = process_tasks(&mut state, &a, &snap, &mut counter).unwrap();
    let rid = match task {
        Task::Haul(HaulState::Gathering, rid, _) => rid,
        other => panic!("expected a haul task, got {:?}", other),
    };

    // next tick the pile is gone from the sweep
    state.room_state[0].1.inventory.update_targets(&Vec::new());

    // the reservation no longer resolves: the step errors out and the task
    // is removed from the mapping
    assert_eq!(
        step_task(&mut state, &a, &facts(true, true, true)),
        StepPlan::Done(TaskResult::Error)
    );
    assert!(state.room_state[0].1.tasks.get(2).is_none());
    // the record dangles on the books, unresolvable
    assert!(state.room_state[0].1.inventory.contains_reservation(rid));
    assert!(state.room_state[0].1.inventory.resolve_reservation(&rid).is_none());
}

#[test]
fn haul_destination_full_on_delivery() {
    let piles = [(1u128, 100u32)];
    let mut state = state_with_piles(&piles);
    let mut counter: u32 = 0;
    let snap = snapshot_with(Vec::new(), vec![spawn_structure(40, 300)], pile_views(&piles));
    let a = agent(2, ROOM, vec![PartKind::Carry]);
    let rid = match process_tasks(&mut state, &a, &snap, &mut counter).unwrap() {
        Task::Haul(HaulState::Gathering, rid, _) => rid,
        other => panic!("expected a haul task, got {:?}", other),
    };

    // adjacent to the pile: pick it up, which advances to delivering
    assert_eq!(
        step_task(&mut state, &a, &facts(true, true, false)),
        StepPlan::Act(StepAction::Pickup(1))
    );
    assert_eq!(conclude_step(&mut state, &a, ActionOutcome::Success), TaskResult::InProgress);
    assert_eq!(
        state.room_state[0].1.tasks.get(2).copied(),
        Some(Task::Haul(HaulState::Delivering, rid, 40))
    );

    // adjacent to the destination: attempt the transfer
    assert_eq!(
        step_task(&mut state, &a, &facts(true, true, true)),
        StepPlan::Act(StepAction::Transfer(40, ResourceKind::Energy))
    );

    // the destination reports it is full: the reservation is released, the
    // task errors and is removed
    assert_eq!(conclude_step(&mut state, &a, ActionOutcome::Full), TaskResult::Error);
    assert!(!state.room_state[0].1.inventory.contains_reservation(rid));
    assert!(state.room_state[0].1.tasks.get(2).is_none());
}

#[test]
fn haul_delivery_completes_and_releases() {
    let piles = [(1u128, 100u32)];
    let mut state = state_with_piles(&piles);
    let mut counter: u32 = 0;
    let snap = snapshot_with(Vec::new(), vec![spawn_structure(40, 300)], pile_views(&piles));
    let a = agent(2, ROOM, vec![PartKind::Carry]);
    let rid = match process_tasks(&mut state, &a, &snap, &mut counter).unwrap() {
        Task::Haul(HaulState::Gathering, rid, _) => rid,
        other => panic!("expected a haul task, got {:?}", other),
    };

    // a full agent inventory on pickup also advances the phase
    step_task(&mut state, &a, &facts(true, true, false));
    assert_eq!(conclude_step(&mut state, &a, ActionOutcome::Full), TaskResult::InProgress);

    // not adjacent yet: move toward the destination
    assert_eq!(step_task(&mut state, &a, &facts(true, false, true)), StepPlan::Move(40));

    // adjacent: transfer succeeds, the task completes, the reservation goes
    step_task(&mut state, &a, &facts(true, true, true));
    assert_eq!(conclude_step(&mut state, &a, ActionOutcome::Success), TaskResult::Complete);
    assert!(!state.room_state[0].1.inventory.contains_reservation(rid));
    assert!(state.room_state[0].1.tasks.get(2).is_none());
}

#[test]
fn haul_missing_destination_releases_and_errors() {
    let piles = [(1u128, 100u32)];
    let mut state = state_with_piles(&piles);
    let mut counter: u32 = 0;
    let snap = snapshot_with(Vec::new(), vec![spawn_structure(40, 300)], pile_views(&piles));
    let a = agent(2, ROOM, vec![PartKind::Carry]);
    let rid = match process_tasks(&mut state, &a, &snap, &mut counter).unwrap() {
        Task::Haul(HaulState::Gathering, rid, _) => rid,
        other => panic!("expected a haul task, got {:?}", other),
    };
    step_task(&mut state, &a, &facts(true, true, false));
    conclude_step(&mut state, &a, ActionOutcome::Success);

    // the destination vanished: release and error without any action
    assert_eq!(
        step_task(&mut state, &a, &facts(false, false, false)),
        StepPlan::Done(TaskResult::Error)
    );
    assert!(!state.room_state[0].1.inventory.contains_reservation(rid));
    assert!(state.room_state[0].1.tasks.get(2).is_none());
}

#[test]
fn haul_prefers_the_priority_order() {
    let piles = [(1u128, 100u32)];
    let mut state = state_with_piles(&piles);
    let mut counter: u32 = 0;
    let world = WorldView { piles: pile_views(&piles), stores: Vec::new() };

    // a storage enumerated first still loses to a spawn
    let structures = vec![
        StructureView {
            id: 30,
            kind: StructureKind::Storage,
            free: Amounts { energy: 1000, power: 0, ghodium: 0, other: 0 },
        },
        spawn_structure(40, 300),
    ];
    let inv = &mut state.room_state[0].1.inventory;
    let (_, dest) = find_target(inv, &structures, &world, &mut counter).unwrap();
    assert_eq!(dest, 40);
}

#[test]
fn haul_skips_structures_without_free_capacity() {
    let piles = [(1u128, 100u32)];
    let mut state = state_with_piles(&piles);
    let mut counter: u32 = 0;
    let world = WorldView { piles: pile_views(&piles), stores: Vec::new() };

    // the spawn is full; the tower can still take energy
    let structures = vec![
        spawn_structure(40, 0),
        StructureView {
            id: 50,
            kind: StructureKind::Tower,
            free: Amounts { energy: 10, power: 0, ghodium: 0, other: 0 },
        },
    ];
    let inv = &mut state.room_state[0].1.inventory;
    let (_, dest) = find_target(inv, &structures, &world, &mut counter).unwrap();
    assert_eq!(dest, 50);

    // with every store full, no haul task can be constructed
    let mut counter2: u32 = 10;
    let full = vec![spawn_structure(40, 0)];
    assert!(find_target(inv, &full, &world, &mut counter2).is_none());
    assert_eq!(counter2, 10);
}

#[test]
fn agents_in_unknown_regions_are_skipped() {
    let mut state = GlobalState::new();
    let mut counter: u32 = 0;
    let snap = snapshot_with(vec![5], Vec::new(), Vec::new());
    let a = agent(1, RoomName(99), vec![PartKind::Work]);
    assert_eq!(process_tasks(&mut state, &a, &snap, &mut counter), None);
}
