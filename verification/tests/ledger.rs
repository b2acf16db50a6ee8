use colony::inventory::{
    NotEnoughErr, Reservation, ReservationError, ReservationId, RoomInventory, Target,
};
use colony::world::{Amounts, PileView, ResourceKind, StoreView, WorldView};

fn amounts(energy: u32, power: u32, ghodium: u32, other: u32) -> Amounts {
    Amounts { energy, power, ghodium, other }
}

fn world_with_piles(piles: Vec<PileView>) -> WorldView {
    WorldView { piles, stores: Vec::new() }
}

fn pile(id: u128, kind: ResourceKind, amount: u32) -> PileView {
    PileView { id, kind, amount }
}

#[test]
fn basic_request_release() {
    // empty ledger; one pile with 100 energy observed
    let mut inv = RoomInventory::new();
    let mut counter: u32 = 0;
    let world = world_with_piles(vec![pile(1, ResourceKind::Energy, 100)]);
    inv.update_targets(&vec![Target::Resource(1)]);

    // first request succeeds with id 0
    let r1 = inv.request(ResourceKind::Energy, 50, &world, &mut counter);
    assert_eq!(r1, Ok(ReservationId(0)));

    // the pile is reserved now, so the same request fails
    let r2 = inv.request(ResourceKind::Energy, 50, &world, &mut counter);
    assert_eq!(
        r2,
        Err(ReservationError::NotEnough(NotEnoughErr { kind: ResourceKind::Energy, amount: 50 }))
    );

    // released, the pile can serve again, under a fresh id
    inv.release(ReservationId(0));
    let r3 = inv.request(ResourceKind::Energy, 50, &world, &mut counter);
    assert_eq!(r3, Ok(ReservationId(1)));
}

#[test]
fn request_comparison_is_strict() {
    let mut inv = RoomInventory::new();
    let mut counter: u32 = 0;
    let world = world_with_piles(vec![pile(7, ResourceKind::Energy, 50)]);
    inv.update_targets(&vec![Target::Resource(7)]);

    // exactly the requested amount available: not strictly more, so refused
    let r = inv.request(ResourceKind::Energy, 50, &world, &mut counter);
    assert!(r.is_err());

    // one unit more than requested qualifies
    let world2 = world_with_piles(vec![pile(7, ResourceKind::Energy, 51)]);
    let r2 = inv.request(ResourceKind::Energy, 50, &world2, &mut counter);
    assert_eq!(r2, Ok(ReservationId(0)));
}

#[test]
fn request_scans_in_observation_order() {
    let mut inv = RoomInventory::new();
    let mut counter: u32 = 0;
    let world = world_with_piles(vec![
        pile(1, ResourceKind::Energy, 10),
        pile(2, ResourceKind::Energy, 100),
        pile(3, ResourceKind::Energy, 100),
    ]);
    inv.update_targets(&vec![Target::Resource(1), Target::Resource(2), Target::Resource(3)]);

    // pile 1 is too small, pile 2 is the first that qualifies
    let r = inv.request(ResourceKind::Energy, 50, &world, &mut counter).unwrap();
    let res: &Reservation = inv.resolve_reservation(&r).unwrap();
    assert_eq!(res.target(), Target::Resource(2));
    assert_eq!(res.resource_type(), ResourceKind::Energy);
    assert_eq!(res.amount(), 50);
}

#[test]
fn request_checks_the_resource_kind() {
    let mut inv = RoomInventory::new();
    let mut counter: u32 = 0;
    let world = world_with_piles(vec![pile(4, ResourceKind::Energy, 100)]);
    inv.update_targets(&vec![Target::Resource(4)]);

    // the pile holds energy, not power
    let r = inv.request(ResourceKind::Power, 10, &world, &mut counter);
    assert_eq!(
        r,
        Err(ReservationError::NotEnough(NotEnoughErr { kind: ResourceKind::Power, amount: 10 }))
    );
}

#[test]
fn release_is_idempotent() {
    let mut inv = RoomInventory::new();
    let mut counter: u32 = 0;
    let world = world_with_piles(vec![pile(1, ResourceKind::Energy, 100)]);
    inv.update_targets(&vec![Target::Resource(1)]);
    let id = inv.request(ResourceKind::Energy, 50, &world, &mut counter).unwrap();

    inv.release(id);
    assert!(!inv.contains_reservation(id));
    assert!(inv.is_tracked(&Target::Resource(1)));

    // releasing again, or an id that never existed, changes nothing
    inv.release(id);
    inv.release(ReservationId(999));
    assert!(!inv.contains_reservation(id));
    assert!(inv.is_tracked(&Target::Resource(1)));

    // and the target is free for a new reservation
    let r = inv.request(ResourceKind::Energy, 50, &world, &mut counter);
    assert!(r.is_ok());
}

#[test]
fn request_on_an_empty_ledger_fails() {
    let mut inv = RoomInventory::new();
    let mut counter: u32 = 0;
    let world = world_with_piles(Vec::new());
    let r = inv.request(ResourceKind::Energy, 1, &world, &mut counter);
    assert_eq!(
        r,
        Err(ReservationError::NotEnough(NotEnoughErr { kind: ResourceKind::Energy, amount: 1 }))
    );
    assert_eq!(counter, 0);
}

#[test]
fn request_of_the_largest_amount_never_succeeds() {
    let mut inv = RoomInventory::new();
    let mut counter: u32 = 0;
    // even a pile holding the largest representable amount cannot strictly
    // exceed a request for that amount
    let world = world_with_piles(vec![pile(1, ResourceKind::Energy, u32::MAX)]);
    inv.update_targets(&vec![Target::Resource(1)]);
    let r = inv.request(ResourceKind::Energy, u32::MAX, &world, &mut counter);
    assert!(r.is_err());
}

#[test]
fn sweep_tracks_exactly_the_observed_set() {
    let mut inv = RoomInventory::new();
    let a = Target::Resource(1);
    let b = Target::Resource(2);
    let c = Target::Resource(3);

    inv.update_targets(&vec![a, b]);
    assert!(inv.is_tracked(&a));
    assert!(inv.is_tracked(&b));
    assert!(!inv.is_tracked(&c));

    inv.update_targets(&vec![b, c]);
    assert!(!inv.is_tracked(&a));
    assert!(inv.is_tracked(&b));
    assert!(inv.is_tracked(&c));
}

#[test]
fn sweep_leaves_dangling_reservations_on_the_books() {
    let mut inv = RoomInventory::new();
    let mut counter: u32 = 0;
    let world = world_with_piles(vec![pile(1, ResourceKind::Energy, 100)]);
    inv.update_targets(&vec![Target::Resource(1)]);
    let id = inv.request(ResourceKind::Energy, 50, &world, &mut counter).unwrap();

    // the target disappears; the reservation record stays, but dangles
    inv.update_targets(&Vec::new());
    assert!(!inv.is_tracked(&Target::Resource(1)));
    assert!(inv.contains_reservation(id));
    assert!(inv.resolve_reservation(&id).is_none());

    // releasing a dangling reservation is a logged no-op
    inv.release(id);
    assert!(inv.contains_reservation(id));
}

#[test]
fn resolve_reflects_target_liveness() {
    let mut inv = RoomInventory::new();
    let mut counter: u32 = 0;
    let world = world_with_piles(vec![pile(1, ResourceKind::Energy, 100)]);
    inv.update_targets(&vec![Target::Resource(1)]);
    let id = inv.request(ResourceKind::Energy, 50, &world, &mut counter).unwrap();

    // both the record and its target exist
    let res = inv.resolve_reservation(&id);
    assert!(res.is_some());
    assert_eq!(res.unwrap().amount(), 50);

    // an unknown id does not resolve
    assert!(inv.resolve_reservation(&ReservationId(41)).is_none());

    // after the sweep drops the target, the id no longer resolves
    inv.update_targets(&Vec::new());
    assert!(inv.resolve_reservation(&id).is_none());
}

#[test]
fn reservation_ids_increase_and_never_repeat() {
    let mut inv = RoomInventory::new();
    let mut counter: u32 = 0;
    let world = world_with_piles(vec![
        pile(1, ResourceKind::Energy, 100),
        pile(2, ResourceKind::Energy, 100),
    ]);
    inv.update_targets(&vec![Target::Resource(1), Target::Resource(2)]);

    let id1 = inv.request(ResourceKind::Energy, 50, &world, &mut counter).unwrap();
    let id2 = inv.request(ResourceKind::Energy, 50, &world, &mut counter).unwrap();
    inv.release(id1);
    inv.release(id2);
    let id3 = inv.request(ResourceKind::Energy, 50, &world, &mut counter).unwrap();

    assert_eq!(id1, ReservationId(0));
    assert_eq!(id2, ReservationId(1));
    assert_eq!(id3, ReservationId(2));
    assert!(id1.0 < id2.0 && id2.0 < id3.0);
}

#[test]
fn available_amount_follows_the_observations() {
    let world = WorldView {
        piles: vec![pile(1, ResourceKind::Energy, 70)],
        stores: vec![StoreView { id: 2, used: amounts(30, 5, 0, 0) }],
    };

    // a pile reports its amount for its own kind and zero for others
    let t = Target::Resource(1);
    assert_eq!(t.get_available_amount(ResourceKind::Energy, &world), Some(70));
    assert_eq!(t.get_available_amount(ResourceKind::Power, &world), Some(0));

    // a storage reports its used capacity of the asked kind
    let s = Target::Storage(2);
    assert_eq!(s.get_available_amount(ResourceKind::Energy, &world), Some(30));
    assert_eq!(s.get_available_amount(ResourceKind::Power, &world), Some(5));

    // an object the world no longer has reports nothing
    assert_eq!(Target::Resource(9).get_available_amount(ResourceKind::Energy, &world), None);
    assert_eq!(Target::Storage(9).get_available_amount(ResourceKind::Energy, &world), None);
}

#[test]
fn refresh_keeps_surviving_reservations_resolvable() {
    let mut inv = RoomInventory::new();
    let mut counter: u32 = 0;
    let world = world_with_piles(vec![
        pile(1, ResourceKind::Energy, 100),
        pile(2, ResourceKind::Energy, 100),
    ]);
    inv.update_targets(&vec![Target::Resource(1), Target::Resource(2)]);
    let id = inv.request(ResourceKind::Energy, 50, &world, &mut counter).unwrap();
    let target = inv.resolve_reservation(&id).unwrap().target();

    // a sweep that still observes the reserved target keeps it resolvable,
    // and the reserved target still refuses a second reservation
    inv.update_targets(&vec![Target::Resource(1), Target::Resource(2)]);
    assert_eq!(inv.resolve_reservation(&id).unwrap().target(), target);
}
