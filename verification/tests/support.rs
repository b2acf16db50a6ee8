use colony::client_hacks::{inject_all, ClientHack};
use colony::colony::ColonyId;
use colony::inventory::ReservationId;
use colony::state::GlobalState;
use colony::util::resource_types;
use colony::world::{Amounts, ResourceKind, RoomName, StructureKind};

#[test]
fn client_hack_flattens_scripts_to_one_line() {
    // each newline goes, along with the tab indentation after it
    let hack = ClientHack::new("demo", "a\n\t\tb\n  c\nd");
    assert_eq!(hack.code().as_str(), "abcd");
    assert_eq!(hack.name().as_str(), "demo");

    // a newline followed by tabs eats only the tabs; later spaces stay
    let hack2 = ClientHack::new("demo2", "x\n\t  y");
    assert_eq!(hack2.code().as_str(), "x  y");

    // a script that is already one line is unchanged
    let hack3 = ClientHack::new("demo3", "let a = 1; fn(a);");
    assert_eq!(hack3.code().as_str(), "let a = 1; fn(a);");
}

#[test]
fn hacks_are_injected_with_the_interface_last() {
    let hacks = inject_all("viz\n\tcode", "ui\n code");
    assert_eq!(hacks.len(), 2);
    assert_eq!(hacks[0].code().as_str(), "vizcode");
    assert_eq!(hacks[1].code().as_str(), "uicode");
}

#[test]
fn storage_rules_follow_the_structure_kind() {
    assert_eq!(resource_types(StructureKind::Spawn), vec![ResourceKind::Energy]);
    assert_eq!(resource_types(StructureKind::Extension), vec![ResourceKind::Energy]);
    assert_eq!(
        resource_types(StructureKind::Nuker),
        vec![ResourceKind::Energy, ResourceKind::Ghodium]
    );
    assert_eq!(
        resource_types(StructureKind::PowerSpawn),
        vec![ResourceKind::Energy, ResourceKind::Power]
    );
    assert_eq!(
        resource_types(StructureKind::Storage),
        vec![ResourceKind::Energy, ResourceKind::Power, ResourceKind::Ghodium, ResourceKind::Other]
    );
    // a structure without a store holds nothing
    assert_eq!(resource_types(StructureKind::Other), Vec::new());
}

#[test]
fn amounts_are_read_per_kind() {
    let a = Amounts { energy: 1, power: 2, ghodium: 3, other: 4 };
    assert_eq!(a.get(ResourceKind::Energy), 1);
    assert_eq!(a.get(ResourceKind::Power), 2);
    assert_eq!(a.get(ResourceKind::Ghodium), 3);
    assert_eq!(a.get(ResourceKind::Other), 4);
}

#[test]
fn id_counters_advance_one_by_one() {
    let mut next: u32 = 0;
    assert_eq!(ColonyId::next(&mut next), ColonyId(0));
    assert_eq!(ColonyId::next(&mut next), ColonyId(1));
    assert_eq!(next, 2);

    let mut next_res: u32 = 5;
    assert_eq!(ReservationId::next(&mut next_res), ReservationId(5));
    assert_eq!(ReservationId::next(&mut next_res), ReservationId(6));
    assert_eq!(next_res, 7);
}

#[test]
fn regions_get_state_once() {
    let mut state = GlobalState::new();
    assert!(!state.contains_room(RoomName(1)));
    state.ensure_room(RoomName(1));
    state.ensure_room(RoomName(2));
    assert!(state.contains_room(RoomName(1)));
    assert!(state.contains_room(RoomName(2)));
    assert_eq!(state.room_state.len(), 2);

    // creating it again changes nothing
    state.ensure_room(RoomName(1));
    assert_eq!(state.room_state.len(), 2);
}
