use temple::doorset::DoorSet;
use temple::lattice::Slot::{A0, B0, B1, C0, C1, C2, D0, D1, D2, D3, E0, E1, E2};
use temple::lattice::{slot_at, Edge, Slot};
use temple::masks::{bits, mask_holds, SlotMask};
use temple::reading::{PanelReading, RoomIdentity, TempleLayout};
use temple::state::{
    closed_door_distances, component, hop_distances, lattice_degree, mask_of, neighbour_masks,
    BoardState,
};
use temple::strategy::{Line, Tier};

fn open(edges: &[(Slot, Slot)]) -> [SlotMask; 13] {
    let mut out = [0; 13];
    for (a, b) in edges {
        out[a.index()] |= mask_of(*b);
        out[b.index()] |= mask_of(*a);
    }
    out
}

fn slots(mask: SlotMask) -> Vec<Slot> {
    bits(mask).into_iter().map(slot_at).collect()
}

fn door_set(edges: &[(Slot, Slot)]) -> DoorSet {
    let mut set = DoorSet::new();
    for (a, b) in edges {
        set.insert(Edge::new(*a, *b));
    }
    set
}

#[test]
fn a_component_follows_open_doors_transitively_and_stops_at_a_closed_one() {
    let open = open(&[(E1, D1), (D1, C0), (C0, B0)]);
    assert_eq!(slots(component(&open, E1)), vec![B0, C0, D1, E1]);
    assert_eq!(slots(component(&open, C2)), vec![C2], "C2 has no open door");
}

#[test]
fn the_closed_door_distance_reaches_the_apex_from_the_entrance_component() {
    let open = open(&[(E1, D1), (D1, C0), (C0, B0)]);
    let seed = component(&open, Slot::E1);
    let distance = closed_door_distances(&open, seed);
    assert_eq!(distance[Slot::E1.index()], 0);
    assert_eq!(distance[B0.index()], 0, "open doors are free");
    assert_eq!(distance[A0.index()], 1, "one closed corridor from B0");
    assert_eq!(distance[C1.index()], 1, "C1 touches C0 and D1");
}

#[test]
fn the_closed_door_distance_charges_one_per_closed_corridor_crossed() {
    let open = open(&[(E1, E2)]);
    let distance = closed_door_distances(&open, component(&open, Slot::E1));
    assert_eq!(distance[D2.index()], 1, "D2 touches E1");
    assert_eq!(distance[C1.index()], 2, "C1 is two corridors from row E");
    assert_eq!(distance[A0.index()], 4);
}

#[test]
fn an_open_corridor_past_a_blasted_one_costs_nothing_extra() {
    let open = open(&[(B0, C0)]);
    let distance = closed_door_distances(&open, component(&open, Slot::E1));
    assert_eq!(distance[D1.index()], 1);
    assert_eq!(distance[C0.index()], 2);
    assert_eq!(
        distance[B0.index()],
        2,
        "B0 rides in free on the corridor it shares with C0"
    );
}

#[test]
fn an_empty_seed_reaches_nothing_at_any_cost() {
    let open = open(&[(E1, E2)]);
    let distance = closed_door_distances(&open, 0);
    assert!(distance.iter().all(|d| *d == temple::state::UNREACHABLE));
}

#[test]
fn hop_distance_is_none_for_a_slot_no_open_door_reaches() {
    let open = open(&[(E1, D1), (D1, C0)]);
    let distance = hop_distances(&open, Slot::E1);
    assert_eq!(distance[D1.index()], Some(1));
    assert_eq!(distance[C0.index()], Some(2));
    assert_eq!(distance[A0.index()], None);
}

#[test]
fn lattice_degree_is_the_slots_corridor_count_not_its_open_doors() {
    assert_eq!(lattice_degree(A0), 2, "the Apex has only B0 and B1");
    assert_eq!(lattice_degree(D3), 3);
    assert_eq!(lattice_degree(D2), 6);
}

fn layout(doors: &[(Slot, Slot)], uncertain: &[(Slot, Slot)]) -> TempleLayout {
    TempleLayout {
        current: Some(D1),
        doors: door_set(doors),
        uncertain: door_set(uncertain),
    }
}

fn panel(remaining: Option<u8>) -> PanelReading {
    PanelReading {
        incursions_remaining: remaining,
    }
}

#[test]
fn a_reading_without_markers_drops_the_corridors_the_reader_is_unsure_of() {
    let layout = layout(&[(D1, E1), (C0, D1), (E1, E2)], &[(C0, D1)]);
    let identities = [None; 13];
    let board = BoardState::from_reading(&layout, &identities, &panel(Some(7)), None);
    assert!(board.doors.contains(Edge::new(D1, E1)));
    assert!(
        !board.doors.contains(Edge::new(C0, D1)),
        "an uncertain corridor must not become a door"
    );
    assert_eq!(board.position, Some(D1));
    assert_eq!(board.remaining, 7);
}

#[test]
fn a_reading_with_markers_takes_the_settled_door_set_verbatim() {
    let layout = layout(&[(D1, E1), (E1, E2)], &[(C0, D1)]);
    let settled = door_set(&[(C0, D1), (E1, E2)]);
    let board = BoardState::from_reading(&layout, &[None; 13], &panel(Some(3)), Some(&settled));
    assert_eq!(board.doors, settled);
}

#[test]
fn an_illegible_footer_reads_as_no_budget() {
    let board = BoardState::from_reading(&layout(&[], &[]), &[None; 13], &panel(None), None);
    assert_eq!(board.remaining, 0);
}

#[test]
fn room_identities_map_to_lines_with_the_three_line_less_kinds_at_tier_zero() {
    let mut identities = [None; 13];
    identities[Slot::E1.index()] = Some(RoomIdentity::Entrance);
    identities[Slot::A0.index()] = Some(RoomIdentity::Apex);
    identities[D0.index()] = Some(RoomIdentity::Filler);
    identities[C2.index()] = Some(RoomIdentity::Room {
        line: Line::Corruption,
        tier: Tier::T2,
    });
    let board = BoardState::from_reading(&layout(&[], &[]), &identities, &panel(Some(5)), None);
    assert_eq!(board.tier(Slot::E1), Tier::T0);
    assert_eq!(board.tier(Slot::A0), Tier::T0);
    assert_eq!(board.line(D0), None);
    assert_eq!(board.line(C2), Some(Line::Corruption));
    assert_eq!(board.tier(C2), Tier::T2);
}

#[test]
fn connected_rooms_lists_built_lines_the_entrance_reaches_and_nothing_else() {
    let mut board = BoardState::empty();
    board.set_room(E2, Some(Line::Gem), Tier::T1);
    board.set_room(C2, Some(Line::Corruption), Tier::T3);
    board.set_room(D1, Some(Line::Junk), Tier::T0);
    board.doors = door_set(&[(E1, E2), (D1, E1)]);
    assert_eq!(board.connected_rooms(), vec![(Line::Gem, Tier::T1)]);
}

#[test]
fn every_neighbour_mask_is_symmetric_with_the_lattice_edge_set() {
    let masks = neighbour_masks();
    for &slot in &[A0, B0, B1, C0, C1, C2, D0, D1, D2, D3, E0, E1, E2] {
        for n in bits(masks[slot.index()]).into_iter().map(slot_at) {
            assert!(
                mask_holds(masks[n.index()], slot.index()),
                "{slot:?} lists {n:?} but not the reverse"
            );
            assert!(Edge::new(slot, n).kind().is_some());
        }
    }
    assert_eq!(
        masks.iter().map(|m| m.count_ones()).sum::<u32>(),
        52,
        "26 corridors, counted from both ends"
    );
}

#[test]
fn the_closed_doors_from_a_room_skip_the_open_ones() {
    let mut board = BoardState::empty();
    board.doors = door_set(&[(C1, D1), (B0, C1)]);
    let closed: Vec<String> = board.closed_doors_from(C1).iter().map(|e| e.to_string()).collect();
    assert_eq!(closed, vec!["B1-C1", "C0-C1", "C1-C2", "C1-D2"]);
}

#[test]
fn the_entrance_component_and_the_adjacency_follow_the_door_set() {
    let mut board = BoardState::empty();
    board.doors = door_set(&[(E1, D1), (D1, C1)]);
    let adjacency = board.adjacency();
    assert_eq!(adjacency[D1.index()], mask_of(E1) | mask_of(C1));
    assert_eq!(slots(board.entrance_component()), vec![C1, D1, E1]);
}

#[test]
fn a_door_set_counts_and_lists_its_corridors_in_board_order() {
    let set = door_set(&[(E1, E2), (A0, B1), (E2, E1)]);
    assert_eq!(set.len(), 2);
    assert!(!set.is_empty());
    assert!(DoorSet::new().is_empty());
    let listed: Vec<String> = set.edges().iter().map(|e| e.to_string()).collect();
    assert_eq!(listed, vec!["A0-B1", "E1-E2"]);
}

#[test]
fn the_neighbour_masks_hold_each_corridor_at_both_ends() {
    let table = temple::state::neighbour_masks();
    let total: usize = table.iter().map(|m| bits(*m).len()).sum();
    assert_eq!(total, 52);
    for s in 0..13 {
        for n in 0..13 {
            assert_eq!(mask_holds(table[s], n), mask_holds(table[n], s));
        }
    }
    assert_eq!(table, temple::state::neighbour_masks());
}
