use temple::convenience::{convenience_door, ConvenienceDoor, Why};
use temple::fixtures::board;
use temple::lattice::Slot::{A0, B0, B1, C0, C1, C2, D1, D2, D3, E1, E2};
use temple::lattice::{Edge, Slot};
use temple::rollout::Valuation;
use temple::rules::ArchitectChoice;
use temple::state::BoardState;
use temple::strategy::{Line, OfferKind, Tier};

const JUNK: Option<Line> = Some(Line::Junk);

fn rush() -> Valuation {
    Valuation::new(&vec![], &vec![Line::Corruption, Line::Gem])
}

fn edge(a: Slot, b: Slot) -> Edge {
    Edge::new(a, b)
}

fn pick(state: &BoardState) -> Option<ConvenienceDoor> {
    convenience_door(state, state.position.expect("fixture has a position"), None, &rush())
}

#[test]
fn a_corridor_that_straightens_the_entrance_to_apex_walk_wins() {
    let state = board(
        &[(C1, JUNK, 1)],
        &[(E1, D1), (D1, C1), (C1, C0), (C0, B0), (B0, A0), (D1, D2)],
        C1,
        5,
    );
    let got = pick(&state).expect("two corridors inside the cluster");
    assert_eq!(got.door, edge(B0, C1));
    assert_eq!(got.why, Why::ApexWalk { before: 5, after: 4 });
}

#[test]
fn with_the_apex_walk_straight_the_wanted_rooms_walk_decides() {
    let state = board(
        &[(C1, JUNK, 1), (C2, Some(Line::Corruption), 3)],
        &[(E1, D1), (D1, C1), (C1, B0), (B0, A0), (E1, E2), (E2, D3), (D3, D2), (D2, C2)],
        C1,
        5,
    );
    let got = pick(&state).expect("corridors inside the cluster");
    assert_eq!(got.door, edge(C1, C2));
    assert_eq!(got.why, Why::TargetWalk { rooms: 1, before: 4, after: 3 });
}

#[test]
fn with_both_entrance_walks_settled_the_wanted_rooms_to_apex_walk_decides() {
    let state = board(
        &[(C1, JUNK, 1), (D2, Some(Line::Corruption), 3)],
        &[(E1, D1), (D1, C1), (C1, B0), (B0, A0), (E1, D2), (D1, D2), (D1, C0)],
        C1,
        5,
    );
    let got = pick(&state).expect("corridors inside the cluster");
    assert_eq!(got.door, edge(C1, D2));
    assert_eq!(got.why, Why::TargetsToApex { rooms: 1, before: 4, after: 3 });
}

#[test]
fn with_nothing_to_shorten_the_longest_loop_is_closed() {
    let state = board(
        &[(C1, JUNK, 1)],
        &[(E1, D1), (D1, C1), (C1, B0), (B0, A0), (D1, D2), (D2, D3), (D3, C2)],
        C1,
        5,
    );
    let got = pick(&state).expect("corridors inside the cluster");
    assert_eq!(got.door, edge(C1, C2));
    assert_eq!(got.why, Why::Loop { far: C2, hops: 4 });
}

#[test]
fn a_corridor_ru_would_veto_is_never_the_convenience_door() {
    let state = board(
        &[(C1, JUNK, 1), (C2, Some(Line::Upgrade), 2)],
        &[(E1, D1), (D1, C1), (C1, B0), (B0, A0), (D1, D2), (D2, D3), (D3, C2), (D2, C2)],
        C1,
        5,
    );
    let got = pick(&state).expect("C1-D2 is still inside the cluster");
    assert_eq!(got.door, edge(C1, D2));
}

#[test]
fn a_merge_is_the_rankings_business_and_yields_no_convenience_door() {
    let state = board(
        &[(C1, JUNK, 1)],
        &[(E1, D1), (D1, C1), (C1, B0), (B0, A0), (C1, C0), (C1, C2), (C1, D2)],
        C1,
        5,
    );
    assert_eq!(pick(&state), None);
}

#[test]
fn the_kill_is_applied_before_the_walks_are_measured() {
    let state = board(
        &[(C1, JUNK, 1)],
        &[(E1, D2), (D2, D3), (D3, C2), (C2, B1), (B1, C1), (D1, D2)],
        C1,
        5,
    );
    let kill = ArchitectChoice {
        offer_index: 0,
        architect_name: "Tacati".to_string(),
        kind: OfferKind::Change,
        line: Line::Corruption,
        built_tier: Tier::T3,
        display_name: "Locus of Corruption",
    };
    let without = pick(&state).expect("corridors inside the cluster");
    let with = convenience_door(&state, C1, Some(&kill), &rush()).expect("corridors inside the cluster");
    assert_eq!(without.door, edge(C1, D1));
    assert_eq!(without.why, Why::Loop { far: D1, hops: 5 });
    assert_eq!(with.door, edge(C1, D2));
    assert_eq!(with.why, Why::TargetWalk { rooms: 1, before: 5, after: 2 });
}

#[test]
fn a_room_with_every_corridor_open_has_no_convenience_door() {
    let state = board(
        &[(C1, JUNK, 1)],
        &[(C1, B0), (C1, B1), (C1, C0), (C1, C2), (C1, D1), (C1, D2), (E1, D1)],
        C1,
        5,
    );
    assert_eq!(pick(&state), None);
}

#[test]
fn the_description_names_the_door_and_the_walk() {
    let door = ConvenienceDoor { door: edge(B0, C1), why: Why::ApexWalk { before: 5, after: 4 } };
    assert_eq!(door.describe(), "convenience door B0-C1: shortens the Entrance → Apex walk, 5 → 4 hops");
    let door = ConvenienceDoor { door: edge(C1, C2), why: Why::Loop { far: C2, hops: 4 } };
    assert_eq!(
        door.describe(),
        "convenience door C1-C2: closes the longest open loop — C2 is 4 hops away by open doors"
    );
}

#[test]
fn the_summed_walks_name_their_room_count() {
    let one = ConvenienceDoor { door: edge(C1, C2), why: Why::TargetWalk { rooms: 1, before: 4, after: 3 } };
    assert_eq!(
        one.describe(),
        "convenience door C1-C2: shortens the Entrance → wanted rooms walk, 4 → 3 hops over 1 room"
    );
    let two = ConvenienceDoor { door: edge(C1, D2), why: Why::TargetsToApex { rooms: 2, before: 9, after: 7 } };
    assert_eq!(
        two.describe(),
        "convenience door C1-D2: shortens the wanted rooms → Apex walk, 9 → 7 hops over 2 rooms"
    );
}
