//! The walked boards and what the player actually did with each: every
//! fixture records the decision, not a model's number.

use vstd::prelude::*;

use crate::fixtures::{board, listed_room, lists_pair, offer};
use crate::lattice::Slot;
use crate::reading::ArchitectOffer;
use crate::state::BoardState;
use crate::strategy::{Line, OfferKind};

verus! {

/// One walked board.
pub struct Case {
    /// The case's own label, so a failure names the screenshot.
    pub name: &'static str,
    /// The board, with the player standing in it.
    pub state: BoardState,
    /// Both architect blocks as the panel printed them.
    pub offers: Vec<ArchitectOffer>,
    /// How many opening stones dropped.
    pub keys: u8,
    /// What the player did, in prose, for the failure message.
    pub decision: &'static str,
}

/// Case 1's built rooms, as `(slot, line, tier)`.
pub open spec fn case_1_rooms() -> Seq<(Slot, Option<Line>, u8)> {
    seq![
        (Slot::B0, Some(Line::Junk), 1u8),
        (Slot::B1, Some(Line::Junk), 1u8),
        (Slot::C1, Some(Line::Explosive), 1u8),
        (Slot::C2, Some(Line::Junk), 3u8),
        (Slot::D0, Some(Line::Junk), 1u8),
        (Slot::E0, Some(Line::Gem), 1u8),
        (Slot::E2, Some(Line::Upgrade), 2u8),
    ]
}

/// Case 1's open corridors.
pub open spec fn case_1_doors() -> Seq<(Slot, Slot)> {
    seq![
        (Slot::A0, Slot::B0),
        (Slot::B0, Slot::B1),
        (Slot::B1, Slot::C1),
        (Slot::C0, Slot::C1),
        (Slot::C0, Slot::D0),
        (Slot::C0, Slot::D1),
        (Slot::D1, Slot::E1),
        (Slot::D2, Slot::E2),
        (Slot::E1, Slot::E2),
    ]
}

/// Case 2's built rooms, as `(slot, line, tier)`.
pub open spec fn case_2_rooms() -> Seq<(Slot, Option<Line>, u8)> {
    seq![
        (Slot::B1, Some(Line::Corruption), 1u8),
        (Slot::C0, Some(Line::Junk), 1u8),
        (Slot::C1, Some(Line::Junk), 1u8),
        (Slot::D0, Some(Line::Junk), 3u8),
        (Slot::D1, Some(Line::Junk), 3u8),
        (Slot::D2, Some(Line::Explosive), 2u8),
        (Slot::D3, Some(Line::Junk), 2u8),
        (Slot::E0, Some(Line::Junk), 1u8),
        (Slot::E2, Some(Line::Gem), 1u8),
    ]
}

/// Case 2's open corridors.
pub open spec fn case_2_doors() -> Seq<(Slot, Slot)> {
    seq![
        (Slot::C0, Slot::C1),
        (Slot::C0, Slot::D0),
        (Slot::C0, Slot::D1),
        (Slot::C1, Slot::D2),
        (Slot::C2, Slot::D3),
        (Slot::D0, Slot::E0),
        (Slot::D1, Slot::E1),
        (Slot::D2, Slot::D3),
        (Slot::D3, Slot::E2),
        (Slot::E1, Slot::E2),
    ]
}

/// Case 3's built rooms, as `(slot, line, tier)`.
pub open spec fn case_3_rooms() -> Seq<(Slot, Option<Line>, u8)> {
    seq![
        (Slot::B1, Some(Line::Corruption), 3u8),
        (Slot::C0, Some(Line::Junk), 1u8),
        (Slot::C1, Some(Line::Junk), 2u8),
        (Slot::C2, Some(Line::Junk), 1u8),
        (Slot::D0, Some(Line::Junk), 3u8),
        (Slot::D1, Some(Line::Junk), 3u8),
        (Slot::D2, Some(Line::Explosive), 2u8),
        (Slot::D3, Some(Line::Junk), 3u8),
        (Slot::E0, Some(Line::Junk), 3u8),
        (Slot::E2, Some(Line::Gem), 1u8),
    ]
}

/// Case 3's open corridors.
pub open spec fn case_3_doors() -> Seq<(Slot, Slot)> {
    seq![
        (Slot::B0, Slot::C1),
        (Slot::B1, Slot::C1),
        (Slot::C0, Slot::C1),
        (Slot::C0, Slot::D0),
        (Slot::C0, Slot::D1),
        (Slot::C1, Slot::D2),
        (Slot::C2, Slot::D3),
        (Slot::D0, Slot::E0),
        (Slot::D1, Slot::E1),
        (Slot::D2, Slot::D3),
        (Slot::D3, Slot::E2),
        (Slot::E1, Slot::E2),
    ]
}

/// Case 4's built rooms, as `(slot, line, tier)`.
pub open spec fn case_4_rooms() -> Seq<(Slot, Option<Line>, u8)> {
    seq![
        (Slot::B0, Some(Line::Junk), 3u8),
        (Slot::C0, Some(Line::Junk), 1u8),
        (Slot::C1, Some(Line::Junk), 3u8),
        (Slot::D0, Some(Line::Junk), 1u8),
        (Slot::D1, Some(Line::Junk), 3u8),
        (Slot::D2, Some(Line::Corruption), 2u8),
        (Slot::D3, Some(Line::Junk), 3u8),
        (Slot::E0, Some(Line::Gem), 1u8),
        (Slot::E2, Some(Line::Junk), 2u8),
    ]
}

/// Case 4's open corridors.
pub open spec fn case_4_doors() -> Seq<(Slot, Slot)> {
    seq![
        (Slot::A0, Slot::B0),
        (Slot::A0, Slot::B1),
        (Slot::B0, Slot::C1),
        (Slot::C0, Slot::D0),
        (Slot::C1, Slot::D1),
        (Slot::C2, Slot::D2),
        (Slot::C2, Slot::D3),
        (Slot::D1, Slot::E0),
        (Slot::D2, Slot::E1),
        (Slot::D2, Slot::D3),
        (Slot::D2, Slot::E2),
    ]
}

/// Case 5's built rooms, as `(slot, line, tier)`.
pub open spec fn case_5_rooms() -> Seq<(Slot, Option<Line>, u8)> {
    seq![
        (Slot::B1, Some(Line::Junk), 1u8),
        (Slot::C0, Some(Line::ToxicGrove), 1u8),
        (Slot::C1, Some(Line::Gem), 2u8),
        (Slot::C2, Some(Line::Junk), 1u8),
        (Slot::D0, Some(Line::Junk), 2u8),
        (Slot::D1, Some(Line::Explosive), 2u8),
        (Slot::D2, Some(Line::Junk), 3u8),
        (Slot::E0, Some(Line::Junk), 2u8),
    ]
}

/// Case 5's open corridors.
pub open spec fn case_5_doors() -> Seq<(Slot, Slot)> {
    seq![
        (Slot::C0, Slot::C1),
        (Slot::C0, Slot::D0),
        (Slot::B0, Slot::C1),
        (Slot::B1, Slot::C1),
        (Slot::C1, Slot::D2),
        (Slot::C2, Slot::D2),
        (Slot::D0, Slot::E0),
        (Slot::D1, Slot::D2),
        (Slot::D1, Slot::E1),
        (Slot::D2, Slot::D3),
        (Slot::D2, Slot::E2),
    ]
}

/// Case 6's built rooms, as `(slot, line, tier)`.
pub open spec fn case_6_rooms() -> Seq<(Slot, Option<Line>, u8)> {
    seq![
        (Slot::B0, Some(Line::Junk), 1u8),
        (Slot::B1, Some(Line::Corruption), 1u8),
        (Slot::D0, Some(Line::Junk), 2u8),
        (Slot::D2, Some(Line::Junk), 1u8),
    ]
}

/// Case 6's open corridors.
pub open spec fn case_6_doors() -> Seq<(Slot, Slot)> {
    seq![
        (Slot::C0, Slot::D1),
        (Slot::D0, Slot::D1),
        (Slot::D2, Slot::E1),
        (Slot::D2, Slot::E2),
        (Slot::E1, Slot::E2),
    ]
}

/// Case 7's built rooms, as `(slot, line, tier)`.
pub open spec fn case_7_rooms() -> Seq<(Slot, Option<Line>, u8)> {
    seq![
        (Slot::B0, Some(Line::HouseOfTheOthers), 1u8),
        (Slot::B1, Some(Line::WealthOfTheVaal), 1u8),
        (Slot::C1, Some(Line::ConduitOfLightning), 1u8),
        (Slot::C2, Some(Line::ChamberOfIron), 1u8),
        (Slot::D0, Some(Line::HallOfChampions), 1u8),
        (Slot::D1, Some(Line::ApexOfAscension), 1u8),
        (Slot::D2, Some(Line::StormOfCorruption), 1u8),
        (Slot::D3, Some(Line::Gem), 2u8),
        (Slot::E0, Some(Line::CourtOfSealedDeath), 3u8),
        (Slot::E2, Some(Line::HybridisationChamber), 3u8),
    ]
}

/// Case 7's open corridors.
pub open spec fn case_7_doors() -> Seq<(Slot, Slot)> {
    seq![
        (Slot::C0, Slot::D1),
        (Slot::D1, Slot::D2),
        (Slot::D2, Slot::D3),
        (Slot::D0, Slot::E0),
        (Slot::D1, Slot::E0),
        (Slot::D1, Slot::E1),
        (Slot::D2, Slot::E2),
    ]
}

/// Case 1, as its walk recorded it: the board, the player's place and
/// budget, both offers, the keys and the decision.
pub open spec fn is_case_1(r: Case) -> bool {
    &&& r.name@ == "1 Tombs"@
    &&& r.state.position == Some(Slot::D3)
    &&& r.state.remaining == 9
    &&& r.keys == 1
    &&& r.offers@.len() == 2
    &&& forall|i: int| 0 <= i < 13 ==> #[trigger] r.state.rooms[i] == listed_room(case_1_rooms(), i, 7)
    &&& forall|i: int, j: int| #[trigger] r.state.doors.holds_pair(i, j) == lists_pair(case_1_doors(), i, j)
    &&& r.state.last_visited is None
    &&& r.offers@[0].architect_name@ == "Ticaba"@ && r.offers@[0].kind == OfferKind::Change && r.offers@[0].printed_target@ == "Storage Room"@
    &&& r.offers@[1].architect_name@ == "Juatalotli"@ && r.offers@[1].kind == OfferKind::Change && r.offers@[1].printed_target@ == "Sparring Room"@
    &&& r.decision@ == "kill either; open D3-C2 (up, and merges two singletons)"@
}

/// Case 2, as its walk recorded it: the board, the player's place and
/// budget, both offers, the keys and the decision.
pub open spec fn is_case_2(r: Case) -> bool {
    &&& r.name@ == "2 CorruptionChamber"@
    &&& r.state.position == Some(Slot::B1)
    &&& r.state.remaining == 7
    &&& r.keys == 1
    &&& r.offers@.len() == 2
    &&& forall|i: int| 0 <= i < 13 ==> #[trigger] r.state.rooms[i] == listed_room(case_2_rooms(), i, 9)
    &&& forall|i: int, j: int| #[trigger] r.state.doors.holds_pair(i, j) == lists_pair(case_2_doors(), i, j)
    &&& r.state.last_visited is None
    &&& r.offers@[0].architect_name@ == "Azcapa"@ && r.offers@[0].kind == OfferKind::Upgrade && r.offers@[0].printed_target@ == "Catalyst of Corruption"@
    &&& r.offers@[1].architect_name@ == "Paquate"@ && r.offers@[1].kind == OfferKind::Change && r.offers@[1].printed_target@ == "Jeweller's Workshop"@
    &&& r.decision@ == "upgrade the corruption line; connect DOWN (B1-C1 or B1-C2)"@
}

/// Case 3, as its walk recorded it: the board, the player's place and
/// budget, both offers, the keys and the decision.
pub open spec fn is_case_3(r: Case) -> bool {
    &&& r.name@ == "3 Chasm-late"@
    &&& r.state.position == Some(Slot::B0)
    &&& r.state.remaining == 2
    &&& r.keys == 1
    &&& r.offers@.len() == 2
    &&& forall|i: int| 0 <= i < 13 ==> #[trigger] r.state.rooms[i] == listed_room(case_3_rooms(), i, 10)
    &&& forall|i: int, j: int| #[trigger] r.state.doors.holds_pair(i, j) == lists_pair(case_3_doors(), i, j)
    &&& r.state.last_visited is None
    &&& r.offers@[0].architect_name@ == "Xopec"@ && r.offers@[0].kind == OfferKind::Change && r.offers@[0].printed_target@ == "Royal Meeting Room"@
    &&& r.offers@[1].architect_name@ == "Xipocado"@ && r.offers@[1].kind == OfferKind::Change && r.offers@[1].printed_target@ == "Lightning Workshop"@
    &&& r.decision@ == "kill either; open B0-A0 (the Apex is finally free value)"@
}

/// Case 4, as its walk recorded it: the board, the player's place and
/// budget, both offers, the keys and the decision.
pub open spec fn is_case_4(r: Case) -> bool {
    &&& r.name@ == "4 Chasm-merge"@
    &&& r.state.position == Some(Slot::B1)
    &&& r.state.remaining == 5
    &&& r.keys == 1
    &&& r.offers@.len() == 2
    &&& forall|i: int| 0 <= i < 13 ==> #[trigger] r.state.rooms[i] == listed_room(case_4_rooms(), i, 9)
    &&& forall|i: int, j: int| #[trigger] r.state.doors.holds_pair(i, j) == lists_pair(case_4_doors(), i, j)
    &&& r.state.last_visited is None
    &&& r.offers@[0].architect_name@ == "Uromoti"@ && r.offers@[0].kind == OfferKind::Change && r.offers@[0].printed_target@ == "Hatchery"@
    &&& r.offers@[1].architect_name@ == "Citaqualotl"@ && r.offers@[1].kind == OfferKind::Change && r.offers@[1].printed_target@ == "Surveyor's Study"@
    &&& r.decision@ == "kill either; open B1-C2 (the only door that changes anything)"@
}

/// Case 5, as its walk recorded it: the board, the player's place and
/// budget, both offers, the keys and the decision.
pub open spec fn is_case_5(r: Case) -> bool {
    &&& r.name@ == "5 PoisonGarden"@
    &&& r.state.position == Some(Slot::C0)
    &&& r.state.remaining == 4
    &&& r.keys == 1
    &&& r.offers@.len() == 2
    &&& forall|i: int| 0 <= i < 13 ==> #[trigger] r.state.rooms[i] == listed_room(case_5_rooms(), i, 8)
    &&& forall|i: int, j: int| #[trigger] r.state.doors.holds_pair(i, j) == lists_pair(case_5_doors(), i, j)
    &&& r.state.last_visited is None
    &&& r.offers@[0].architect_name@ == "Quipolatl"@ && r.offers@[0].kind == OfferKind::Upgrade && r.offers@[0].printed_target@ == "Cultivar Chamber"@
    &&& r.offers@[1].architect_name@ == "Tacati"@ && r.offers@[1].kind == OfferKind::Change && r.offers@[1].printed_target@ == "Shrine of Empowerment"@
    &&& r.decision@ == "change to Sanctum of Unity II; open NO door (RU)"@
}

/// Case 6, as its walk recorded it: the board, the player's place and
/// budget, both offers, the keys and the decision.
pub open spec fn is_case_6(r: Case) -> bool {
    &&& r.name@ == "6 Cloister-blind"@
    &&& r.state.position == Some(Slot::D1)
    &&& r.state.remaining == 11
    &&& r.keys == 1
    &&& r.offers@.len() == 2
    &&& forall|i: int| 0 <= i < 13 ==> #[trigger] r.state.rooms[i] == listed_room(case_6_rooms(), i, 4)
    &&& forall|i: int, j: int| #[trigger] r.state.doors.holds_pair(i, j) == lists_pair(case_6_doors(), i, j)
    &&& r.state.last_visited is None
    &&& r.offers@[0].architect_name@ == "Ticaba"@ && r.offers@[0].kind == OfferKind::Change && r.offers@[0].printed_target@ == "Sparring Room"@
    &&& r.offers@[1].architect_name@ == "Juatalotli"@ && r.offers@[1].kind == OfferKind::Change && r.offers@[1].printed_target@ == "Storage Room"@
    &&& r.decision@ == "kill either; open D1-C1 (Cellar: one row up AND a singleton)"@
}

/// Case 7, as its walk recorded it: the board, the player's place and
/// budget, both offers, the keys and the decision.
pub open spec fn is_case_7(r: Case) -> bool {
    &&& r.name@ == "7 ArmourersWorkshop-PC"@
    &&& r.state.position == Some(Slot::C2)
    &&& r.state.remaining == 6
    &&& r.keys == 1
    &&& r.offers@.len() == 2
    &&& forall|i: int| 0 <= i < 13 ==> #[trigger] r.state.rooms[i] == listed_room(case_7_rooms(), i, 10)
    &&& forall|i: int, j: int| #[trigger] r.state.doors.holds_pair(i, j) == lists_pair(case_7_doors(), i, j)
    &&& r.state.last_visited is None
    &&& r.offers@[0].architect_name@ == "Quipolatl"@ && r.offers@[0].kind == OfferKind::Upgrade && r.offers@[0].printed_target@ == "Armoury"@
    &&& r.offers@[1].architect_name@ == "Atmohua"@ && r.offers@[1].kind == OfferKind::Change && r.offers@[1].printed_target@ == "Shrine of Empowerment"@
    &&& r.decision@ == "change → Sanctum of Unity (the overlay said upgrade → Armoury)"@
}

/// Case 1, 9 left, in Tombs (D3): fully isolated, both architects worthless. He opened toward
/// Chamber of Iron (C2): the only neighbour above Tombs, and a merge of two singletons.
pub fn case_1_tombs() -> (r: Case)
    ensures
        is_case_1(r),
{
    let rooms = [
            (Slot::B0, Some(Line::Junk), 1),
            (Slot::B1, Some(Line::Junk), 1),
            (Slot::C1, Some(Line::Explosive), 1),
            (Slot::C2, Some(Line::Junk), 3),
            (Slot::D0, Some(Line::Junk), 1),
            (Slot::E0, Some(Line::Gem), 1),
            (Slot::E2, Some(Line::Upgrade), 2),
    ];
    let doors = [(Slot::A0, Slot::B0), (Slot::B0, Slot::B1), (Slot::B1, Slot::C1), (Slot::C0, Slot::C1), (Slot::C0, Slot::D0), (Slot::C0, Slot::D1), (Slot::D1, Slot::E1), (Slot::D2, Slot::E2), (Slot::E1, Slot::E2)];
    assert(rooms@ =~= case_1_rooms());
    assert(doors@ =~= case_1_doors());
    Case {
        name: "1 Tombs",
        state: board(&rooms, &doors, Slot::D3, 9),
        offers: vec![
            offer("Ticaba", OfferKind::Change, "Storage Room"),
            offer("Juatalotli", OfferKind::Change, "Sparring Room"),
        ],
        keys: 1,
        decision: "kill either; open D3-C2 (up, and merges two singletons)",
    }
}

/// Case 2, 7 left, in Corruption Chamber I (B1): the trap. He opened the Apex and never got
/// back to connect the room. RV.
pub fn case_2_corruption_chamber() -> (r: Case)
    ensures
        is_case_2(r),
{
    let rooms = [
            (Slot::B1, Some(Line::Corruption), 1),
            (Slot::C0, Some(Line::Junk), 1),
            (Slot::C1, Some(Line::Junk), 1),
            (Slot::D0, Some(Line::Junk), 3),
            (Slot::D1, Some(Line::Junk), 3),
            (Slot::D2, Some(Line::Explosive), 2),
            (Slot::D3, Some(Line::Junk), 2),
            (Slot::E0, Some(Line::Junk), 1),
            (Slot::E2, Some(Line::Gem), 1),
    ];
    let doors = [(Slot::C0, Slot::C1), (Slot::C0, Slot::D0), (Slot::C0, Slot::D1), (Slot::C1, Slot::D2), (Slot::C2, Slot::D3), (Slot::D0, Slot::E0), (Slot::D1, Slot::E1), (Slot::D2, Slot::D3), (Slot::D3, Slot::E2), (Slot::E1, Slot::E2)];
    assert(rooms@ =~= case_2_rooms());
    assert(doors@ =~= case_2_doors());
    Case {
        name: "2 CorruptionChamber",
        state: board(&rooms, &doors, Slot::B1, 7),
        offers: vec![
            offer("Azcapa", OfferKind::Upgrade, "Catalyst of Corruption"),
            offer("Paquate", OfferKind::Change, "Jeweller's Workshop"),
        ],
        keys: 1,
        decision: "upgrade the corruption line; connect DOWN (B1-C1 or B1-C2)",
    }
}

/// Case 3, 2 left, in Chasm (B0): the inverse of case 2 on the same door. The Locus is banked
/// and connected, so nothing outranks the Apex any more.
pub fn case_3_chasm_late() -> (r: Case)
    ensures
        is_case_3(r),
{
    let rooms = [
            (Slot::B1, Some(Line::Corruption), 3),
            (Slot::C0, Some(Line::Junk), 1),
            (Slot::C1, Some(Line::Junk), 2),
            (Slot::C2, Some(Line::Junk), 1),
            (Slot::D0, Some(Line::Junk), 3),
            (Slot::D1, Some(Line::Junk), 3),
            (Slot::D2, Some(Line::Explosive), 2),
            (Slot::D3, Some(Line::Junk), 3),
            (Slot::E0, Some(Line::Junk), 3),
            (Slot::E2, Some(Line::Gem), 1),
    ];
    let doors = [(Slot::B0, Slot::C1), (Slot::B1, Slot::C1), (Slot::C0, Slot::C1), (Slot::C0, Slot::D0), (Slot::C0, Slot::D1), (Slot::C1, Slot::D2), (Slot::C2, Slot::D3), (Slot::D0, Slot::E0), (Slot::D1, Slot::E1), (Slot::D2, Slot::D3), (Slot::D3, Slot::E2), (Slot::E1, Slot::E2)];
    assert(rooms@ =~= case_3_rooms());
    assert(doors@ =~= case_3_doors());
    Case {
        name: "3 Chasm-late",
        state: board(&rooms, &doors, Slot::B0, 2),
        offers: vec![
            offer("Xopec", OfferKind::Change, "Royal Meeting Room"),
            offer("Xipocado", OfferKind::Change, "Lightning Workshop"),
        ],
        keys: 1,
        decision: "kill either; open B0-A0 (the Apex is finally free value)",
    }
}

/// Case 4, 5 left, in Chasm (B1): the only viable pick. The other two doors join rooms already
/// in his own component, so they change nothing at all.
pub fn case_4_chasm_merge() -> (r: Case)
    ensures
        is_case_4(r),
{
    let rooms = [
            (Slot::B0, Some(Line::Junk), 3),
            (Slot::C0, Some(Line::Junk), 1),
            (Slot::C1, Some(Line::Junk), 3),
            (Slot::D0, Some(Line::Junk), 1),
            (Slot::D1, Some(Line::Junk), 3),
            (Slot::D2, Some(Line::Corruption), 2),
            (Slot::D3, Some(Line::Junk), 3),
            (Slot::E0, Some(Line::Gem), 1),
            (Slot::E2, Some(Line::Junk), 2),
    ];
    let doors = [(Slot::A0, Slot::B0), (Slot::A0, Slot::B1), (Slot::B0, Slot::C1), (Slot::C0, Slot::D0), (Slot::C1, Slot::D1), (Slot::C2, Slot::D2), (Slot::C2, Slot::D3), (Slot::D1, Slot::E0), (Slot::D2, Slot::E1), (Slot::D2, Slot::D3), (Slot::D2, Slot::E2)];
    assert(rooms@ =~= case_4_rooms());
    assert(doors@ =~= case_4_doors());
    Case {
        name: "4 Chasm-merge",
        state: board(&rooms, &doors, Slot::B1, 5),
        offers: vec![
            offer("Uromoti", OfferKind::Change, "Hatchery"),
            offer("Citaqualotl", OfferKind::Change, "Surveyor's Study"),
        ],
        keys: 1,
        decision: "kill either; open B1-C2 (the only door that changes anything)",
    }
}

/// Case 5, 4 left, in Poison Garden I (C0): connectivity as a liability. The change yields
/// Sanctum of Unity II, which upgrades two random connected neighbours, and C0 has exactly
/// two: a third door would turn a certainty into 2-of-3.
pub fn case_5_poison_garden() -> (r: Case)
    ensures
        is_case_5(r),
{
    let rooms = [
            (Slot::B1, Some(Line::Junk), 1),
            (Slot::C0, Some(Line::ToxicGrove), 1),
            (Slot::C1, Some(Line::Gem), 2),
            (Slot::C2, Some(Line::Junk), 1),
            (Slot::D0, Some(Line::Junk), 2),
            (Slot::D1, Some(Line::Explosive), 2),
            (Slot::D2, Some(Line::Junk), 3),
            (Slot::E0, Some(Line::Junk), 2),
    ];
    let doors = [(Slot::C0, Slot::C1), (Slot::C0, Slot::D0), (Slot::B0, Slot::C1), (Slot::B1, Slot::C1), (Slot::C1, Slot::D2), (Slot::C2, Slot::D2), (Slot::D0, Slot::E0), (Slot::D1, Slot::D2), (Slot::D1, Slot::E1), (Slot::D2, Slot::D3), (Slot::D2, Slot::E2)];
    assert(rooms@ =~= case_5_rooms());
    assert(doors@ =~= case_5_doors());
    Case {
        name: "5 PoisonGarden",
        state: board(&rooms, &doors, Slot::C0, 4),
        offers: vec![
            offer("Quipolatl", OfferKind::Upgrade, "Cultivar Chamber"),
            offer("Tacati", OfferKind::Change, "Shrine of Empowerment"),
        ],
        keys: 1,
        decision: "change to Sanctum of Unity II; open NO door (RU)",
    }
}

/// Case 6, 11 left, in Cloister (D1), answered blind: the Cellar (C1) was confirmed, for R1
/// and R2 together: one row up, and a singleton.
pub fn case_6_cloister() -> (r: Case)
    ensures
        is_case_6(r),
{
    let rooms = [
            (Slot::B0, Some(Line::Junk), 1),
            (Slot::B1, Some(Line::Corruption), 1),
            (Slot::D0, Some(Line::Junk), 2),
            (Slot::D2, Some(Line::Junk), 1),
    ];
    let doors = [(Slot::C0, Slot::D1), (Slot::D0, Slot::D1), (Slot::D2, Slot::E1), (Slot::D2, Slot::E2), (Slot::E1, Slot::E2)];
    assert(rooms@ =~= case_6_rooms());
    assert(doors@ =~= case_6_doors());
    Case {
        name: "6 Cloister-blind",
        state: board(&rooms, &doors, Slot::D1, 11),
        offers: vec![
            offer("Ticaba", OfferKind::Change, "Sparring Room"),
            offer("Juatalotli", OfferKind::Change, "Storage Room"),
        ],
        keys: 1,
        decision: "kill either; open D1-C1 (Cellar: one row up AND a singleton)",
    }
}

/// Case 7, 6 left, in Armourer's Workshop I (C2): a regression fixture for the ranking, not a
/// walked decision. With both blocks read the change, which builds Sanctum of Unity II off a
/// tier-1 room, is not close to the upgrade to a tier-2 Armoury.
pub fn case_7_armourers_workshop() -> (r: Case)
    ensures
        is_case_7(r),
{
    let rooms = [
            (Slot::B0, Some(Line::HouseOfTheOthers), 1),
            (Slot::B1, Some(Line::WealthOfTheVaal), 1),
            (Slot::C1, Some(Line::ConduitOfLightning), 1),
            (Slot::C2, Some(Line::ChamberOfIron), 1),
            (Slot::D0, Some(Line::HallOfChampions), 1),
            (Slot::D1, Some(Line::ApexOfAscension), 1),
            (Slot::D2, Some(Line::StormOfCorruption), 1),
            (Slot::D3, Some(Line::Gem), 2),
            (Slot::E0, Some(Line::CourtOfSealedDeath), 3),
            (Slot::E2, Some(Line::HybridisationChamber), 3),
    ];
    let doors = [(Slot::C0, Slot::D1), (Slot::D1, Slot::D2), (Slot::D2, Slot::D3), (Slot::D0, Slot::E0), (Slot::D1, Slot::E0), (Slot::D1, Slot::E1), (Slot::D2, Slot::E2)];
    assert(rooms@ =~= case_7_rooms());
    assert(doors@ =~= case_7_doors());
    Case {
        name: "7 ArmourersWorkshop-PC",
        state: board(&rooms, &doors, Slot::C2, 6),
        offers: vec![
            offer("Quipolatl", OfferKind::Upgrade, "Armoury"),
            offer("Atmohua", OfferKind::Change, "Shrine of Empowerment"),
        ],
        keys: 1,
        decision: "change → Sanctum of Unity (the overlay said upgrade → Armoury)",
    }
}

/// The six walked boards, in order. The seventh records what the app got
/// wrong rather than what the player decided, so it is not among them.
pub fn retrospective() -> (r: Vec<Case>)
    ensures
        r@.len() == 6,
        is_case_1(r@[0]),
        is_case_2(r@[1]),
        is_case_3(r@[2]),
        is_case_4(r@[3]),
        is_case_5(r@[4]),
        is_case_6(r@[5]),
{
    vec![
        case_1_tombs(),
        case_2_corruption_chamber(),
        case_3_chasm_late(),
        case_4_chasm_merge(),
        case_5_poison_garden(),
        case_6_cloister(),
    ]
}

} // verus!
