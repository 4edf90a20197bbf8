use temple::advice::{map_action, read_warnings, MapAction, OfferOutcome, Warning};
use temple::cases::{
    case_1_tombs, case_2_corruption_chamber, case_3_chasm_late, case_4_chasm_merge, case_5_poison_garden,
    case_6_cloister, case_7_armourers_workshop, retrospective,
};
use temple::doorset::DoorSet;
use temple::drops::{Basis, Slot as ItemSlot, Worth};
use temple::dump::{dump_block, dump_name, DEBUG_DIR};
use temple::fixtures::{board, doors, junk_offers, offer, opened_toward};
use temple::lattice::Slot::{B0, B1, C0, C1, C2, D1, D2, D3, E1, E2};
use temple::lattice::Edge;
use temple::markers::{apply_markers, Marker, SealError};
use temple::reading::TempleLayout;
use temple::rollout::Valuation;
use temple::rules::{door_sets, evaluate_rules, ArchitectChoice, Decision, Reason, RuleFlags};
use temple::search::{fine_window_for_test, FINE_RADIUS};
use temple::strategy::{Line, OfferKind, Tier};

fn rush() -> Valuation {
    Valuation::new(&vec![], &vec![Line::Corruption, Line::Gem])
}

fn kill(kind: OfferKind, line: Line, tier: Tier) -> ArchitectChoice {
    ArchitectChoice {
        offer_index: 0,
        architect_name: "Paquate".to_string(),
        kind,
        line,
        built_tier: tier,
        display_name: "Locus of Corruption",
    }
}

#[test]
fn every_slot_has_a_unique_snake_case_wire_name() {
    let slots = [
        (ItemSlot::Helmet, "helmet"),
        (ItemSlot::BodyArmour, "body_armour"),
        (ItemSlot::Gloves, "gloves"),
        (ItemSlot::Boots, "boots"),
        (ItemSlot::Amulet, "amulet"),
        (ItemSlot::Ring, "ring"),
        (ItemSlot::Belt, "belt"),
        (ItemSlot::Shield, "shield"),
        (ItemSlot::Weapon, "weapon"),
    ];
    for (slot, expected) in slots {
        let actual = slot.as_str();
        assert_eq!(actual, expected, "{slot:?} wire name");
    }
}

#[test]
fn every_worth_has_its_own_wire_spelling() {
    let worths = [(Worth::Good, "good"), (Worth::Junk, "junk"), (Worth::Neutral, "neutral")];
    for (worth, expected) in worths {
        assert_eq!(worth.as_str(), expected, "{worth:?} wire name");
    }
}

#[test]
fn a_basis_names_its_source_and_whether_it_is_a_guess() {
    let measured = Basis::Measured { source: "poedb, 2026-09-01" };
    let guess = Basis::Guess { source: "Sebastian, 2026-08-03" };
    assert_eq!(measured.source(), "poedb, 2026-09-01");
    assert_eq!(guess.source(), "Sebastian, 2026-08-03");
    assert!(!measured.is_guess());
    assert!(guess.is_guess());
}

#[test]
fn each_dump_gets_its_own_directory_name() {
    assert_ne!(dump_name(1), dump_name(2));
    assert_eq!(dump_name(1788438639673), "1788438639673");
    assert_eq!(dump_name(0), "0");
    assert_eq!(DEBUG_DIR, "temple-debug");
}

#[test]
fn a_dumped_block_spells_its_kind_as_the_wire_string() {
    let block = dump_block("Atmohua", OfferKind::Change, "Shrine of Empowerment", None);
    assert_eq!(block.kind, "change");
    assert_eq!(block.architect_name, "Atmohua");
    assert_eq!(block.rect, None);
    assert_eq!(dump_block("Quipolatl", OfferKind::Upgrade, "Armoury", Some([1, 2, 3, 4])).kind, "upgrade");
}

#[test]
fn the_fine_window_is_the_radius_around_the_nominee() {
    let side = (2 * FINE_RADIUS + 1) as usize;
    let (x0, y0, x1, y1) = fine_window_for_test((200, 150));
    assert_eq!(((x1 - x0 + 1) as usize) * ((y1 - y0 + 1) as usize), side * side, "fine window {:?}", (x0, y0, x1, y1));
    assert_eq!((x0, y0), (188, 138));
}

#[test]
fn every_warning_describes_itself() {
    assert_eq!(
        Warning::PartialArchitects { read: 0, expected: 2 }.describe(),
        "no architect block was read — the panel prints 2, so only the door advice is modelled"
    );
    assert_eq!(
        Warning::PartialArchitects { read: 1, expected: 2 }.describe(),
        "1 of 2 architects read — the kill shown is forced, not chosen"
    );
    assert_eq!(
        Warning::UnresolvedOffer { printed: "Storage \"Room\"".to_string() }.describe(),
        "architect target \"Storage \\\"Room\\\"\" is not a known room"
    );
    assert_eq!(Warning::KeysUnspendable { keys: 2, usable: 1 }.describe(), "2 keys but only 1 corridors worth opening");
    assert_eq!(
        Warning::CurrentRoomDisagreement { title: "Tombs", plate: "Cellar" }.describe(),
        "the side panel says \"Tombs\" but the current plate says \"Cellar\"; the plate is used"
    );
    assert_eq!(Warning::NoPosition.describe(), "no current room on the panel — nothing to decide");
    assert_eq!(
        Warning::UnknownCurrentTier.describe(),
        "current room tier unknown — cannot resolve a 'change' offer"
    );
}

#[test]
fn a_decision_names_its_kill_and_its_doors() {
    let mut both = DoorSet::new();
    both.insert(Edge::new(C1, C2));
    both.insert(Edge::new(B0, C1));
    let decision = Decision { architect: Some(kill(OfferKind::Upgrade, Line::Corruption, Tier::T2)), doors: both };
    assert_eq!(decision.headline(), "upgrade → Locus of Corruption");
    assert_eq!(decision.doors_label(), "B0-C1, C1-C2");
    let nothing = Decision { architect: None, doors: DoorSet::new() };
    assert_eq!(nothing.headline(), "kill either");
    assert_eq!(nothing.doors_label(), "no door");
}

#[test]
fn r5_leaves_the_map_after_the_chased_line_is_used_below_tier_three() {
    let state = board(&[(D1, Some(Line::Junk), 1)], &[(D1, E1), (E1, E2)], D1, 8);
    let locus = kill(OfferKind::Change, Line::Corruption, Tier::T2);
    assert_eq!(map_action(&state, Some(&locus), true, true, &rush()), MapAction::LeaveMap);
    assert_eq!(map_action(&state, Some(&locus), true, false, &rush()), MapAction::Continue, "the scarab keeps the player in");
    assert_eq!(map_action(&state, Some(&locus), false, true, &rush()), MapAction::Continue, "scarab mode never leaves");
    let maxed = kill(OfferKind::Upgrade, Line::Corruption, Tier::T3);
    assert_eq!(map_action(&state, Some(&maxed), true, true, &rush()), MapAction::Continue);
    let junk = kill(OfferKind::Change, Line::Junk, Tier::T2);
    assert_eq!(map_action(&state, Some(&junk), true, true, &rush()), MapAction::Continue);
    assert_eq!(map_action(&state, None, true, true, &rush()), MapAction::Continue);
}

#[test]
fn r5_stays_when_the_entrance_already_holds_the_line_at_tier_three() {
    let state = board(&[(D1, Some(Line::Junk), 1), (E2, Some(Line::Corruption), 3)], &[(D1, E1), (E1, E2)], D1, 8);
    let locus = kill(OfferKind::Change, Line::Corruption, Tier::T2);
    assert_eq!(map_action(&state, Some(&locus), true, true, &rush()), MapAction::Continue);
}

#[test]
fn the_seals_settle_the_current_rooms_corridors() {
    let mut open = DoorSet::new();
    open.insert(Edge::new(D1, E1));
    open.insert(Edge::new(C1, D1));
    let mut uncertain = DoorSet::new();
    uncertain.insert(Edge::new(C1, D1));
    uncertain.insert(Edge::new(C1, C2));
    let layout = TempleLayout { current: Some(C1), doors: open, uncertain };
    let seal = |open| Marker { position: (0, 0), open };
    let assigned = vec![(D1, seal(false)), (C2, seal(true))];
    let settled = apply_markers(&layout, &assigned);
    let mut expected = DoorSet::new();
    expected.insert(Edge::new(D1, E1));
    expected.insert(Edge::new(C1, C2));
    assert_eq!(settled, Ok(expected), "the seals win over an uncertain beam read");
}

#[test]
fn a_confident_beam_read_that_contradicts_its_seal_is_an_error() {
    let mut open = DoorSet::new();
    open.insert(Edge::new(C1, D1));
    let layout = TempleLayout { current: Some(C1), doors: open, uncertain: DoorSet::new() };
    let assigned = vec![(D1, Marker { position: (3, 4), open: false })];
    assert_eq!(
        apply_markers(&layout, &assigned),
        Err(SealError::BeamDisagreement { edge: Edge::new(C1, D1), beam_open: true })
    );
    let between = TempleLayout { current: None, doors: DoorSet::new(), uncertain: DoorSet::new() };
    assert_eq!(apply_markers(&between, &assigned), Err(SealError::NoCurrentRoom));
}

#[test]
fn the_fixtures_build_what_they_list() {
    let state = board(&[(C1, Some(Line::Gem), 2)], &[(C1, D1)], C1, 5);
    assert_eq!(state.rooms[C1.index()], (Some(Line::Gem), Tier::T2));
    assert_eq!(state.rooms[C0.index()], (None, Tier::T0));
    assert!(state.doors.contains(Edge::new(D1, C1)));
    assert_eq!(state.position, Some(C1));
    assert_eq!(state.remaining, 5);
    let offers = junk_offers();
    assert_eq!(offers.len(), 2);
    assert_eq!(offers[0].printed_target, "Storage Room");
    assert_eq!(offer("Tacati", OfferKind::Change, "Shrine of Empowerment").architect_name, "Tacati");
    assert_eq!(opened_toward(&doors(&[(C2, D3), (B1, D3)]), D3), vec![B1, C2], "far ends, in board order");
}

#[test]
fn the_retrospective_lists_the_six_walked_boards() {
    let names: Vec<&str> = retrospective().iter().map(|c| c.name).collect();
    assert_eq!(
        names,
        vec!["1 Tombs", "2 CorruptionChamber", "3 Chasm-late", "4 Chasm-merge", "5 PoisonGarden", "6 Cloister-blind"]
    );
    assert_eq!(case_7_armourers_workshop().state.position, Some(C2));
}

#[test]
fn case_four_offers_only_the_door_that_changes_a_component() {
    let case = case_4_chasm_merge();
    let sets = door_sets(&case.state, B1, case.keys);
    let offered: Vec<Vec<_>> = sets.iter().map(|set| opened_toward(set, B1)).collect();
    assert_eq!(offered, vec![vec![], vec![C2]]);
}

#[test]
fn case_five_declines_every_key_once_the_sanctum_is_built() {
    let case = case_5_poison_garden();
    let sanctum = kill(OfferKind::Change, Line::Upgrade, Tier::T2);
    let flags = RuleFlags { reroll_until_favourable: false, r4_keep_upgrade_targets: true };
    let verdict = evaluate_rules(&case.state, C0, Some(&sanctum), &DoorSet::new(), case.keys, &flags, &rush());
    assert!(verdict.reasons.contains(&Reason::RuDeclined { slot: C0 }) || verdict.reasons.contains(&Reason::NoUsableDoor));
}

#[test]
fn case_one_opens_upward_into_the_singleton() {
    let case = case_1_tombs();
    let sets = door_sets(&case.state, D3, case.keys);
    let offered: Vec<Vec<_>> = sets.iter().map(|set| opened_toward(set, D3)).collect();
    assert!(offered.contains(&vec![C2]));
    assert_eq!(case.state.remaining, 9);
    assert_eq!(case_2_corruption_chamber().state.position, Some(B1));
    assert_eq!(case_3_chasm_late().keys, 1);
    assert_eq!(case_6_cloister().state.position, Some(D1));
    let _ = D2;
}

#[test]
fn the_warnings_name_what_the_read_left_unknown() {
    let here = board(&[(C1, Some(Line::Junk), 1)], &[(C1, D1)], C1, 0);
    assert_eq!(
        read_warnings(&here, None, &vec![OfferOutcome::Built], true, 2, 1),
        vec![
            Warning::NoBudget,
            Warning::PartialArchitects { read: 1, expected: 2 },
            Warning::KeysUnspendable { keys: 2, usable: 1 },
        ]
    );
    let mut between = here.clone();
    between.position = None;
    assert_eq!(
        read_warnings(&between, Some(("Tombs", "Cellar")), &vec![], true, 1, 0),
        vec![
            Warning::NoBudget,
            Warning::CurrentRoomDisagreement { title: "Tombs", plate: "Cellar" },
            Warning::NoPosition,
        ]
    );
    let budget = board(&[(C1, Some(Line::Junk), 1)], &[(C1, D1)], C1, 5);
    let both = vec![OfferOutcome::Built, OfferOutcome::Built];
    assert_eq!(read_warnings(&budget, None, &both, true, 1, 1), vec![]);
    assert_eq!(read_warnings(&budget, None, &vec![], false, 1, 1), vec![], "no panel on screen, nothing partial");
    let unreadable = |printed: &str| OfferOutcome::UnknownName { printed: printed.to_string() };
    assert_eq!(
        read_warnings(&budget, None, &vec![unreadable("Nobody"), unreadable("Definitely Not A Room")], true, 1, 1),
        vec![
            Warning::UnresolvedOffer { printed: "Nobody".to_string() },
            Warning::UnresolvedOffer { printed: "Definitely Not A Room".to_string() },
            Warning::UnresolvedArchitects,
        ]
    );
    assert_eq!(
        read_warnings(&budget, None, &vec![OfferOutcome::UnknownCurrentTier, OfferOutcome::Built], true, 1, 1),
        vec![Warning::UnknownCurrentTier],
        "an unknown tier is the true reason, not an unreadable target"
    );
}

#[test]
fn resolution_warnings_come_in_block_order_and_the_unknown_tier_once() {
    let budget = board(&[(C1, Some(Line::Junk), 1)], &[(C1, D1)], C1, 5);
    let unreadable = OfferOutcome::UnknownName { printed: "Definitely Not A Room".to_string() };
    let named = Warning::UnresolvedOffer { printed: "Definitely Not A Room".to_string() };
    assert_eq!(
        read_warnings(&budget, None, &vec![unreadable.clone(), OfferOutcome::UnknownCurrentTier], true, 1, 1),
        vec![named.clone(), Warning::UnknownCurrentTier],
        "nothing resolved, but the unknown tier already says why"
    );
    assert_eq!(
        read_warnings(
            &budget,
            None,
            &vec![OfferOutcome::UnknownCurrentTier, unreadable, OfferOutcome::UnknownCurrentTier],
            true,
            1,
            1
        ),
        vec![Warning::UnknownCurrentTier, named],
    );
}
