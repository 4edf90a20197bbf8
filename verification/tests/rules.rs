use temple::doorset::DoorSet;
use temple::fixtures::doors;
use temple::lattice::Slot::{A0, B0, B1, C0, C1, C2, D0, D1, D2, D3, E1, E2};
use temple::lattice::{Edge, Slot};
use temple::rollout::Valuation;
use temple::rules::{
    door_sets, evaluate_rules, rv_connectable, rv_verdict, ArchitectChoice, DoorKey, Reason, RuleFlags,
    RuleVerdict, RvVerdict,
};
use temple::state::BoardState;
use temple::strategy::{Line, OfferKind, Tier};

fn rush() -> RuleFlags {
    RuleFlags { reroll_until_favourable: false, r4_keep_upgrade_targets: true }
}

fn valuation() -> Valuation {
    Valuation::new(&vec![], &vec![Line::Corruption, Line::Gem])
}

fn board(rooms: &[(Slot, Line, u8)], open: &[(Slot, Slot)]) -> BoardState {
    let mut state = BoardState::empty();
    for (slot, line, tier) in rooms {
        state.set_room(*slot, Some(*line), Tier::new(*tier).expect("0..=3"));
    }
    state.doors = doors(open);
    state
}

fn choice(kind: OfferKind, line: Line, tier: u8) -> ArchitectChoice {
    ArchitectChoice {
        offer_index: 0,
        architect_name: "Ticaba".to_string(),
        kind,
        line,
        built_tier: Tier::new(tier).expect("0..=3"),
        display_name: "test room",
    }
}

fn verdict(state: &BoardState, position: Slot, architect: Option<&ArchitectChoice>, open: &[(Slot, Slot)]) -> RuleVerdict {
    verdict_with(state, position, architect, open, 1, &rush())
}

fn verdict_with(
    state: &BoardState,
    position: Slot,
    architect: Option<&ArchitectChoice>,
    open: &[(Slot, Slot)],
    keys: u8,
    flags: &RuleFlags,
) -> RuleVerdict {
    evaluate_rules(state, position, architect, &doors(open), keys, flags, &valuation())
}

fn far(sets: &[DoorSet], from: Slot) -> Vec<Vec<Slot>> {
    sets.iter()
        .map(|set| {
            set.edges()
                .into_iter()
                .map(|e| {
                    let (a, b) = e.ends();
                    if a == from {
                        b
                    } else {
                        a
                    }
                })
                .collect()
        })
        .collect()
}

fn one(a: Slot, b: Slot) -> DoorSet {
    doors(&[(a, b)])
}

#[test]
fn a_corridor_between_two_rooms_of_one_component_is_never_offered() {
    let state = board(&[], &[(C1, D2), (D1, D2)]);
    let offered = far(&door_sets(&state, C1, 1), C1);
    assert!(!offered.contains(&vec![D1]), "pointless corridor offered: {offered:?}");
    assert!(offered.contains(&vec![B0]), "a corridor that does change a component must survive: {offered:?}");
}

#[test]
fn opening_nothing_is_always_among_the_legal_sets() {
    assert_eq!(door_sets(&board(&[], &[]), C1, 0), vec![DoorSet::new()]);
    assert!(door_sets(&board(&[], &[]), C1, 2).contains(&DoorSet::new()));
}

#[test]
fn the_key_count_caps_the_size_of_a_door_set() {
    let state = board(&[], &[]);
    assert!(door_sets(&state, C1, 1).iter().all(|set| set.len() <= 1));
    assert!(door_sets(&state, C1, 2).iter().any(|set| set.len() == 2));
}

#[test]
fn a_pair_of_doors_into_one_component_is_dropped_as_redundant() {
    let state = board(&[], &[(D1, D2)]);
    let offered = far(&door_sets(&state, C1, 2), C1);
    for set in &offered {
        assert!(!(set.contains(&D1) && set.contains(&D2)), "redundant pair offered: {set:?}");
    }
    assert!(offered.contains(&vec![B0, D1]), "two distinct merges must still be offered: {offered:?}");
}

#[test]
fn rv_is_silent_while_the_current_room_is_in_the_entrance_component() {
    let state = board(&[(D1, Line::Corruption, 1)], &[(D1, E1)]);
    let verdict = rv_verdict(&state, D1, Some(Line::Corruption), &one(D1, C1), &valuation(), true);
    assert_eq!(verdict, RvVerdict::Allowed(None));
}

#[test]
fn rv_keeps_only_the_doors_that_shorten_the_walk_to_the_entrance() {
    let state = board(&[(B1, Line::Corruption, 1)], &[(C1, D1), (D1, E1)]);
    let down = rv_verdict(&state, B1, Some(Line::Corruption), &one(B1, C1), &valuation(), true);
    assert!(matches!(down, RvVerdict::Allowed(Some(Reason::Rv { before: None, after: Some(1), .. }))));
    let apex = rv_verdict(&state, B1, Some(Line::Corruption), &one(B1, A0), &valuation(), true);
    assert!(matches!(apex, RvVerdict::Gamble(Reason::RvGamble { .. })));
}

#[test]
fn rv_has_no_opinion_when_no_door_set_can_shorten_the_walk() {
    let state = board(&[(B1, Line::Corruption, 1)], &[(C1, D1), (D1, E1)]);
    let apex = rv_verdict(&state, B1, Some(Line::Corruption), &one(B1, A0), &valuation(), false);
    assert_eq!(apex, RvVerdict::Allowed(None));
}

#[test]
fn rv_is_connectable_only_while_some_enumerated_set_shortens_the_walk() {
    let state = board(&[(B1, Line::Corruption, 1)], &[(C1, D1), (D1, E1)]);
    assert!(!rv_connectable(&state, B1, &door_sets(&state, B1, 0)));
    assert!(rv_connectable(&state, B1, &door_sets(&state, B1, 1)));

    let boxed_in = board(&[(B1, Line::Corruption, 1)], &[(B1, C1), (C1, C2), (B0, C1), (A0, B0)]);
    assert!(!rv_connectable(&boxed_in, B1, &door_sets(&boxed_in, B1, 1)));
}

#[test]
fn rv_is_silent_when_the_kill_does_not_build_a_target_line() {
    let state = board(&[(B1, Line::Corruption, 1)], &[(C1, D1), (D1, E1)]);
    let verdict = rv_verdict(&state, B1, Some(Line::GlitteringHalls), &one(B1, A0), &valuation(), true);
    assert_eq!(verdict, RvVerdict::Allowed(None));
}

#[test]
fn the_door_key_orders_rv_above_ru_above_r1_apex_above_rd() {
    let base = DoorKey { connects_value: 0, ru_ok: 1, r1_apex: 0, opens: 1, r2: -4, r1_gradient: -2, rs: -3 };
    let rv = DoorKey { connects_value: 1, ru_ok: 0, r1_apex: 0, opens: 0, r2: -99, r1_gradient: -9, rs: -9 };
    assert!(rv > base, "RV outranks every scarcity rule, RU included");
    let diluting = DoorKey { ru_ok: 0, r1_apex: 9, ..base };
    assert!(base > diluting, "RU vetoes an Apex door that dilutes a shrine");
    let nothing = DoorKey { opens: 0, r2: 0, r1_gradient: 0, rs: 0, ..base };
    assert!(base > nothing, "RD: opening something beats opening nothing");
    let both_keys = DoorKey { opens: 2, r2: -20, ..base };
    assert!(both_keys > base, "keys are use-it-or-lose-it");
    let apex_one_key = DoorKey { r1_apex: 1, ..base };
    assert!(
        apex_one_key > both_keys,
        "one key on the Apex corridor beats two keys on corridors that are not scarce"
    );
}

#[test]
fn r2_ranks_a_generic_merge_below_a_singleton_attach() {
    let state = board(&[], &[(B0, C0), (C0, D0), (D0, Slot::E0), (D1, E1), (E1, E2)]);
    let singleton = verdict(&state, D3, None, &[(D3, C2)]);
    let merge = verdict(&state, D3, None, &[(D3, E2)]);
    assert!(singleton.door > merge.door, "singleton {:?} should outrank merge {:?}", singleton.door, merge.door);
    assert_eq!(singleton.door.r2, -2, "two singletons");
    assert_eq!(merge.door.r2, -4, "one room into a three-room cluster");
}

#[test]
fn rs_scores_the_far_end_of_the_corridor_not_the_room_you_stand_in() {
    let state = board(&[], &[]);
    let scarce = verdict(&state, C2, None, &[(C2, D3)]);
    let common = verdict(&state, C2, None, &[(C2, D2)]);
    assert_eq!(scarce.door.rs, -3, "D3 has three lattice neighbours");
    assert_eq!(common.door.rs, -6, "D2 has six");
    assert!(scarce.door.rs > common.door.rs, "the scarcer far end wins: {:?} vs {:?}", scarce.door, common.door);
}

#[test]
fn ru_is_silent_while_a_shrine_has_fewer_connections_than_picks() {
    let state = board(&[(C1, Line::Upgrade, 2), (C0, Line::Gem, 2)], &[(C0, C1)]);
    let verdict = verdict(&state, D1, None, &[(D1, C1)]);
    assert_eq!(verdict.door.ru_ok, 1);
}

#[test]
fn ru_vetoes_a_door_that_pushes_a_shrine_past_its_pick_count() {
    let state = board(&[(C1, Line::Upgrade, 1), (C0, Line::Gem, 2)], &[(C0, C1)]);
    let verdict = verdict(&state, D1, None, &[(D1, C1)]);
    assert_eq!(verdict.door.ru_ok, 0);
    assert!(verdict
        .reasons
        .iter()
        .any(|r| matches!(r, Reason::Ru { slot: C1, targets: 1, connected: 2 })));
}

#[test]
fn ru_is_silent_for_a_temple_nexus() {
    let state = board(&[(C1, Line::Upgrade, 3), (C0, Line::Gem, 2)], &[(C0, C1)]);
    assert_eq!(verdict(&state, D1, None, &[(D1, C1)]).door.ru_ok, 1);
}

#[test]
fn ru_sees_the_shrine_the_architect_is_about_to_build() {
    let state = board(
        &[(C0, Line::ToxicGrove, 1), (C1, Line::Gem, 2), (D0, Line::Junk, 1)],
        &[(C0, C1), (C0, D0)],
    );
    let sanctum = choice(OfferKind::Change, Line::Upgrade, 2);
    assert_eq!(
        verdict(&state, C0, Some(&sanctum), &[(C0, B0)]).door.ru_ok,
        0,
        "a third connection turns 2-of-2 into 2-of-3"
    );
    let junk = choice(OfferKind::Change, Line::MuseumOfArtefacts, 2);
    assert_eq!(
        verdict(&state, C0, Some(&junk), &[(C0, B0)]).door.ru_ok,
        1,
        "without the Sanctum there is nothing to dilute"
    );
}

#[test]
fn no_key_dropped_is_told_apart_from_a_key_with_nowhere_to_spend_it() {
    let boxed_in = board(&[], &[(B1, C1), (C1, C2), (B0, C1), (A0, B0)]);
    let none = verdict_with(&boxed_in, B1, None, &[], 0, &rush());
    assert!(none.reasons.contains(&Reason::ZeroKey), "no key dropped: {:?}", none.reasons);
    let one = verdict_with(&boxed_in, B1, None, &[], 1, &rush());
    assert!(
        one.reasons.contains(&Reason::NoUsableDoor),
        "a key fell but every corridor is pointless: {:?}",
        one.reasons
    );
    assert!(!one.reasons.contains(&Reason::ZeroKey));
}

#[test]
fn ru_declining_every_corridor_is_named_as_such_not_as_a_missing_key() {
    let state = board(
        &[(C0, Line::ToxicGrove, 1), (C1, Line::Gem, 2), (D0, Line::Junk, 1)],
        &[(C0, C1), (C0, D0)],
    );
    let sanctum = choice(OfferKind::Change, Line::Upgrade, 2);
    let verdict = verdict_with(&state, C0, Some(&sanctum), &[], 1, &rush());
    assert!(
        verdict.reasons.contains(&Reason::RuDeclined { slot: C0 }),
        "RU declined the key: {:?}",
        verdict.reasons
    );
    assert!(!verdict.reasons.contains(&Reason::ZeroKey));

    let junk = choice(OfferKind::Change, Line::MuseumOfArtefacts, 2);
    let unprotected = verdict_with(&state, C0, Some(&junk), &[], 1, &rush());
    assert!(
        !unprotected
            .reasons
            .iter()
            .any(|r| matches!(r, Reason::RuDeclined { .. } | Reason::ZeroKey)),
        "{:?}",
        unprotected.reasons
    );
}

#[test]
fn the_carve_out_ranks_change_above_upgrade_beside_a_live_sanctum() {
    let state = board(
        &[(D1, Line::Factory, 1), (C1, Line::Upgrade, 2), (C2, Line::Corruption, 1)],
        &[(C1, D1), (D1, E1)],
    );
    let change = verdict(&state, D1, Some(&choice(OfferKind::Change, Line::MuseumOfArtefacts, 2)), &[]);
    let upgrade = verdict(&state, D1, Some(&choice(OfferKind::Upgrade, Line::Factory, 2)), &[]);
    assert!(
        change.architect > upgrade.architect,
        "change {:?} should outrank upgrade {:?}",
        change.architect,
        upgrade.architect
    );
    assert!(change.reasons.iter().any(|r| matches!(r, Reason::R4PoolCarveOut { upgrader: C1 })));
    assert!(upgrade.architect.vetoed(), "the carve-out is a veto, not a tie-break: {:?}", upgrade.architect);
    assert!(
        upgrade.reasons.iter().any(|r| matches!(r, Reason::R4CarveOutVeto { upgrader: C1 })),
        "a demoted kill must say why: {:?}",
        upgrade.reasons
    );
}

#[test]
fn turning_the_carve_out_off_hands_the_slot_back_to_r4() {
    let state = board(
        &[(D1, Line::Factory, 1), (C1, Line::Upgrade, 2), (C2, Line::Corruption, 1)],
        &[(C1, D1), (D1, E1)],
    );
    let mut flags = rush();
    flags.r4_keep_upgrade_targets = false;
    let upgrade = verdict_with(&state, D1, Some(&choice(OfferKind::Upgrade, Line::Factory, 2)), &[], 1, &flags);
    let change =
        verdict_with(&state, D1, Some(&choice(OfferKind::Change, Line::MuseumOfArtefacts, 2)), &[], 1, &flags);
    assert!(!upgrade.architect.vetoed());
    assert!(upgrade.reasons.iter().any(|r| matches!(r, Reason::R4)));
    assert!(
        !change.reasons.iter().any(|r| matches!(r, Reason::R4PoolCarveOut { .. })),
        "the carve-out must be silent on both sides when it is off: {:?}",
        change.reasons
    );
}

#[test]
fn the_carve_out_never_vetoes_a_kill_that_builds_a_target_line() {
    let state = board(&[(D1, Line::Corruption, 1), (C1, Line::Upgrade, 2)], &[(C1, D1), (D1, E1)]);
    let upgrade = verdict(&state, D1, Some(&choice(OfferKind::Upgrade, Line::Corruption, 2)), &[]);
    assert!(!upgrade.architect.vetoed(), "{:?}", upgrade.reasons);
}

#[test]
fn the_carve_out_ignores_a_shrine_whose_picks_are_already_diluted() {
    let state = board(
        &[(D1, Line::Factory, 1), (C1, Line::Upgrade, 1), (C0, Line::Junk, 1), (C2, Line::Corruption, 1)],
        &[(C0, C1), (C1, D1), (D1, E1)],
    );
    let upgrade = verdict(&state, D1, Some(&choice(OfferKind::Upgrade, Line::Factory, 2)), &[]);
    assert!(!upgrade.architect.vetoed(), "{:?}", upgrade.reasons);
    assert!(upgrade.reasons.iter().any(|r| matches!(r, Reason::R4)));
}

#[test]
fn a_temple_nexus_carves_the_slot_out_without_an_open_corridor() {
    let state = board(
        &[(D1, Line::Factory, 1), (C1, Line::Upgrade, 3), (C2, Line::Corruption, 1)],
        &[(D1, E1)],
    );
    let upgrade = verdict(&state, D1, Some(&choice(OfferKind::Upgrade, Line::Factory, 2)), &[]);
    assert!(upgrade.architect.vetoed(), "{:?}", upgrade.reasons);
    assert!(upgrade.reasons.iter().any(|r| matches!(r, Reason::R4CarveOutVeto { upgrader: C1 })));
}

#[test]
fn r4_ranks_upgrade_above_change_when_no_shrine_can_still_hit_the_slot() {
    let state = board(&[(D1, Line::Factory, 1), (C2, Line::Corruption, 1)], &[(D1, E1)]);
    let change = verdict(&state, D1, Some(&choice(OfferKind::Change, Line::MuseumOfArtefacts, 2)), &[]);
    let upgrade = verdict(&state, D1, Some(&choice(OfferKind::Upgrade, Line::Factory, 2)), &[]);
    assert!(upgrade.architect > change.architect, "only the upgrade rolls the double tier that empties the slot");
    assert!(upgrade.reasons.iter().any(|r| matches!(r, Reason::R4)));
}

#[test]
fn r4_is_silent_on_a_kill_that_builds_a_target_line() {
    let state = board(&[(D1, Line::Corruption, 1)], &[(D1, E1)]);
    let verdict = verdict(&state, D1, Some(&choice(OfferKind::Upgrade, Line::Corruption, 2)), &[]);
    assert!(!verdict.reasons.iter().any(|r| matches!(r, Reason::R4)));
    assert!(verdict.reasons.iter().any(|r| matches!(r, Reason::AdvancesTarget { .. })));
}

#[test]
fn rc_needs_an_open_corridor_to_a_shrine_but_not_to_a_nexus() {
    let unconnected = board(&[(D1, Line::ToxicGrove, 1), (C1, Line::Upgrade, 1)], &[(D1, E1)]);
    let change = choice(OfferKind::Change, Line::MuseumOfArtefacts, 2);
    assert!(!verdict(&unconnected, D1, Some(&change), &[])
        .reasons
        .iter()
        .any(|r| matches!(r, Reason::Rc { .. })));

    let nexus = board(&[(D1, Line::ToxicGrove, 1), (C1, Line::Upgrade, 3)], &[(D1, E1)]);
    assert!(verdict(&nexus, D1, Some(&change), &[])
        .reasons
        .iter()
        .any(|r| matches!(r, Reason::Rc { upgrader: C1 })));
}

// ---------------------------------------------------------------- own tests --

#[test]
fn a_two_door_set_reports_every_door_half_reason_in_chain_order() {
    let state = board(&[], &[(D1, E1)]);
    let got = verdict_with(&state, C1, None, &[(C1, B0), (C1, D2)], 2, &rush());
    assert_eq!(got.door.opens, 2);
    assert_eq!(got.door.r1_apex, 1, "only B0 is on the Apex side");
    assert_eq!(got.door.r1_gradient, -1, "B0 sits on row B");
    assert_eq!(got.door.rs, -4, "B0 has four lattice neighbours, D2 six");
    assert_eq!(got.door.r2, -5, "two singletons, then the pair B0-C1 meets D2");
    assert_eq!(
        got.reasons,
        vec![
            Reason::R1Apex,
            Reason::Rd,
            Reason::R2 { joined: 5 },
            Reason::R1Gradient { row: 1 },
            Reason::Rs { degree: 4 }
        ]
    );
}

#[test]
fn a_merge_that_hands_the_entrance_a_target_room_fires_rv_merge() {
    let state = board(&[(C0, Line::Corruption, 2), (C1, Line::Gem, 1)], &[(C0, C1), (D1, E1)]);
    let got = verdict(&state, D1, None, &[(D1, C1)]);
    assert_eq!(got.door.connects_value, 2, "both target rooms come in with the cluster");
    assert_eq!(got.reasons[0], Reason::RvMerge { rooms: 2 });
}

#[test]
fn the_upgrade_line_on_an_empty_board_is_taken_speculatively() {
    let state = board(&[(D1, Line::Junk, 1)], &[(D1, E1)]);
    let got = verdict(&state, D1, Some(&choice(OfferKind::Change, Line::Upgrade, 2)), &[]);
    assert_eq!(got.architect.0[2], 1);
    assert!(got.reasons.contains(&Reason::Rt));
}

#[test]
fn the_reroll_switch_prefers_the_change_while_no_target_exists() {
    let state = board(&[(D1, Line::HallOfChampions, 1)], &[(D1, E1), (E1, E2)]);
    let flags = RuleFlags { reroll_until_favourable: true, r4_keep_upgrade_targets: true };
    let change = verdict_with(&state, D1, Some(&choice(OfferKind::Change, Line::Junk, 2)), &[], 1, &flags);
    let upgrade = verdict_with(&state, D1, Some(&choice(OfferKind::Upgrade, Line::HallOfChampions, 2)), &[], 1, &flags);
    assert!(change.reasons.contains(&Reason::RerollUntilFavourable));
    assert!(change.architect > upgrade.architect);
    assert!(!upgrade.reasons.contains(&Reason::R4), "the reroll switch speaks instead of R4");
}

#[test]
fn no_architect_reads_as_not_vetoed() {
    let state = board(&[], &[]);
    let got = verdict(&state, D1, None, &[]);
    assert!(!got.architect.vetoed());
    assert_eq!(got.architect.0, [1, 0, 0, 0, 0]);
}

#[test]
fn every_reason_describes_itself_in_one_line() {
    let cases: Vec<(Reason, &str)> = vec![
        (
            Reason::Rv { line: Line::Corruption, before: None, after: Some(1) },
            "RV: connects the corruption room toward the Entrance (∞ → 1 hops)",
        ),
        (Reason::RvGamble { line: Line::Gem, hops: Some(12) }, "RV gamble: leaves the gem room 12 hops from the Entrance"),
        (Reason::RvGamble { line: Line::Gem, hops: None }, "RV gamble: leaves the gem room unreachable from the Entrance"),
        (Reason::RvMerge { rooms: 2 }, "RV: connects 2 target-line room(s) to the Entrance"),
        (
            Reason::R1Apex,
            "R1: reaches the Apex or an Apex-adjacent slot — only B0/B1 can ever open the Apex",
        ),
        (Reason::R2 { joined: 105 }, "R2: merges the smallest clusters (105 rooms)"),
        (Reason::R1Gradient { row: 2 }, "R1: connects upward, to row C"),
        (Reason::Rs { degree: 3 }, "RS: connects the scarcer slot (3 lattice neighbours)"),
        (
            Reason::Ru { slot: C1, targets: 1, connected: 2 },
            "RU: would dilute C1 — 1 picks over 2 connected neighbours",
        ),
        (Reason::Rd, "RD: an open room pays, and the chance may not come again"),
        (Reason::Rc { upgrader: C1 }, "RC: C1 supplies the tier, so spend the architect on the line"),
        (Reason::Rt, "RT: no valuable room on the board yet, so take the upgrade line"),
        (Reason::R4, "R4: maxes a junk room out of the drop pool"),
        (Reason::R4PoolCarveOut { upgrader: C1 }, "R4 carve-out: stays in the pool as a live target of C1"),
        (
            Reason::R4CarveOutVeto { upgrader: C1 },
            "R4 carve-out: maxing this room would cost C1 its only live target",
        ),
        (
            Reason::RerollUntilFavourable,
            "no favourable line on the board, so change rather than upgrade junk",
        ),
        (Reason::AdvancesTarget { line: Line::Corruption }, "advances the corruption line"),
        (Reason::ZeroKey, "no key dropped — there is no passage to buy"),
        (
            Reason::NoUsableDoor,
            "no corridor left worth a key — every closed one leads back into this room's own cluster",
        ),
        (Reason::RuDeclined { slot: C0 }, "RU: every corridor a key could buy would dilute C0, so open nothing"),
        (Reason::ExpectedValue, "ranked on expected value; no rule discriminated"),
    ];
    for (reason, text) in cases {
        assert_eq!(reason.describe(), text);
    }
}

#[test]
fn the_enumeration_on_a_boxed_in_room_offers_only_opening_nothing() {
    let boxed_in = board(&[], &[(B1, C1), (C1, C2), (B0, C1), (A0, B0)]);
    assert_eq!(door_sets(&boxed_in, B1, 2), vec![DoorSet::new()]);
    let _ = Edge::new(B1, C1);
}
