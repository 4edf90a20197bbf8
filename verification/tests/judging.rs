use temple::advice::judge_options;
use temple::fixtures::{board, opened_toward};
use temple::lattice::Slot::{self, A0, B0, B1, C1, C2, D1, E1};
use temple::rollout::Valuation;
use temple::rules::{ArchitectChoice, Reason, RuleFlags};
use temple::state::BoardState;
use temple::strategy::{Line, OfferKind, Tier};

fn rush() -> RuleFlags {
    RuleFlags { reroll_until_favourable: false, r4_keep_upgrade_targets: true }
}

fn valuation() -> Valuation {
    Valuation::new(&vec![], &vec![Line::Corruption, Line::Gem])
}

/// A stranded Corruption Chamber at B1, with junk around it.
fn stranded_corruption(open: &[(Slot, Slot)]) -> BoardState {
    board(
        &[(B1, Some(Line::Corruption), 1), (B0, Some(Line::Junk), 1), (C1, Some(Line::Junk), 1), (C2, Some(Line::Junk), 1)],
        open,
        B1,
        7,
    )
}

/// The two kills the panel offers there: upgrade the corruption line, or
/// change the room to a junk workshop.
fn kills() -> Vec<ArchitectChoice> {
    vec![
        ArchitectChoice {
            offer_index: 0,
            architect_name: "Azcapa".to_string(),
            kind: OfferKind::Upgrade,
            line: Line::Corruption,
            built_tier: Tier::T2,
            display_name: "Catalyst of Corruption",
        },
        ArchitectChoice {
            offer_index: 1,
            architect_name: "Paquate".to_string(),
            kind: OfferKind::Change,
            line: Line::Junk,
            built_tier: Tier::T2,
            display_name: "Jeweller's Workshop",
        },
    ]
}

#[test]
fn a_zero_key_incursion_judges_every_kill_against_opening_nothing() {
    let state = stranded_corruption(&[(C1, D1), (D1, E1)]);
    let judged = judge_options(&state, B1, &kills(), 0, &rush(), &valuation());
    assert_eq!(judged.door_sets.len(), 1);
    assert_eq!(judged.usable, 0);
    assert_eq!(judged.options.len(), 2);
    for row in &judged.options {
        assert_eq!(row.len(), 1);
        assert!(!row[0].gamble, "with no passage RV excludes nothing");
        assert!(row[0].option.doors.is_empty());
        assert!(row[0].reasons.contains(&Reason::ZeroKey), "{:?}", row[0].reasons);
    }
    assert_eq!(judged.options[0][0].option.architect.as_ref().map(|a| a.kind), Some(OfferKind::Upgrade));
    assert!(judged.options[0][0].reasons.contains(&Reason::AdvancesTarget { line: Line::Corruption }));
}

#[test]
fn a_key_with_no_connecting_corridor_leaves_rv_silent() {
    let state = stranded_corruption(&[(B1, C1), (C1, C2), (B0, C1), (A0, B0)]);
    let judged = judge_options(&state, B1, &kills(), 1, &rush(), &valuation());
    assert!(!judged.connectable);
    assert_eq!(judged.usable, 0, "every corridor from B1 leads back into its own cluster");
    assert!(judged.options.iter().flatten().all(|o| !o.gamble));
    assert!(judged.options[0][0].reasons.contains(&Reason::NoUsableDoor));
}

#[test]
fn a_connecting_corridor_puts_the_apex_door_on_the_gamble_side() {
    let state = stranded_corruption(&[(C1, D1), (D1, E1)]);
    let judged = judge_options(&state, B1, &kills(), 1, &rush(), &valuation());
    assert!(judged.connectable);
    assert_eq!(judged.usable, 1);
    let upgrade = &judged.options[0];
    let toward = |far: Slot| {
        upgrade
            .iter()
            .find(|o| opened_toward(&o.option.doors, B1) == vec![far])
            .expect("the corridor is on offer")
    };
    let down = toward(C1);
    assert!(!down.gamble, "the only corridor that shortens the walk to the Entrance");
    assert!(matches!(down.reasons[0], Reason::Rv { line: Line::Corruption, .. }), "{:?}", down.reasons);
    let apex = toward(A0);
    assert!(apex.gamble);
    assert!(matches!(apex.reasons[0], Reason::RvGamble { line: Line::Corruption, .. }));
    assert!(judged.options[1].iter().all(|o| !o.gamble), "RV excludes a passage for a target line only");
}

#[test]
fn with_no_resolved_architect_the_door_half_is_still_judged() {
    let state = stranded_corruption(&[(C1, D1), (D1, E1)]);
    let judged = judge_options(&state, B1, &vec![], 1, &rush(), &valuation());
    assert_eq!(judged.options.len(), 1);
    assert_eq!(judged.options[0].len(), judged.door_sets.len());
    assert!(judged.options[0].iter().all(|o| o.option.architect.is_none() && !o.gamble));
}

#[test]
fn rv_always_leaves_a_door_set_that_no_kill_gambles_on() {
    for open in [
        &[(C1, D1), (D1, E1)][..],
        &[(B1, C1), (C1, C2), (B0, C1), (A0, B0)][..],
        &[][..],
    ] {
        let state = stranded_corruption(open);
        for keys in 0..=2 {
            let judged = judge_options(&state, B1, &kills(), keys, &rush(), &valuation());
            let safe = (0..judged.door_sets.len()).any(|j| judged.options.iter().all(|row| !row[j].gamble));
            assert!(safe, "{open:?} with {keys} keys");
        }
    }
}
