use temple::advice::Judged;
use temple::doorset::DoorSet;
use temple::ranking::{rank, Ranked};
use temple::rules::{ArchKey, ArchitectChoice, Decision, DoorKey, Reason};
use temple::strategy::{Line, OfferKind, Tier};

/// The noise margin every test prices with.
const MARGIN: f64 = 1.0;

/// One judged option: the kill `kill` (an architect block's index, or none),
/// its door key and architect key, and a single RD reason.
fn option(kill: Option<usize>, door: DoorKey, arch: [u8; 5]) -> Judged {
    Judged {
        option: Decision {
            architect: kill.map(|k| ArchitectChoice {
                offer_index: k,
                architect_name: format!("Architect {k}"),
                kind: OfferKind::Change,
                line: Line::Corruption,
                built_tier: Tier::T1,
                display_name: "Corruption Chamber",
            }),
            doors: DoorSet::new(),
        },
        door,
        architect_key: ArchKey(arch),
        reasons: vec![Reason::Rd],
        gamble: false,
    }
}

/// A door key that differs only in RD and R2.
fn door(opens: u8, r2: i32) -> DoorKey {
    DoorKey { connects_value: 0, ru_ok: 1, r1_apex: 0, opens, r2, r1_gradient: 0, rs: 0 }
}

const PLAIN: [u8; 5] = [1, 0, 0, 0, 0];

/// Rank `options` priced at `means`, each with the same noise margin: an
/// option's place counts the strictly higher means, its reach the means at or
/// above its cutoff.
fn ranked(options: Vec<Judged>, means: &[f64]) -> Vec<Ranked> {
    let place: Vec<u32> = means.iter().map(|m| means.iter().filter(|x| *x > m).count() as u32).collect();
    let reach: Vec<u32> = means.iter().map(|m| means.iter().filter(|x| **x >= m - MARGIN).count() as u32).collect();
    rank(options, &place, &reach)
}

fn indices(r: &[Ranked]) -> Vec<usize> {
    r.iter().map(|x| x.index).collect()
}

fn ev_led(r: &[Ranked]) -> Vec<bool> {
    r.iter().map(|x| x.reasons.first() == Some(&Reason::ExpectedValue)).collect()
}

#[test]
fn nothing_to_rank_ranks_nothing() {
    assert!(ranked(Vec::new(), &[]).is_empty());
}

#[test]
fn a_vetoed_kill_sorts_below_an_unvetoed_one_whatever_its_expected_value() {
    let options = vec![option(Some(0), door(1, 0), PLAIN), option(Some(1), door(1, 0), [0, 1, 1, 1, 1])];
    let r = ranked(options, &[10.0, 20.0]);
    assert_eq!(indices(&r), vec![0, 1]);
    // The leader is the band's only kill among two, and the vetoed kill lies
    // outside it: the expected value decided both places.
    assert_eq!(ev_led(&r), vec![true, true]);
    assert_eq!(r[0].reasons, vec![Reason::ExpectedValue, Reason::Rd]);
}

#[test]
fn inside_the_noise_band_the_architect_key_reorders_the_kills() {
    let options = vec![option(Some(0), door(1, 0), PLAIN), option(Some(1), door(1, 0), [1, 1, 0, 0, 0])];
    let r = ranked(options, &[10.0, 9.5]);
    assert_eq!(indices(&r), vec![1, 0]);
    // A band that holds every kill says the rollout had no opinion.
    assert_eq!(ev_led(&r), vec![false, false]);
    assert_eq!(r[0].reasons, vec![Reason::Rd]);
}

#[test]
fn outside_the_noise_band_the_expected_value_orders_the_kills() {
    let options = vec![option(Some(0), door(1, 0), [1, 1, 0, 0, 0]), option(Some(1), door(1, 0), PLAIN)];
    let r = ranked(options, &[5.0, 10.0]);
    assert_eq!(indices(&r), vec![1, 0]);
    assert_eq!(ev_led(&r), vec![true, true]);
}

#[test]
fn within_a_kill_the_door_key_leads_and_the_expected_value_breaks_its_ties() {
    let options = vec![
        option(Some(0), door(1, -3), PLAIN),
        option(Some(0), door(2, -5), PLAIN),
        option(Some(0), door(2, -5), PLAIN),
    ];
    let r = ranked(options, &[5.0, 4.0, 6.0]);
    assert_eq!(indices(&r), vec![2, 1, 0]);
    // One kill in the band, and no other: nothing for the EV to decide.
    assert_eq!(ev_led(&r), vec![false, false, false]);
}

#[test]
fn a_kill_is_priced_by_its_best_door_set_and_its_options_stay_together() {
    let options = vec![
        option(Some(0), door(1, 0), PLAIN),
        option(Some(1), door(2, 0), PLAIN),
        option(Some(0), door(2, 0), PLAIN),
    ];
    let r = ranked(options, &[3.0, 10.0, 12.0]);
    // Kill 0 is worth 12 through its second option, so it leads; its options
    // come together, the better door first, before kill 1's.
    assert_eq!(indices(&r), vec![2, 0, 1]);
    assert_eq!(ev_led(&r), vec![true, true, true]);
}

#[test]
fn a_door_set_never_promotes_its_kill_past_a_better_priced_one() {
    let options = vec![option(Some(0), door(2, 0), PLAIN), option(Some(1), door(0, -9), PLAIN)];
    let r = ranked(options, &[4.0, 9.0]);
    assert_eq!(indices(&r), vec![1, 0]);
}

#[test]
fn the_unnamed_kill_is_one_kill_and_every_option_keeps_its_move() {
    let options = vec![option(None, door(0, 0), PLAIN), option(None, door(1, 0), PLAIN)];
    let r = ranked(options, &[1.0, 1.0]);
    assert_eq!(indices(&r), vec![1, 0]);
    assert!(r.iter().all(|x| x.option.architect.is_none()));
    assert_eq!(ev_led(&r), vec![false, false]);
}

#[test]
fn a_kill_seen_first_wins_an_exact_tie() {
    let options = vec![option(Some(1), door(1, 0), PLAIN), option(Some(0), door(1, 0), PLAIN)];
    let r = ranked(options, &[10.0, 10.0]);
    assert_eq!(indices(&r), vec![0, 1]);
    assert_eq!(r[0].option.architect.as_ref().map(|a| a.offer_index), Some(1));
}
