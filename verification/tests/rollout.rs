use temple::fixtures::doors;
use temple::lattice::Slot::{A0, B0, C0, C1, C2, D1, D2, D3, E1};
use temple::lattice::Slot;
use temple::masks::mask_holds;
use temple::rollout::{Opening, Rng, Sim, Valuation};
use temple::state::{mask_of, BoardState};
use temple::strategy::{Line, Tier};

fn valuation() -> Valuation {
    Valuation::new(&vec![], &vec![Line::Corruption, Line::Gem])
}

fn sim(rooms: &[(Slot, Option<Line>, u8)], open: &[(Slot, Slot)]) -> Sim {
    let mut board = BoardState::empty();
    for (slot, line, tier) in rooms {
        board.set_room(*slot, *line, Tier::new(*tier).expect("0..=3"));
    }
    board.doors = doors(open);
    Sim::from_board(&board, &valuation())
}

const JUNK: Option<Line> = Some(Line::Junk);

#[test]
fn the_entrance_is_never_in_the_drop_pool() {
    let pool = sim(&[], &[]).drop_pool();
    assert!(!pool.contains(&Slot::E1.index()));
}

#[test]
fn the_apex_is_never_in_the_drop_pool() {
    let pool = sim(&[], &[]).drop_pool();
    assert!(!pool.contains(&Slot::A0.index()));
}

#[test]
fn a_tier_three_room_has_left_the_drop_pool() {
    let pool = sim(&[(D2, JUNK, 3), (D3, JUNK, 2)], &[]).drop_pool();
    assert!(!pool.contains(&D2.index()));
    assert!(pool.contains(&D3.index()), "tier 2 is still drawable");
}

#[test]
fn the_slot_the_previous_incursion_used_is_not_drawn_next() {
    let mut sim = sim(&[], &[]);
    sim.last_visited = Some(D2.index());
    let pool = sim.drop_pool();
    assert!(!pool.contains(&D2.index()));
    assert!(pool.contains(&D3.index()));
}

#[test]
fn the_last_incursion_of_a_map_clears_the_no_repeat_guarantee() {
    let entrances: u8 = 4;
    let mut sim = sim(&[], &[]);
    sim.remaining = 9;
    for _ in 0..entrances - 1 {
        sim.spend_incursion(D2.index(), entrances);
        assert_eq!(sim.last_visited, Some(D2.index()), "mid-map, the slot stays blocked");
        assert!(!sim.drop_pool().contains(&D2.index()));
    }
    sim.spend_incursion(D2.index(), entrances);
    assert_eq!(sim.last_visited, None, "the map rolled over");
    assert!(sim.drop_pool().contains(&D2.index()));
    assert_eq!(sim.remaining, 9 - entrances);
}

#[test]
fn the_double_tier_roll_never_fires_from_tier_zero() {
    for seed in 0..40u64 {
        let mut sim = sim(&[], &[]);
        let mut rng = Rng::seeded(seed);
        sim.apply_kill(D2.index(), Valuation::CORRUPTION, true, &mut rng);
        assert_eq!(sim.tier[D2.index()], 1, "seed {seed} produced 0 → 2");
    }
}

#[test]
fn the_double_tier_roll_never_fires_on_a_change() {
    for seed in 0..40u64 {
        let mut sim = sim(&[(D2, JUNK, 1)], &[]);
        let mut rng = Rng::seeded(seed);
        sim.apply_kill(D2.index(), Valuation::CORRUPTION, false, &mut rng);
        assert_eq!(sim.tier[D2.index()], 2, "seed {seed} doubled a change");
    }
}

#[test]
fn an_upgrade_from_tier_one_sometimes_reaches_tier_three() {
    let doubled = (0..200u64)
        .filter(|seed| {
            let mut sim = sim(&[(D2, JUNK, 1)], &[]);
            let mut rng = Rng::seeded(*seed);
            sim.apply_kill(D2.index(), Valuation::CORRUPTION, true, &mut rng);
            sim.tier[D2.index()] == 3
        })
        .count();
    assert!((60..140).contains(&doubled), "expected roughly half of 200 to double, got {doubled}");
}

#[test]
fn an_upgrade_room_never_targets_the_apex() {
    let sim = sim(&[(B0, Some(Line::Upgrade), 3), (A0, JUNK, 1), (C0, JUNK, 1)], &[]);
    for seed in 0..30u64 {
        let mut rng = Rng::seeded(seed);
        let final_tier = sim.resolve_upgrades(&mut rng);
        assert_eq!(final_tier[A0.index()], 1, "seed {seed} lifted the Apex");
        assert_eq!(final_tier[C0.index()], 2);
    }
}

#[test]
fn an_upgrade_rooms_pick_can_be_wasted_on_a_tier_zero_neighbour() {
    let sim = sim(
        &[(C1, Some(Line::Upgrade), 1), (C0, Some(Line::Gem), 2), (C2, None, 0)],
        &[(C0, C1), (C1, C2)],
    );
    let lifted = (0..200u64)
        .filter(|seed| {
            let mut rng = Rng::seeded(*seed);
            sim.resolve_upgrades(&mut rng)[C0.index()] == 3
        })
        .count();
    assert!((60..140).contains(&lifted), "the empty neighbour must dilute the pick, got {lifted}/200");
}

#[test]
fn a_shrine_never_reaches_a_neighbour_it_has_no_open_corridor_to() {
    let shrine = sim(&[(C1, Some(Line::Upgrade), 1), (C0, Some(Line::Gem), 2)], &[]);
    let lifted = (0..100u64)
        .filter(|seed| shrine.resolve_upgrades(&mut Rng::seeded(*seed))[C0.index()] == 3)
        .count();
    assert_eq!(lifted, 0, "no corridor, no upgrade");
}

#[test]
fn a_shrines_only_connected_neighbour_is_upgraded_every_time() {
    let shrine = sim(&[(C1, Some(Line::Upgrade), 1), (C0, Some(Line::Gem), 2)], &[(C0, C1)]);
    let lifted = (0..100u64)
        .filter(|seed| shrine.resolve_upgrades(&mut Rng::seeded(*seed))[C0.index()] == 3)
        .count();
    assert_eq!(lifted, 100);
}

#[test]
fn a_temple_nexus_upgrades_an_unconnected_neighbour() {
    let nexus = sim(&[(C1, Some(Line::Upgrade), 3), (C0, Some(Line::Gem), 2)], &[]);
    let lifted = (0..100u64)
        .filter(|seed| nexus.resolve_upgrades(&mut Rng::seeded(*seed))[C0.index()] == 3)
        .count();
    assert_eq!(lifted, 100);
}

#[test]
fn charges_relax_reachability_only_from_a_connected_explosives_room() {
    let connected = sim(&[(D1, Some(Line::Explosive), 1), (C2, Some(Line::Corruption), 3)], &[(D1, E1)]);
    let final_tier = connected.tier;
    let natural = connected.natural_reach();
    assert!(
        connected.charge_reach(&final_tier, natural) & mask_of(C1) != 0,
        "one charge reaches a slot one closed corridor out"
    );

    let stranded = sim(&[(D3, Some(Line::Explosive), 1), (C2, Some(Line::Corruption), 3)], &[(D3, C2)]);
    let natural = stranded.natural_reach();
    assert_eq!(
        stranded.charge_reach(&stranded.tier, natural),
        natural,
        "an explosives room the Entrance cannot reach grants nothing"
    );
}

// ---------------------------------------------------------------- own tests --

#[test]
fn the_generator_is_splitmix_from_its_seed() {
    let mut rng = Rng::seeded(0);
    assert_eq!(rng.below(1 << 40), (0xE220_A839_7B1D_CDAFu64 % (1 << 40)) as usize);
    let mut same = Rng::seeded(0);
    let mut other = Rng::seeded(1);
    assert_eq!(same.below(1000), Rng::seeded(0).below(1000));
    assert_ne!((0..8).map(|_| same.below(1000)).collect::<Vec<_>>(), (0..8).map(|_| other.below(1000)).collect::<Vec<_>>());
    assert_eq!(Rng::seeded(5).below(0), 0, "an empty range draws nothing");
}

#[test]
fn the_policy_door_connects_the_room_to_the_entrance() {
    let sim = sim(&[(D1, JUNK, 1)], &[]);
    assert_eq!(sim.default_policy_door(D1.index()), Some(E1.index()));
    let far = sim.default_policy_door(C1.index());
    assert_eq!(far, None, "nothing from C1 grows the Entrance component");
}

#[test]
fn the_policy_door_is_penalised_for_diluting_a_shrine() {
    let shrine = sim(&[(D1, Some(Line::Upgrade), 1)], &[]);
    assert_eq!(
        shrine.default_policy_door(D1.index()),
        None,
        "one room of growth is worth less than diluting a shrine's pick"
    );
}

#[test]
fn a_rollout_spends_the_budget_and_keeps_what_it_built() {
    let start = sim(&[(D1, JUNK, 1), (C1, Some(Line::Corruption), 2)], &[(D1, E1)]);
    let mut board = start;
    board.remaining = 6;
    let done = board.rollout(&valuation(), 4, &mut Rng::seeded(3));
    assert!(done.remaining == 0 || done.drop_pool().is_empty());
    for i in 0..13 {
        assert!(done.tier[i] >= board.tier[i], "slot {i} lost a tier");
        assert!(done.tier[i] <= 3);
        assert_eq!(done.open[i] & board.open[i], board.open[i], "slot {i} lost a door");
    }
    assert!(mask_holds(done.open[D1.index()], E1.index()));
}

#[test]
fn the_same_seed_plays_the_same_temple_out() {
    let mut board = sim(&[(D1, JUNK, 1)], &[(D1, E1)]);
    board.remaining = 5;
    let opening = Opening { slot: D1.index(), kill: Some((Valuation::CORRUPTION, false)), doors: vec![(D1.index(), C1.index())] };
    let first = board.rollout_from(&opening, &valuation(), 4, &mut Rng::seeded(9));
    let again = board.rollout_from(&opening, &valuation(), 4, &mut Rng::seeded(9));
    assert_eq!(first.tier, again.tier);
    assert_eq!(first.line, again.line);
    assert_eq!(first.open, again.open);
    assert!(mask_holds(first.open[C1.index()], D1.index()), "the keyed corridor is open");
}

#[test]
fn the_route_walks_to_the_farthest_room_worth_walking_to() {
    let corruption = Some(Line::Corruption);
    let to_apex = sim(&[(C1, corruption, 2)], &[(D1, E1), (C1, D1), (B0, C1), (A0, B0)]);
    let reach = to_apex.natural_reach();
    let none = [false; 13];
    assert_eq!(to_apex.route_hops(&none, reach), 4, "the Apex is always worth the walk");
    let mut priced = [false; 13];
    priced[C1.index()] = true;
    assert_eq!(to_apex.route_hops(&priced, reach), 4);

    let short = sim(&[(C1, corruption, 2)], &[(D1, E1), (C1, D1)]);
    let reach = short.natural_reach();
    assert_eq!(short.route_hops(&none, reach), 0, "nothing worth walking to");
    assert_eq!(short.route_hops(&priced, reach), 2);
}

#[test]
fn a_room_inside_the_reach_but_off_every_open_walk_has_no_hop_count() {
    let board = sim(&[(C1, Some(Line::Corruption), 2)], &[(D1, E1)]);
    let blasted = board.natural_reach() | mask_of(C1);
    let mut priced = [false; 13];
    priced[C1.index()] = true;
    assert_eq!(board.route_hops(&priced, blasted), 0);
}

#[test]
fn the_tally_lists_named_rooms_and_counts_every_built_one() {
    let board = sim(&[(C1, Some(Line::Corruption), 2), (D1, JUNK, 1), (C0, Some(Line::Gem), 3)], &[(D1, E1), (C1, D1)]);
    let reach = board.natural_reach();
    let tally = board.tally(&valuation(), &board.tier, reach);
    assert_eq!(tally.reached, vec![(Line::Corruption, Tier::T2)], "junk carries no price, the Gem room is not reached");
    assert_eq!(tally.built, 2, "C1 and D1; the Entrance is not counted");
    assert!(!tally.apex);

    let mut raised = board.tier;
    raised[C1.index()] = 3;
    let tally = board.tally(&valuation(), &raised, reach);
    assert_eq!(tally.reached, vec![(Line::Corruption, Tier::T3)], "the final tier is the one tallied");
}

#[test]
fn two_generators_seeded_alike_draw_alike_and_in_range() {
    let (mut a, mut b) = (Rng::seeded(42), Rng::seeded(42));
    for n in [0usize, 1, 5, 13, 0, 1000, 7] {
        let (x, y) = (a.below(n), b.below(n));
        assert_eq!(x, y);
        if n == 0 {
            assert_eq!(x, 0);
        } else {
            assert!(x < n);
        }
    }
}
