use temple::lattice::{edges, neighbours, Corridor, Edge, Slot};

#[test]
fn edge_derivation_yields_the_twenty_six_measured_corridors() {
    let got: Vec<String> = edges().iter().map(|e| e.to_string()).collect();
    assert_eq!(
        got,
        vec![
            "A0-B0", "A0-B1", "B0-B1", "B0-C0", "B0-C1", "B1-C1", "B1-C2", "C0-C1", "C0-D0",
            "C0-D1", "C1-C2", "C1-D1", "C1-D2", "C2-D2", "C2-D3", "D0-D1", "D0-E0", "D1-D2",
            "D1-E0", "D1-E1", "D2-D3", "D2-E1", "D2-E2", "D3-E2", "E0-E1", "E1-E2",
        ]
    );
}

#[test]
fn slot_degrees_match_the_measured_board() {
    let expected = [
        (Slot::A0, 2),
        (Slot::B0, 4),
        (Slot::B1, 4),
        (Slot::C0, 4),
        (Slot::C1, 6),
        (Slot::C2, 4),
        (Slot::D0, 3),
        (Slot::D1, 6),
        (Slot::D2, 6),
        (Slot::D3, 3),
        (Slot::E0, 3),
        (Slot::E1, 4),
        (Slot::E2, 3),
    ];
    for (slot, degree) in expected {
        assert_eq!(
            neighbours(slot).len(),
            degree,
            "{} has the wrong number of corridors",
            slot.as_str()
        );
    }
}

#[test]
fn edge_is_undirected() {
    assert_eq!(Edge::new(Slot::E1, Slot::A0), Edge::new(Slot::A0, Slot::E1));
    assert_eq!(Edge::new(Slot::E1, Slot::A0).to_string(), "A0-E1");
}

#[test]
fn every_slot_has_a_row_and_a_key_in_board_order() {
    assert_eq!(Slot::A0.row(), 0);
    assert_eq!(Slot::B1.row(), 1);
    assert_eq!(Slot::C2.row(), 2);
    assert_eq!(Slot::D3.row(), 3);
    assert_eq!(Slot::E1.row(), 4);
    assert_eq!(Slot::D2.as_str(), "D2");
    assert_eq!(Slot::E2.index(), 12);
    assert_eq!(temple::lattice::slot_at(7), Slot::D1);
}

#[test]
fn an_edge_names_its_corridor_family() {
    assert_eq!(Edge::new(Slot::E0, Slot::E1).kind(), Some(Corridor::Horizontal));
    assert_eq!(Edge::new(Slot::E1, Slot::D2).kind(), Some(Corridor::Diagonal));
    assert_eq!(Edge::new(Slot::A0, Slot::E1).kind(), None);
    let e = Edge::new(Slot::C1, Slot::B0);
    assert_eq!(e.ends(), (Slot::B0, Slot::C1));
    assert!(e.touches(Slot::C1));
    assert!(!e.touches(Slot::C0));
}

#[test]
fn slot_degrees_and_neighbours_agree_both_ways() {
    let degrees = [2, 4, 4, 4, 6, 4, 3, 6, 6, 3, 3, 4, 3];
    for i in 0..13 {
        let s = temple::lattice::slot_at(i);
        let around = neighbours(s);
        assert_eq!(around.len(), degrees[i], "{}", s.as_str());
        assert!(!around.contains(&s));
        for n in &around {
            assert!(neighbours(*n).contains(&s));
            assert!(Edge::new(s, *n).kind().is_some());
            assert!(edges().contains(&Edge::new(s, *n)));
        }
    }
    assert_eq!(edges().len(), 26);
}
