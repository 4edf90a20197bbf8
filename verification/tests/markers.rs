use std::path::Path;

use temple::doorset::DoorSet;
use temple::dump::{dump_name, note_write, DEBUG_DIR};
use temple::fixtures::doors;
use temple::lattice::Slot::{self, A0, B0, C1, C2, D1, D2, D3, E1, E2};
use temple::lattice::Edge;
use temple::markers::{apply_markers, Marker, SealError};
use temple::reading::FamilyClass::{AllLow, AllOpen, Ambiguous, Split};
use temple::reading::{panel_confidence, Confidence, TempleLayout};

/// The reference board as the layout reader hands it over: Tombs at D3, the
/// beam sampler reading `C2-D3` open through the selection frame, and every
/// corridor touching Tombs flagged uncertain.
fn reference_layout() -> TempleLayout {
    TempleLayout {
        current: Some(D3),
        doors: doors(&[(A0, B0), (B0, C1), (C1, D2), (C2, D3), (D1, E1), (E1, E2)]),
        uncertain: doors(&[(C2, D3), (D2, D3), (D3, E2)]),
    }
}

/// Tombs' three seals, matched to its neighbours: all red.
fn tombs_seals() -> Vec<(Slot, Marker)> {
    vec![
        (C2, Marker { position: (1068, 150), open: false }),
        (D2, Marker { position: (1060, 220), open: false }),
        (E2, Marker { position: (1190, 236), open: false }),
    ]
}

#[test]
fn the_seals_overrule_a_beam_false_positive_on_the_current_room() {
    let layout = reference_layout();
    let c2_d3 = Edge::new(C2, D3);
    assert_eq!(layout.current, Some(D3));
    assert!(
        layout.doors.contains(c2_d3) && layout.uncertain.contains(c2_d3),
        "the beam sampler reads C2-D3 as open, and flags it uncertain"
    );

    let settled = apply_markers(&layout, &tombs_seals()).expect("the seals map");
    assert!(
        !settled.edges().iter().any(|e| e.touches(D3)),
        "Tombs is isolated; every corridor touching it is shut, got {settled:?}"
    );
}

#[test]
fn corridors_away_from_the_current_room_survive_the_settling() {
    let layout = reference_layout();
    let settled = apply_markers(&layout, &tombs_seals()).expect("the seals map");
    let mut expected = DoorSet::new();
    for e in layout.doors.edges() {
        if !e.touches(D3) {
            expected.insert(e);
        }
    }
    assert_eq!(settled, expected);
    assert!(settled.contains(Edge::new(A0, B0)));
}

#[test]
fn a_clean_beam_read_that_contradicts_its_seal_is_an_error() {
    let mut layout = reference_layout();
    let c2_d3 = Edge::new(C2, D3);
    assert!(layout.uncertain.contains(c2_d3));
    layout.uncertain = doors(&[(D2, D3), (D3, E2)]);
    assert_eq!(
        apply_markers(&layout, &tombs_seals()),
        Err(SealError::BeamDisagreement { edge: c2_d3, beam_open: true })
    );
}

#[test]
fn a_layout_with_no_current_room_cannot_be_settled() {
    let mut layout = reference_layout();
    layout.current = None;
    assert_eq!(apply_markers(&layout, &tombs_seals()), Err(SealError::NoCurrentRoom));
}

#[test]
fn an_open_seal_opens_its_corridor_even_where_the_beam_read_nothing() {
    let layout = reference_layout();
    let mut seals = tombs_seals();
    seals[1].1.open = true;
    let settled = apply_markers(&layout, &seals).expect("the seals map");
    assert!(settled.contains(Edge::new(D2, D3)));
    assert!(!settled.contains(Edge::new(C2, D3)));
    assert_eq!(settled.len(), 6);
}

#[test]
fn each_dump_gets_its_own_directory() {
    let root = Path::new("/tmp/poe");
    let dir = |ms: u64| root.join(DEBUG_DIR).join(dump_name(ms));
    assert_ne!(dir(1), dir(2));
    assert!(dir(1).starts_with(root.join(DEBUG_DIR)));
    assert!(dir(1).ends_with("1"));
}

#[test]
fn the_panel_reads_when_every_family_is_decisive_and_one_is_lit() {
    assert_eq!(panel_confidence(Split, Split), Confidence::High);
    assert_eq!(panel_confidence(AllOpen, Split), Confidence::High);
    assert_eq!(panel_confidence(AllLow, AllOpen), Confidence::High, "a bare family beside a built one");
    assert_eq!(panel_confidence(Split, AllLow), Confidence::High, "a bare family beside a split one");
}

#[test]
fn the_panel_is_refused_when_a_family_is_ambiguous_or_no_gold_shows() {
    assert_eq!(panel_confidence(AllLow, AllLow), Confidence::Low, "no gold anywhere is no board");
    assert_eq!(panel_confidence(Ambiguous, Split), Confidence::Low);
    assert_eq!(panel_confidence(AllOpen, Ambiguous), Confidence::Low);
    assert_eq!(panel_confidence(Ambiguous, AllLow), Confidence::Low);
    for a in [Split, AllOpen, AllLow, Ambiguous] {
        for b in [Split, AllOpen, AllLow, Ambiguous] {
            assert_eq!(panel_confidence(a, b), panel_confidence(b, a), "{a:?} / {b:?}");
        }
    }
}

#[test]
fn a_failed_write_is_not_claimed_as_a_file_and_keeps_its_reason() {
    let (mut files, mut notes): (Vec<String>, Vec<String>) = (Vec::new(), Vec::new());

    let line = note_write(&mut files, &mut notes, "diamond.png", Err("No space left on device".to_string()))
        .expect("a failed write must produce a log line");

    assert!(files.is_empty(), "files is a claim about the disk");
    assert!(
        line.contains("diamond.png") && line.contains("No space left on device"),
        "the line must name the file and the reason, got {line:?}",
    );
    assert_eq!(notes, vec![line], "the same text reaches the returned report, not just the log");
}

#[test]
fn a_successful_write_is_named_and_says_nothing() {
    let (mut files, mut notes): (Vec<String>, Vec<String>) = (Vec::new(), Vec::new());

    assert_eq!(note_write(&mut files, &mut notes, "screen.png", Ok(())), None);

    assert_eq!(files, vec!["screen.png".to_string()]);
    assert!(notes.is_empty());
}

#[test]
fn a_failure_line_spells_the_file_then_the_reason() {
    let (mut files, mut notes): (Vec<String>, Vec<String>) = (vec!["screen.png".to_string()], Vec::new());
    let line = note_write(&mut files, &mut notes, "ocr-lines.json", Err("permission denied".to_string()));
    assert_eq!(line.as_deref(), Some("ocr-lines.json could not be written: permission denied"));
    assert_eq!(files, vec!["screen.png".to_string()]);
}
