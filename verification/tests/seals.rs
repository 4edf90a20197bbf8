use temple::markers::{diamond_inside, seal_markers, SealError};

const W: i32 = 240;
const H: i32 = 200;

/// An empty 240 × 200 diamond mask: no seal ink anywhere.
fn canvas() -> Vec<Option<bool>> {
    vec![None; (W * H) as usize]
}

/// A filled disc 13 px across, a seal's shape and size, centred on `centre`.
fn disc(mask: &mut Vec<Option<bool>>, centre: (i32, i32), open: bool) {
    const R: i32 = 6;
    for dy in -R..=R {
        for dx in -R..=R {
            if dx * dx + dy * dy <= R * R {
                mask[((centre.1 + dy) * W + centre.0 + dx) as usize] = Some(open);
            }
        }
    }
}

/// The gates a 240 × 200 crop runs under: 7 px of ink, 15 px merge, 10 px
/// tall, 32 px at most on a side.
fn read(mask: &Vec<Option<bool>>, degree: usize) -> Result<Vec<((i32, i32), bool)>, SealError> {
    seal_markers(mask, 0, 0, W, H, 7, 15, 10, 32, degree)
        .map(|d| d.markers.iter().map(|m| (m.position, m.open)).collect())
}

#[test]
fn a_rect_outside_the_capture_is_an_error() {
    for rect in [[0, 0, W + 1, H], [-1, 0, 10, 10], [0, 0, 0, 10]] {
        assert!(!diamond_inside(rect, W as u32, H as u32), "{rect:?}");
    }
    assert!(diamond_inside([0, 0, W, H], W as u32, H as u32));
    assert!(diamond_inside([10, 20, 30, 40], W as u32, H as u32));
}

#[test]
fn a_seal_count_that_disagrees_with_the_degree_is_an_error() {
    let mut mask = canvas();
    disc(&mut mask, (60, 60), false);
    disc(&mut mask, (180, 60), false);
    disc(&mut mask, (120, 150), false);
    assert_eq!(read(&mask, 4), Err(SealError::CountMismatch { found: 3, expected: 4 }));
    assert_eq!(read(&mask, 3).map(|s| s.len()), Ok(3));
}

#[test]
fn seals_come_back_in_position_order_with_their_colour_and_centroid() {
    let mut mask = canvas();
    disc(&mut mask, (180, 100), true);
    disc(&mut mask, (60, 140), false);
    disc(&mut mask, (60, 40), false);
    let seals = read(&mask, 3).expect("three seals");
    assert_eq!(seals, vec![((60, 40), false), ((60, 140), false), ((180, 100), true)]);
    let d = seal_markers(&mask, 0, 0, W, H, 7, 15, 10, 32, 3).expect("three seals");
    assert_eq!(d.centre, (120, 100));
}

#[test]
fn a_speckle_with_too_little_ink_is_dropped() {
    let mut mask = canvas();
    disc(&mut mask, (180, 100), false);
    for i in 0..6 {
        mask[((90 + 2 * i) * W + 60) as usize] = Some(false);
    }
    assert_eq!(read(&mask, 1), Ok(vec![((180, 100), false)]));
}

#[test]
fn a_blob_far_larger_than_a_seal_is_dropped() {
    let mut mask = canvas();
    disc(&mut mask, (180, 100), false);
    for y in 70..130 {
        for x in 20..80 {
            mask[(y * W + x) as usize] = Some(false);
        }
    }
    assert_eq!(read(&mask, 1), Ok(vec![((180, 100), false)]));
}

#[test]
fn a_ring_broken_into_arcs_merges_back_into_one_seal() {
    let mut mask = canvas();
    // Two same-coloured arcs of one ring, 2 px apart: not 8-connected, but
    // their centroids are within the merge distance.
    for y in 94..=106 {
        for x in 110..=114 {
            mask[(y * W + x) as usize] = Some(true);
        }
        for x in 117..=121 {
            mask[(y * W + x) as usize] = Some(true);
        }
    }
    let seals = read(&mask, 1).expect("one seal");
    assert_eq!(seals, vec![((115, 100), true)]);
}

#[test]
fn two_colours_never_merge() {
    let mut mask = canvas();
    for y in 94..=106 {
        for x in 110..=114 {
            mask[(y * W + x) as usize] = Some(true);
        }
        for x in 117..=121 {
            mask[(y * W + x) as usize] = Some(false);
        }
    }
    assert_eq!(read(&mask, 2).map(|s| s.len()), Ok(2));
}

#[test]
fn a_diamond_far_out_in_a_wide_capture_reads_in_capture_coordinates() {
    let mut mask = canvas();
    disc(&mut mask, (60, 140), true);
    disc(&mut mask, (180, 100), false);
    let (x0, y0) = (150_000, 90_000);
    assert!(diamond_inside([x0, y0, W, H], 200_000, 100_000));
    let d = seal_markers(&mask, x0, y0, W, H, 7, 15, 10, 32, 2).expect("two seals");
    assert_eq!(d.centre, (x0 + W / 2, y0 + H / 2));
    let seals: Vec<_> = d.markers.iter().map(|m| (m.position, m.open)).collect();
    assert_eq!(seals, vec![((x0 + 60, y0 + 140), true), ((x0 + 180, y0 + 100), false)]);
}
