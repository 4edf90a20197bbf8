//! The search bounds of the plate anchor's fine pass, and the tally its tests
//! read of how much correlating a search did.

use vstd::prelude::*;

verus! {

/// The coarse pass's downsampling factor.
pub const COARSE_DIVISOR: i32 = 4;

/// Full-resolution search radius around a nominee, image px: a coarse
/// position is accurate to the divisor, the rest is resampling slack.
pub const FINE_RADIUS: i32 = 12;

/// The sweep's fine radius: wider by the position error a coarse scale step
/// buys.
pub const SWEEP_FINE_RADIUS: i32 = 16;

/// The full-resolution search box around a nominee at `origin`,
/// `(x0, y0, x1, y1)` inclusive: `(2 · radius + 1)²` positions.
pub fn box_around(origin: (i32, i32), radius: i32) -> (r: (i32, i32, i32, i32))
    requires
        i32::MIN <= origin.0 - radius <= i32::MAX,
        i32::MIN <= origin.0 + radius <= i32::MAX,
        i32::MIN <= origin.1 - radius <= i32::MAX,
        i32::MIN <= origin.1 + radius <= i32::MAX,
    ensures
        r == ((origin.0 - radius) as i32, (origin.1 - radius) as i32, (origin.0 + radius) as i32, (
        origin.1 + radius) as i32),
{
    (origin.0 - radius, origin.1 - radius, origin.0 + radius, origin.1 + radius)
}

/// The fine pass's search box for a nominee at `origin`, as the search builds
/// it.
pub fn fine_window_for_test(origin: (i32, i32)) -> (r: (i32, i32, i32, i32))
    requires
        i32::MIN + FINE_RADIUS <= origin.0 <= i32::MAX - FINE_RADIUS,
        i32::MIN + FINE_RADIUS <= origin.1 <= i32::MAX - FINE_RADIUS,
    ensures
        r == ((origin.0 - FINE_RADIUS) as i32, (origin.1 - FINE_RADIUS) as i32, (origin.0 + FINE_RADIUS) as i32, (
        origin.1 + FINE_RADIUS) as i32),
        (r.2 - r.0 + 1) * (r.3 - r.1 + 1) == (2 * FINE_RADIUS + 1) * (2 * FINE_RADIUS + 1),
{
    box_around(origin, FINE_RADIUS)
}

/// What a search did: how many correlations, over how many positions, and the
/// largest windowed correlation.
#[derive(Debug, Default, Clone, Copy, PartialEq, Eq, Structural)]
pub struct SearchTally {
    pub calls: usize,
    pub positions: usize,
    pub windowed_high_water: usize,
}

} // verus!
