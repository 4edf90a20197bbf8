//! The door seals on the current room's diamond, and what they settle about
//! the corridors the layout reader cannot see through the selection frame.

use vstd::prelude::*;

use crate::doorset::{edge_pair, DoorSet};
use crate::lattice::{edge_between, lattice_adjacent, slot_index, slot_of, Edge, Slot};
use crate::ink::{
    blobs_below, ink_blobs, max_int, min_int, sane, InkBlob, COORD_LIMIT, PIXEL_LIMIT,
};
use crate::reading::TempleLayout;

verus! {

/// One door marker on the diamond.
#[derive(Debug, Clone, Copy, PartialEq, Eq)]
pub struct Marker {
    /// Blob centroid in the coordinates of the image read.
    pub position: (i32, i32),
    /// Green seal; `false` is a red one.
    pub open: bool,
}

/// What one diamond read yields.
#[derive(Debug, PartialEq)]
pub struct DoorMarkers {
    /// The diamond rect's centre, which the marker directions are measured
    /// from.
    pub centre: (i32, i32),
    /// The seals, in scan order.
    pub markers: Vec<Marker>,
}

/// Why the seals could not be turned into door state.
#[derive(Debug, Clone, Copy, PartialEq, Eq, Structural)]
pub enum SealError {
    /// The layout was read between rooms.
    NoCurrentRoom,
    /// A corridor the layout reader read confidently disagrees with its seal;
    /// `beam_open` is what the reader said.
    BeamDisagreement { edge: Edge, beam_open: bool },
    /// The diamond held a different number of seals than the room has
    /// lattice neighbours. Never papered over: which seal is missing, or
    /// extra, is unknowable.
    CountMismatch { found: usize, expected: usize },
}

/// Whether an open seal of `assigned` names the corridor `(i, j)` out of
/// `current`.
pub open spec fn sealed_pair(current: Slot, assigned: Seq<(Slot, Marker)>, i: int, j: int) -> bool {
    exists|k: int|
        0 <= k < assigned.len() && (#[trigger] assigned[k]).1.open && (i, j) == edge_pair(
            edge_between(slot_index(current), slot_index(assigned[k].0)),
        )
}

/// Whether the reader's confident read of the corridor from `current` to
/// board index `n` disagrees with its seal.
pub open spec fn disagrees(layout: TempleLayout, current: Slot, assigned: Seq<(Slot, Marker)>, n: int) -> bool {
    let e = edge_between(slot_index(current), n);
    &&& lattice_adjacent(slot_index(current), n)
    &&& !layout.uncertain.has(e)
    &&& layout.doors.has(e) != sealed_pair(current, assigned, edge_pair(e).0, edge_pair(e).1)
}

/// The first neighbour below `k`, in board order, whose read disagrees.
pub open spec fn first_disagreement(layout: TempleLayout, current: Slot, assigned: Seq<(Slot, Marker)>, k: int) -> Option<
    int,
>
    decreases k,
{
    if k <= 0 {
        None
    } else {
        let prev = first_disagreement(layout, current, assigned, k - 1);
        if prev is Some {
            prev
        } else if disagrees(layout, current, assigned, k - 1) {
            Some(k - 1)
        } else {
            None
        }
    }
}

proof fn lemma_first_disagreement_stays(layout: TempleLayout, current: Slot, assigned: Seq<(Slot, Marker)>, k: int, m: int)
    requires
        first_disagreement(layout, current, assigned, k) is Some,
        k <= m,
    ensures
        first_disagreement(layout, current, assigned, m) == first_disagreement(layout, current, assigned, k),
    decreases m - k,
{
    if k < m {
        lemma_first_disagreement_stays(layout, current, assigned, k, m - 1);
    }
}

/// The index pair of the corridor between two distinct board indices.
proof fn lemma_between_pair(a: int, b: int)
    requires
        0 <= a < 13,
        0 <= b < 13,
        a != b,
    ensures
        edge_pair(edge_between(a, b)) == if a < b { (a, b) } else { (b, a) },
{
    crate::lattice::lemma_slot_index_bijection();
    if a < b {
        Edge::lemma_between(a, b);
    } else {
        Edge::lemma_between(b, a);
    }
}

/// The seals' verdict, given which neighbour each seal was assigned to.
pub open spec fn settle_spec(layout: TempleLayout, assigned: Seq<(Slot, Marker)>, r: Result<DoorSet, SealError>) -> bool {
    match layout.current {
        None => r == Err::<DoorSet, SealError>(SealError::NoCurrentRoom),
        Some(c) => match first_disagreement(layout, c, assigned, 13) {
            Some(n) => {
                let e = edge_between(slot_index(c), n);
                r == Err::<DoorSet, SealError>(SealError::BeamDisagreement { edge: e, beam_open: layout.doors.has(e) })
            },
            None => r matches Ok(d) && forall|i: int, j: int|
                #[trigger] d.holds_pair(i, j) == ((layout.doors.holds_pair(i, j) && i != slot_index(c) && j != slot_index(c))
                    || sealed_pair(c, assigned, i, j)),
        },
    }
}

/// Settle the current room's corridors from its seals: every corridor out of
/// the room is what its seal says, every other corridor what the reader read.
/// A corridor the reader read confidently and its seal contradicts is an
/// error, never a silent preference. `assigned` pairs each seal with the
/// neighbour it was matched to.
pub fn apply_markers(layout: &TempleLayout, assigned: &Vec<(Slot, Marker)>) -> (r: Result<DoorSet, SealError>)
    requires
        layout.current matches Some(c) ==> forall|k: int| 0 <= k < assigned@.len() ==> (#[trigger] assigned@[k]).0 != c,
    ensures
        settle_spec(*layout, assigned@, r),
{
    let current = match layout.current {
        Some(c) => c,
        None => {
            return Err(SealError::NoCurrentRoom);
        },
    };
    proof {
        crate::lattice::lemma_slot_index_bijection();
    }
    let si = current.index();
    let mut sealed = DoorSet::new();
    let mut k: usize = 0;
    while k < assigned.len()
        invariant
            k <= assigned@.len(),
            si == slot_index(current),
            layout.current == Some(current),
            forall|q: int| 0 <= q < assigned@.len() ==> (#[trigger] assigned@[q]).0 != current,
            forall|i: int, j: int| #[trigger] sealed.holds_pair(i, j) == sealed_pair(current, assigned@.take(k as int), i, j),
        decreases assigned@.len() - k,
    {
        let (slot, marker) = assigned[k];
        proof {
            crate::lattice::lemma_slot_index_bijection();
            assert(assigned@[k as int].0 != current);
        }
        if marker.open {
            let e = Edge::new(current, slot);
            sealed.insert(e);
        }
        proof {
            let t0 = assigned@.take(k as int);
            let t1 = assigned@.take(k + 1);
            assert(t1[k as int] == (slot, marker));
            assert forall|i: int, j: int| #[trigger] sealed.holds_pair(i, j) == sealed_pair(current, t1, i, j) by {
                if sealed_pair(current, t0, i, j) {
                    let q = choose|q: int|
                        0 <= q < t0.len() && (#[trigger] t0[q]).1.open && (i, j) == edge_pair(
                            edge_between(slot_index(current), slot_index(t0[q].0)),
                        );
                    assert(t1[q] == t0[q]);
                }
                if sealed_pair(current, t1, i, j) {
                    let q = choose|q: int|
                        0 <= q < t1.len() && (#[trigger] t1[q]).1.open && (i, j) == edge_pair(
                            edge_between(slot_index(current), slot_index(t1[q].0)),
                        );
                    if q < k {
                        assert(t0[q] == t1[q]);
                    }
                }
            }
        }
        k += 1;
    }
    proof {
        assert(assigned@.take(assigned@.len() as int) =~= assigned@);
    }
    let mut n: usize = 0;
    while n < 13
        invariant
            n <= 13,
            si == slot_index(current),
            layout.current == Some(current),
            forall|i: int, j: int| #[trigger] sealed.holds_pair(i, j) == sealed_pair(current, assigned@, i, j),
            first_disagreement(*layout, current, assigned@, n as int) is None,
        decreases 13 - n,
    {
        let slot = crate::lattice::slot_at(n);
        if n != si && crate::lattice::adjacent(current, slot) {
            let e = Edge::new(current, slot);
            if !layout.uncertain.contains(e) {
                let beam_open = layout.doors.contains(e);
                if beam_open != sealed.contains(e) {
                    proof {
                        assert(disagrees(*layout, current, assigned@, n as int));
                        lemma_first_disagreement_stays(*layout, current, assigned@, n + 1, 13);
                    }
                    return Err(SealError::BeamDisagreement { edge: e, beam_open });
                }
            }
        }
        proof {
            if n == si {
                assert(!lattice_adjacent(si as int, n as int));
            }
        }
        n += 1;
    }
    let mut touching = DoorSet::new();
    let mut j: usize = 0;
    while j < 13
        invariant
            j <= 13,
            si == slot_index(current),
            si < 13,
            forall|a: int, b: int|
                #[trigger] touching.holds_pair(a, b) == (0 <= a < b < 13 && ((a == si && b < j) || (b == si && a < j))),
        decreases 13 - j,
    {
        if j != si {
            let other = crate::lattice::slot_at(j);
            proof {
                lemma_between_pair(si as int, j as int);
            }
            touching.insert(Edge::new(current, other));
        }
        j += 1;
    }
    let kept = layout.doors.minus(&touching);
    let settled = kept.union(&sealed);
    proof {
        layout.doors.lemma_pairs_in_range();
    }
    Ok(settled)
}


/// Whether the diamond rect `[x, y, w, h]` is a non-empty rect inside a
/// `width × height` capture.
pub fn diamond_inside(diamond: [i32; 4], width: u32, height: u32) -> (r: bool)
    ensures
        r == (diamond[2] > 0 && diamond[3] > 0 && diamond[0] >= 0 && diamond[1] >= 0 && diamond[0] + diamond[2]
            <= width && diamond[1] + diamond[3] <= height),
{
    let x0 = diamond[0];
    let y0 = diamond[1];
    let w = diamond[2];
    let h = diamond[3];
    if w <= 0 || h <= 0 || x0 < 0 || y0 < 0 {
        return false;
    }
    (x0 as i64 + w as i64) <= width as i64 && (y0 as i64 + h as i64) <= height as i64
}

/// `b` put into the size-sorted `sorted`: after every blob at least its size.
pub open spec fn insert_by_size(sorted: Seq<InkBlob>, b: InkBlob) -> Seq<InkBlob>
    decreases sorted.len(),
{
    if sorted.len() == 0 {
        seq![b]
    } else if sorted.last().n >= b.n {
        sorted.push(b)
    } else {
        insert_by_size(sorted.drop_last(), b).push(sorted.last())
    }
}

/// The blobs stably sorted by size, largest first.
pub open spec fn sort_by_size(bs: Seq<InkBlob>) -> Seq<InkBlob>
    decreases bs.len(),
{
    if bs.len() == 0 {
        bs
    } else {
        insert_by_size(sort_by_size(bs.drop_last()), bs.last())
    }
}

/// Whether blob `b` lies close enough to `m`, in the same colour, to be one
/// seal: both centroid coordinates less than `merge` apart.
pub open spec fn near(m: InkBlob, b: InkBlob, merge: i32) -> bool {
    &&& m.open == b.open
    &&& -merge < m.cx - b.cx < merge
    &&& -merge < m.cy - b.cy < merge
}

/// The first blob of `ms` from index `i` on that `b` is near.
pub open spec fn first_near(ms: Seq<InkBlob>, b: InkBlob, merge: i32, i: int) -> Option<int>
    decreases ms.len() - i,
{
    if i < 0 || i >= ms.len() {
        None
    } else if near(ms[i], b, merge) {
        Some(i)
    } else {
        first_near(ms, b, merge, i + 1)
    }
}

/// Blob `h` with blob `b` folded into it.
pub open spec fn absorbed(h: InkBlob, b: InkBlob) -> InkBlob {
    let n = h.n + b.n;
    let sx = h.sx + b.sx;
    let sy = h.sy + b.sy;
    InkBlob {
        n: n as u64,
        sx: sx as i128,
        sy: sy as i128,
        cx: (sx / n) as i32,
        cy: (sy / n) as i32,
        x0: min_int(h.x0 as int, b.x0 as int) as i32,
        x1: max_int(h.x1 as int, b.x1 as int) as i32,
        y0: min_int(h.y0 as int, b.y0 as int) as i32,
        y1: max_int(h.y1 as int, b.y1 as int) as i32,
        open: h.open,
    }
}

/// `b` folded into the first merged blob it is near, or added as a blob of
/// its own.
pub open spec fn merge_into(ms: Seq<InkBlob>, b: InkBlob, merge: i32) -> Seq<InkBlob> {
    match first_near(ms, b, merge, 0) {
        Some(q) => ms.update(q, absorbed(ms[q], b)),
        None => ms.push(b),
    }
}

/// The blobs merged in order: a ring whose edge breaks the 8-connection
/// comes back as one seal.
pub open spec fn merged_all(bs: Seq<InkBlob>, merge: i32) -> Seq<InkBlob>
    decreases bs.len(),
{
    if bs.len() == 0 {
        bs
    } else {
        merge_into(merged_all(bs.drop_last(), merge), bs.last(), merge)
    }
}

/// Whether a merged blob is the size of a seal: enough ink, tall enough,
/// and no side too long.
pub open spec fn keeps(b: InkBlob, min_ink: usize, min_height: i32, max_side: i32) -> bool {
    let bw = b.x1 - b.x0 + 1;
    let bh = b.y1 - b.y0 + 1;
    &&& b.n >= min_ink
    &&& bh >= min_height
    &&& bw <= max_side
    &&& bh <= max_side
}

/// The seal a blob reads as: its centroid and colour.
pub open spec fn seal_of(b: InkBlob) -> Marker {
    Marker { position: (((b.sx as int) / (b.n as int)) as i32, ((b.sy as int) / (b.n as int)) as i32), open: b.open }
}

/// The seals among merged blobs, in order.
pub open spec fn kept_seals(bs: Seq<InkBlob>, min_ink: usize, min_height: i32, max_side: i32) -> Seq<Marker>
    decreases bs.len(),
{
    if bs.len() == 0 {
        Seq::empty()
    } else {
        let prev = kept_seals(bs.drop_last(), min_ink, min_height, max_side);
        if keeps(bs.last(), min_ink, min_height, max_side) {
            prev.push(seal_of(bs.last()))
        } else {
            prev
        }
    }
}

/// Whether seal `a` comes no later than `b` in scan order: by x, then y.
pub open spec fn pos_le(a: Marker, b: Marker) -> bool {
    a.position.0 < b.position.0 || (a.position.0 == b.position.0 && a.position.1 <= b.position.1)
}

/// `m` put into the position-sorted `sorted`, after every seal not later.
pub open spec fn insert_by_pos(sorted: Seq<Marker>, m: Marker) -> Seq<Marker>
    decreases sorted.len(),
{
    if sorted.len() == 0 {
        seq![m]
    } else if pos_le(sorted.last(), m) {
        sorted.push(m)
    } else {
        insert_by_pos(sorted.drop_last(), m).push(sorted.last())
    }
}

/// The seals stably sorted by position, `(x, y)`.
pub open spec fn sort_by_pos(ms: Seq<Marker>) -> Seq<Marker>
    decreases ms.len(),
{
    if ms.len() == 0 {
        ms
    } else {
        insert_by_pos(sort_by_pos(ms.drop_last()), ms.last())
    }
}

/// The seals of a `w × h` ink mask at capture `(x0, y0)`: its blobs,
/// largest first, merged into seals, filtered by size, in position order.
pub open spec fn seals_spec(
    ink: Seq<Option<bool>>,
    x0: i32,
    y0: i32,
    w: i32,
    min_ink: usize,
    merge: i32,
    min_height: i32,
    max_side: i32,
) -> Seq<Marker> {
    sort_by_pos(
        kept_seals(
            merged_all(sort_by_size(blobs_below(ink, w as int, x0 as int, y0 as int, ink.len() as int)), merge),
            min_ink,
            min_height,
            max_side,
        ),
    )
}

/// The blobs stably sorted by size, largest first.
fn sort_blobs(blobs: &Vec<InkBlob>) -> (r: Vec<InkBlob>)
    requires
        forall|q: int| 0 <= q < blobs@.len() ==> sane(#[trigger] blobs@[q], PIXEL_LIMIT as int),
    ensures
        r@ == sort_by_size(blobs@),
        r@.len() == blobs@.len(),
        forall|q: int| 0 <= q < r@.len() ==> sane(#[trigger] r@[q], PIXEL_LIMIT as int),
{
    let mut out: Vec<InkBlob> = Vec::new();
    let mut k: usize = 0;
    while k < blobs.len()
        invariant
            k <= blobs@.len(),
            out@ == sort_by_size(blobs@.take(k as int)),
            out@.len() == k,
            forall|q: int| 0 <= q < blobs@.len() ==> sane(#[trigger] blobs@[q], PIXEL_LIMIT as int),
            forall|q: int| 0 <= q < out@.len() ==> sane(#[trigger] out@[q], PIXEL_LIMIT as int),
        decreases blobs@.len() - k,
    {
        let b = blobs[k];
        let mut q: usize = out.len();
        proof {
            assert(out@.take(q as int) =~= out@);
            assert(insert_by_size(out@, b) + out@.skip(q as int) =~= insert_by_size(out@, b));
        }
        while q > 0 && out[q - 1].n < b.n
            invariant
                q <= out@.len(),
                insert_by_size(out@, b) == insert_by_size(out@.take(q as int), b) + out@.skip(q as int),
            decreases q,
        {
            proof {
                let t = out@.take(q as int);
                assert(t.drop_last() =~= out@.take(q - 1));
                assert(t.last() == out@[q - 1]);
                assert(insert_by_size(t, b) == insert_by_size(out@.take(q - 1), b).push(out@[q - 1]));
                assert(insert_by_size(out@.take(q - 1), b).push(out@[q - 1]) + out@.skip(q as int) =~= insert_by_size(
                    out@.take(q - 1),
                    b,
                ) + out@.skip(q - 1));
            }
            q -= 1;
        }
        proof {
            let t = out@.take(q as int);
            if q == 0 {
                assert(t.len() == 0);
                assert(insert_by_size(t, b) == seq![b]);
            } else {
                assert(t.last() == out@[q - 1]);
                assert(insert_by_size(t, b) == t.push(b));
            }
            assert(blobs@.take(k + 1).drop_last() =~= blobs@.take(k as int));
            assert(blobs@.take(k + 1).last() == b);
        }
        let ghost before = out@;
        out.insert(q, b);
        proof {
            assert(out@ =~= before.take(q as int).push(b) + before.skip(q as int));
            assert(insert_by_size(before, b) == out@);
            assert forall|r: int| 0 <= r < out@.len() implies sane(#[trigger] out@[r], PIXEL_LIMIT as int) by {
                if r < q {
                    assert(out@[r] == before[r]);
                } else if r > q {
                    assert(out@[r] == before[r - 1]);
                }
            }
        }
        k += 1;
    }
    proof {
        assert(blobs@.take(blobs@.len() as int) =~= blobs@);
    }
    out
}

impl InkBlob {
    /// Fold blob `other` into this one.
    pub fn absorb(&mut self, other: &InkBlob)
        requires
            sane(*old(self), old(self).n as int),
            sane(*other, other.n as int),
            old(self).n + other.n <= 0x4000_0000_0000_0000,
        ensures
            *final(self) == absorbed(*old(self), *other),
            sane(*final(self), final(self).n as int),
    {
        let ghost before = *self;
        let (n1, n2, a1, a2, b1, b2) = (self.n, other.n, self.sx, other.sx, self.sy, other.sy);
        assert(a1 + a2 <= (n1 + n2) * 0x7fff_fffe && b1 + b2 <= (n1 + n2) * 0x7fff_fffe) by (nonlinear_arith)
            requires
                a1 <= n1 * 0x7fff_fffe,
                a2 <= n2 * 0x7fff_fffe,
                b1 <= n1 * 0x7fff_fffe,
                b2 <= n2 * 0x7fff_fffe,
        ;
        assert((n1 + n2) * 0x7fff_fffe <= 0x4000_0000_0000_0000 * 0x7fff_fffe) by (nonlinear_arith)
            requires
                n1 + n2 <= 0x4000_0000_0000_0000,
        ;
        self.n = n1 + n2;
        self.sx = a1 + a2;
        self.sy = b1 + b2;
        let n = self.n as i128;
        let (sx, sy) = (self.sx, self.sy);
        assert(0 <= sx / n <= 0x7fff_fffe && 0 <= sy / n <= 0x7fff_fffe) by (nonlinear_arith)
            requires
                0 <= sx <= n * 0x7fff_fffe,
                0 <= sy <= n * 0x7fff_fffe,
                n >= 1,
        ;
        self.cx = (sx / n) as i32;
        self.cy = (sy / n) as i32;
        if other.x0 < self.x0 {
            self.x0 = other.x0;
        }
        if other.x1 > self.x1 {
            self.x1 = other.x1;
        }
        if other.y0 < self.y0 {
            self.y0 = other.y0;
        }
        if other.y1 > self.y1 {
            self.y1 = other.y1;
        }
        assert(*self == absorbed(before, *other));
    }
}

/// The blobs merged in order.
fn merge_blobs(sorted: &Vec<InkBlob>, merge: i32) -> (r: Vec<InkBlob>)
    requires
        sorted@.len() <= PIXEL_LIMIT,
        forall|q: int| 0 <= q < sorted@.len() ==> sane(#[trigger] sorted@[q], PIXEL_LIMIT as int),
    ensures
        r@ == merged_all(sorted@, merge),
        forall|q: int| 0 <= q < r@.len() ==> sane(#[trigger] r@[q], r@[q].n as int),
        forall|q: int| 0 <= q < r@.len() ==> (#[trigger] r@[q]).n <= 0x4000_0000_0000_0000,
{
    let mut out: Vec<InkBlob> = Vec::new();
    let mut k: usize = 0;
    while k < sorted.len()
        invariant
            k <= sorted@.len(),
            sorted@.len() <= PIXEL_LIMIT,
            forall|q: int| 0 <= q < sorted@.len() ==> sane(#[trigger] sorted@[q], PIXEL_LIMIT as int),
            out@ == merged_all(sorted@.take(k as int), merge),
            forall|q: int| 0 <= q < out@.len() ==> sane(#[trigger] out@[q], out@[q].n as int),
            forall|q: int| 0 <= q < out@.len() ==> (#[trigger] out@[q]).n <= k * PIXEL_LIMIT,
        decreases sorted@.len() - k,
    {
        let b = sorted[k];
        let mut i: usize = 0;
        while i < out.len() && !(out[i].open == b.open && out[i].cx - b.cx < merge && b.cx - out[i].cx < merge
            && out[i].cy - b.cy < merge && b.cy - out[i].cy < merge)
            invariant
                i <= out@.len(),
                forall|q: int| 0 <= q < out@.len() ==> sane(#[trigger] out@[q], out@[q].n as int),
                sane(b, PIXEL_LIMIT as int),
                first_near(out@, b, merge, 0) == first_near(out@, b, merge, i as int),
            decreases out@.len() - i,
        {
            i += 1;
        }
        proof {
            assert(sorted@.take(k + 1).drop_last() =~= sorted@.take(k as int));
            assert(sorted@.take(k + 1).last() == b);
        }
        if i < out.len() {
            let ghost before = out@;
            let mut host = out[i];
            proof {
                assert(host.n <= k * PIXEL_LIMIT);
                assert(host.n + b.n <= 0x4000_0000_0000_0000) by (nonlinear_arith)
                    requires
                        host.n <= k * 0x7fff_ffff,
                        k < 0x7fff_ffff,
                        b.n <= 0x7fff_ffff,
                ;
            }
            host.absorb(&b);
            out.set(i, host);
            proof {
                assert(first_near(before, b, merge, i as int) == Some(i as int));
                assert(out@ == merge_into(before, b, merge));
                assert forall|q: int| 0 <= q < out@.len() implies (#[trigger] out@[q]).n <= (k + 1) * PIXEL_LIMIT by {
                    if q != i {
                        assert(out@[q] == before[q]);
                    }
                }
            }
        } else {
            let ghost before = out@;
            out.push(b);
            proof {
                assert(first_near(before, b, merge, i as int) == None::<int>);
                assert(out@ == merge_into(before, b, merge));
                assert forall|q: int| 0 <= q < out@.len() implies (#[trigger] out@[q]).n <= (k + 1) * PIXEL_LIMIT by {
                    if q < before.len() {
                        assert(out@[q] == before[q]);
                    }
                }
            }
        }
        k += 1;
    }
    proof {
        assert(sorted@.take(sorted@.len() as int) =~= sorted@);
        assert forall|q: int| 0 <= q < out@.len() implies (#[trigger] out@[q]).n <= 0x4000_0000_0000_0000 by {
            let n = out@[q].n;
            assert(n <= 0x4000_0000_0000_0000) by (nonlinear_arith)
                requires
                    n <= k * 0x7fff_ffff,
                    k <= 0x7fff_ffff,
            ;
        }
    }
    out
}

/// The seals among the merged blobs, in order.
fn keep_seals(bs: &Vec<InkBlob>, min_ink: usize, min_height: i32, max_side: i32) -> (r: Vec<Marker>)
    requires
        forall|q: int| 0 <= q < bs@.len() ==> sane(#[trigger] bs@[q], bs@[q].n as int),
        forall|q: int| 0 <= q < bs@.len() ==> (#[trigger] bs@[q]).n <= 0x4000_0000_0000_0000,
    ensures
        r@ == kept_seals(bs@, min_ink, min_height, max_side),
{
    let mut out: Vec<Marker> = Vec::new();
    let mut k: usize = 0;
    while k < bs.len()
        invariant
            k <= bs@.len(),
            forall|q: int| 0 <= q < bs@.len() ==> sane(#[trigger] bs@[q], bs@[q].n as int),
            forall|q: int| 0 <= q < bs@.len() ==> (#[trigger] bs@[q]).n <= 0x4000_0000_0000_0000,
            out@ == kept_seals(bs@.take(k as int), min_ink, min_height, max_side),
        decreases bs@.len() - k,
    {
        let b = bs[k];
        proof {
            assert(bs@.take(k + 1).drop_last() =~= bs@.take(k as int));
            assert(bs@.take(k + 1).last() == b);
            assert(sane(bs@[k as int], bs@[k as int].n as int));
            assert(0 <= b.sx <= b.n * 0x7fff_fffe && 0 <= b.sy <= b.n * 0x7fff_fffe && b.n >= 1);
            assert(b.n <= 0x4000_0000_0000_0000);
        }
        let bw = b.x1 - b.x0 + 1;
        let bh = b.y1 - b.y0 + 1;
        if b.n >= min_ink as u64 && bh >= min_height && bw <= max_side && bh <= max_side {
            let n = b.n as i128;
            let (sx, sy) = (b.sx, b.sy);
            assert(0 <= sx / n <= 0x7fff_fffe && 0 <= sy / n <= 0x7fff_fffe) by (nonlinear_arith)
                requires
                    0 <= sx <= n * 0x7fff_fffe,
                    0 <= sy <= n * 0x7fff_fffe,
                    n >= 1,
            ;
            out.push(Marker { position: ((sx / n) as i32, (sy / n) as i32), open: b.open });
        }
        k += 1;
    }
    proof {
        assert(bs@.take(bs@.len() as int) =~= bs@);
    }
    out
}

/// The seals stably sorted by position.
fn sort_seals(ms: &Vec<Marker>) -> (r: Vec<Marker>)
    ensures
        r@ == sort_by_pos(ms@),
{
    let mut out: Vec<Marker> = Vec::new();
    let mut k: usize = 0;
    while k < ms.len()
        invariant
            k <= ms@.len(),
            out@ == sort_by_pos(ms@.take(k as int)),
        decreases ms@.len() - k,
    {
        let m = ms[k];
        let mut q: usize = out.len();
        proof {
            assert(out@.take(q as int) =~= out@);
            assert(insert_by_pos(out@, m) + out@.skip(q as int) =~= insert_by_pos(out@, m));
        }
        while q > 0 && !(out[q - 1].position.0 < m.position.0 || (out[q - 1].position.0 == m.position.0
            && out[q - 1].position.1 <= m.position.1))
            invariant
                q <= out@.len(),
                insert_by_pos(out@, m) == insert_by_pos(out@.take(q as int), m) + out@.skip(q as int),
            decreases q,
        {
            proof {
                let t = out@.take(q as int);
                assert(t.drop_last() =~= out@.take(q - 1));
                assert(t.last() == out@[q - 1]);
                assert(insert_by_pos(t, m) == insert_by_pos(out@.take(q - 1), m).push(out@[q - 1]));
                assert(insert_by_pos(out@.take(q - 1), m).push(out@[q - 1]) + out@.skip(q as int) =~= insert_by_pos(
                    out@.take(q - 1),
                    m,
                ) + out@.skip(q - 1));
            }
            q -= 1;
        }
        proof {
            let t = out@.take(q as int);
            if q == 0 {
                assert(t.len() == 0);
                assert(insert_by_pos(t, m) == seq![m]);
            } else {
                assert(t.last() == out@[q - 1]);
                assert(insert_by_pos(t, m) == t.push(m));
            }
            assert(ms@.take(k + 1).drop_last() =~= ms@.take(k as int));
            assert(ms@.take(k + 1).last() == m);
        }
        let ghost before = out@;
        out.insert(q, m);
        proof {
            assert(out@ =~= before.take(q as int).push(m) + before.skip(q as int));
        }
        k += 1;
    }
    proof {
        assert(ms@.take(ms@.len() as int) =~= ms@);
    }
    out
}

/// What the seal read answers: the seals, centred on the rect, when there
/// are exactly `degree` of them; otherwise how many there were.
pub open spec fn seal_result(
    ink: Seq<Option<bool>>,
    x0: i32,
    y0: i32,
    w: i32,
    h: i32,
    min_ink: usize,
    merge: i32,
    min_height: i32,
    max_side: i32,
    degree: usize,
    r: Result<DoorMarkers, SealError>,
) -> bool {
    let seals = seals_spec(ink, x0, y0, w, min_ink, merge, min_height, max_side);
    match r {
        Ok(d) => d.centre == ((x0 + w / 2) as i32, (y0 + h / 2) as i32) && d.markers@ == seals && seals.len()
            == degree,
        Err(e) => seals.len() != degree && e == (SealError::CountMismatch {
            found: seals.len() as usize,
            expected: degree,
        }),
    }
}

/// Read the seals off the diamond's ink mask: `ink` holds one entry per
/// pixel of the `w × h` rect at capture `(x0, y0)`, row by row, green
/// (`Some(true)`), red (`Some(false)`) or no seal ink. The seals are the
/// 8-connected same-coloured blobs, largest first, each folded into the
/// first same-coloured seal whose centroid is less than `merge` away on
/// both axes, kept when they have at least `min_ink` pixels, a height of
/// `min_height` and no side over `max_side`, in position order. The read
/// fails rather than return a partial fan when the count is not `degree`.
pub fn seal_markers(
    ink: &Vec<Option<bool>>,
    x0: i32,
    y0: i32,
    w: i32,
    h: i32,
    min_ink: usize,
    merge: i32,
    min_height: i32,
    max_side: i32,
    degree: usize,
) -> (r: Result<DoorMarkers, SealError>)
    requires
        0 < w,
        0 < h,
        0 <= x0,
        0 <= y0,
        x0 + w <= COORD_LIMIT,
        y0 + h <= COORD_LIMIT,
        ink@.len() == w * h,
        ink@.len() <= PIXEL_LIMIT,
    ensures
        seal_result(ink@, x0, y0, w, h, min_ink, merge, min_height, max_side, degree, r),
{
    let blobs = ink_blobs(ink, x0, y0, w, h);
    proof {
        crate::ink::lemma_blobs_below_len(ink@, w as int, x0 as int, y0 as int, ink@.len() as int);
    }
    let sorted = sort_blobs(&blobs);
    let merged = merge_blobs(&sorted, merge);
    let kept = keep_seals(&merged, min_ink, min_height, max_side);
    let markers = sort_seals(&kept);
    if markers.len() != degree {
        return Err(SealError::CountMismatch { found: markers.len(), expected: degree });
    }
    Ok(DoorMarkers { centre: (x0 + w / 2, y0 + h / 2), markers })
}

// -------------------------------------------------------------- the laws --

/// Whether blob `b` passes every gate a seal must pass: at least `min_ink`
/// pixels, at least `min_height` tall, and no side over `max_side`.
pub open spec fn seal_sized(b: InkBlob, min_ink: usize, min_height: i32, max_side: i32) -> bool {
    &&& b.n >= min_ink
    &&& b.y1 - b.y0 + 1 >= min_height
    &&& b.x1 - b.x0 + 1 <= max_side
    &&& b.y1 - b.y0 + 1 <= max_side
}

/// Whether `m` is the seal of one of the blobs `bs` that passes the gates.
pub open spec fn from_sized_blob(bs: Seq<InkBlob>, m: Marker, min_ink: usize, min_height: i32, max_side: i32) -> bool {
    exists|p: int| 0 <= p < bs.len() && seal_of(#[trigger] bs[p]) == m && seal_sized(bs[p], min_ink, min_height, max_side)
}

/// Each kept seal is the seal of a blob that passes every gate.
proof fn lemma_kept_seals_sized(bs: Seq<InkBlob>, min_ink: usize, min_height: i32, max_side: i32)
    ensures
        forall|q: int|
            0 <= q < kept_seals(bs, min_ink, min_height, max_side).len() ==> from_sized_blob(
                bs,
                #[trigger] kept_seals(bs, min_ink, min_height, max_side)[q],
                min_ink,
                min_height,
                max_side,
            ),
    decreases bs.len(),
{
    if bs.len() > 0 {
        let front = bs.drop_last();
        lemma_kept_seals_sized(front, min_ink, min_height, max_side);
        let prev = kept_seals(front, min_ink, min_height, max_side);
        let now = kept_seals(bs, min_ink, min_height, max_side);
        assert forall|q: int| 0 <= q < now.len() implies from_sized_blob(bs, #[trigger] now[q], min_ink, min_height, max_side) by {
            if q < prev.len() {
                assert(now[q] == prev[q]);
                assert(from_sized_blob(front, prev[q], min_ink, min_height, max_side));
                let p = choose|p: int|
                    0 <= p < front.len() && seal_of(#[trigger] front[p]) == prev[q] && seal_sized(
                        front[p],
                        min_ink,
                        min_height,
                        max_side,
                    );
                assert(bs[p] == front[p]);
            } else {
                let p = bs.len() - 1;
                assert(now[q] == seal_of(bs[p]));
            }
        }
    }
}

/// Placing a seal into an ordered list only adds that seal.
proof fn lemma_insert_by_pos_from(sorted: Seq<Marker>, m: Marker)
    ensures
        insert_by_pos(sorted, m).len() == sorted.len() + 1,
        forall|i: int|
            0 <= i < sorted.len() + 1 ==> #[trigger] insert_by_pos(sorted, m)[i] == m || sorted.contains(
                insert_by_pos(sorted, m)[i],
            ),
    decreases sorted.len(),
{
    let out = insert_by_pos(sorted, m);
    if sorted.len() > 0 {
        if pos_le(sorted.last(), m) {
            assert forall|i: int| 0 <= i < sorted.len() + 1 implies #[trigger] out[i] == m || sorted.contains(out[i]) by {
                if i < sorted.len() {
                    assert(out[i] == sorted[i]);
                }
            }
        } else {
            let front = sorted.drop_last();
            lemma_insert_by_pos_from(front, m);
            let inner = insert_by_pos(front, m);
            assert forall|i: int| 0 <= i < sorted.len() + 1 implies #[trigger] out[i] == m || sorted.contains(out[i]) by {
                if i < sorted.len() {
                    assert(out[i] == inner[i]);
                    if inner[i] != m {
                        assert(front.contains(inner[i]));
                        let j = choose|j: int| 0 <= j < front.len() && front[j] == inner[i];
                        assert(sorted[j] == front[j]);
                    }
                } else {
                    assert(out[i] == sorted[sorted.len() - 1]);
                }
            }
        }
    }
}

/// Sorting seals by position keeps their number and adds none.
proof fn lemma_sort_by_pos_from(ms: Seq<Marker>)
    ensures
        sort_by_pos(ms).len() == ms.len(),
        forall|i: int| 0 <= i < ms.len() ==> ms.contains(#[trigger] sort_by_pos(ms)[i]),
    decreases ms.len(),
{
    if ms.len() > 0 {
        let front = ms.drop_last();
        lemma_sort_by_pos_from(front);
        let sorted = sort_by_pos(front);
        lemma_insert_by_pos_from(sorted, ms.last());
        let out = sort_by_pos(ms);
        assert forall|i: int| 0 <= i < ms.len() implies ms.contains(#[trigger] out[i]) by {
            if out[i] == ms.last() {
                assert(ms[ms.len() - 1] == out[i]);
            } else {
                assert(sorted.contains(out[i]));
                let j = choose|j: int| 0 <= j < sorted.len() && sorted[j] == out[i];
                assert(front.contains(sorted[j]));
                let k = choose|k: int| 0 <= k < front.len() && front[k] == sorted[j];
                assert(ms[k] == front[k]);
            }
        }
    }
}

/// The size gates hold of every seal read: each returned seal is the
/// centroid and colour of a merged blob with at least `min_ink` pixels, at
/// least `min_height` tall and no side over `max_side`; a blob shorter than
/// `min_height`, such as flat linework, never yields a seal.
pub proof fn lemma_every_seal_passes_the_gates(
    ink: Seq<Option<bool>>,
    x0: i32,
    y0: i32,
    w: i32,
    h: i32,
    min_ink: usize,
    merge: i32,
    min_height: i32,
    max_side: i32,
    degree: usize,
    r: Result<DoorMarkers, SealError>,
)
    requires
        seal_result(ink, x0, y0, w, h, min_ink, merge, min_height, max_side, degree, r),
    ensures
        r matches Ok(d) ==> forall|q: int|
            0 <= q < d.markers@.len() ==> from_sized_blob(
                merged_all(sort_by_size(blobs_below(ink, w as int, x0 as int, y0 as int, ink.len() as int)), merge),
                #[trigger] d.markers@[q],
                min_ink,
                min_height,
                max_side,
            ),
{
    let merged = merged_all(sort_by_size(blobs_below(ink, w as int, x0 as int, y0 as int, ink.len() as int)), merge);
    let kept = kept_seals(merged, min_ink, min_height, max_side);
    lemma_kept_seals_sized(merged, min_ink, min_height, max_side);
    lemma_sort_by_pos_from(kept);
    if let Ok(d) = r {
        assert forall|q: int| 0 <= q < d.markers@.len() implies from_sized_blob(
            merged,
            #[trigger] d.markers@[q],
            min_ink,
            min_height,
            max_side,
        ) by {
            assert(d.markers@[q] == sort_by_pos(kept)[q]);
            assert(kept.contains(sort_by_pos(kept)[q]));
            let j = choose|j: int| 0 <= j < kept.len() && kept[j] == sort_by_pos(kept)[q];
            assert(from_sized_blob(merged, kept[j], min_ink, min_height, max_side));
        }
    }
}

/// Every blob that passes the gates is kept.
proof fn lemma_sized_blobs_kept(bs: Seq<InkBlob>, min_ink: usize, min_height: i32, max_side: i32)
    ensures
        forall|p: int|
            0 <= p < bs.len() && seal_sized(#[trigger] bs[p], min_ink, min_height, max_side) ==> kept_seals(
                bs,
                min_ink,
                min_height,
                max_side,
            ).contains(seal_of(bs[p])),
    decreases bs.len(),
{
    if bs.len() > 0 {
        let front = bs.drop_last();
        lemma_sized_blobs_kept(front, min_ink, min_height, max_side);
        let prev = kept_seals(front, min_ink, min_height, max_side);
        let now = kept_seals(bs, min_ink, min_height, max_side);
        assert forall|p: int| 0 <= p < bs.len() && seal_sized(#[trigger] bs[p], min_ink, min_height, max_side) implies now.contains(
            seal_of(bs[p]),
        ) by {
            if p < front.len() {
                assert(bs[p] == front[p]);
                assert(prev.contains(seal_of(front[p])));
                let j = choose|j: int| 0 <= j < prev.len() && prev[j] == seal_of(front[p]);
                assert(now[j] == prev[j]);
            } else {
                assert(now[now.len() - 1] == seal_of(bs[p]));
            }
        }
    }
}

/// Placing a seal into an ordered list keeps every seal already there.
proof fn lemma_insert_by_pos_keeps(sorted: Seq<Marker>, m: Marker)
    ensures
        insert_by_pos(sorted, m).contains(m),
        forall|j: int| 0 <= j < sorted.len() ==> insert_by_pos(sorted, m).contains(#[trigger] sorted[j]),
    decreases sorted.len(),
{
    let out = insert_by_pos(sorted, m);
    if sorted.len() == 0 {
        assert(out[0] == m);
    } else if pos_le(sorted.last(), m) {
        assert(out[sorted.len() as int] == m);
        assert forall|j: int| 0 <= j < sorted.len() implies out.contains(#[trigger] sorted[j]) by {
            assert(out[j] == sorted[j]);
        }
    } else {
        let front = sorted.drop_last();
        lemma_insert_by_pos_keeps(front, m);
        let inner = insert_by_pos(front, m);
        let w = choose|w: int| 0 <= w < inner.len() && inner[w] == m;
        assert(out[w] == m);
        assert forall|j: int| 0 <= j < sorted.len() implies out.contains(#[trigger] sorted[j]) by {
            if j < front.len() {
                assert(front[j] == sorted[j]);
                assert(inner.contains(front[j]));
                let v = choose|v: int| 0 <= v < inner.len() && inner[v] == front[j];
                assert(out[v] == inner[v]);
            } else {
                assert(out[out.len() - 1] == sorted[j]);
            }
        }
    }
}

/// Sorting seals by position loses none.
proof fn lemma_sort_by_pos_keeps(ms: Seq<Marker>)
    ensures
        forall|j: int| 0 <= j < ms.len() ==> sort_by_pos(ms).contains(#[trigger] ms[j]),
    decreases ms.len(),
{
    if ms.len() > 0 {
        let front = ms.drop_last();
        lemma_sort_by_pos_keeps(front);
        let sorted = sort_by_pos(front);
        lemma_insert_by_pos_keeps(sorted, ms.last());
        let out = sort_by_pos(ms);
        assert forall|j: int| 0 <= j < ms.len() implies out.contains(#[trigger] ms[j]) by {
            if j < front.len() {
                assert(front[j] == ms[j]);
                assert(sorted.contains(front[j]));
                let v = choose|v: int| 0 <= v < sorted.len() && sorted[v] == front[j];
                assert(out.contains(sorted[v]));
            }
        }
    }
}

/// No seal-sized blob is lost: the seal of every merged blob that passes the
/// gates is among the seals read, so the count check weighs every one.
pub proof fn lemma_every_sized_blob_is_read(
    ink: Seq<Option<bool>>,
    x0: i32,
    y0: i32,
    w: i32,
    min_ink: usize,
    merge: i32,
    min_height: i32,
    max_side: i32,
)
    ensures
        forall|p: int|
            0 <= p < merged_all(sort_by_size(blobs_below(ink, w as int, x0 as int, y0 as int, ink.len() as int)), merge).len()
                && seal_sized(
                #[trigger] merged_all(sort_by_size(blobs_below(ink, w as int, x0 as int, y0 as int, ink.len() as int)), merge)[p],
                min_ink,
                min_height,
                max_side,
            ) ==> seals_spec(ink, x0, y0, w, min_ink, merge, min_height, max_side).contains(
                seal_of(merged_all(sort_by_size(blobs_below(ink, w as int, x0 as int, y0 as int, ink.len() as int)), merge)[p]),
            ),
{
    let merged = merged_all(sort_by_size(blobs_below(ink, w as int, x0 as int, y0 as int, ink.len() as int)), merge);
    let kept = kept_seals(merged, min_ink, min_height, max_side);
    lemma_sized_blobs_kept(merged, min_ink, min_height, max_side);
    lemma_sort_by_pos_keeps(kept);
    assert forall|p: int| 0 <= p < merged.len() && seal_sized(#[trigger] merged[p], min_ink, min_height, max_side) implies sort_by_pos(
        kept,
    ).contains(seal_of(merged[p])) by {
        assert(kept.contains(seal_of(merged[p])));
        let j = choose|j: int| 0 <= j < kept.len() && kept[j] == seal_of(merged[p]);
        assert(sort_by_pos(kept).contains(kept[j]));
    }
}

} // verus!
