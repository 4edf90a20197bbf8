//! The temple board's rigid 13-slot lattice.
//!
//! Every slot sits at a fixed offset from the Entrance centre, in reference
//! pixels. The corridor set is derived from those offsets rather than typed in,
//! so a wrong offset shows up as a wrong edge set.

use vstd::prelude::*;
use vstd::string::StringExecFns;

verus! {

/// Horizontal distance between two slots in the same row, reference px.
pub const COL_PITCH: i32 = 212;
/// Vertical distance between two rows, reference px.
pub const ROW_PITCH: i32 = 105;
/// The Entrance plate sits this much lower than the other two row-E plates.
pub const ENTRANCE_DROP: i32 = 19;

/// One of the 13 board positions, in the order `A0, B0, B1, …, E2`.
#[derive(Debug, Clone, Copy, PartialEq, Eq, Structural, PartialOrd, Ord, Hash)]
pub enum Slot {
    A0,
    B0,
    B1,
    C0,
    C1,
    C2,
    D0,
    D1,
    D2,
    D3,
    E0,
    E1,
    E2,
}

/// Position of a slot in board order, `0` for the Apex up to `12`.
pub open spec fn slot_index(s: Slot) -> int {
    match s {
        Slot::A0 => 0,
        Slot::B0 => 1,
        Slot::B1 => 2,
        Slot::C0 => 3,
        Slot::C1 => 4,
        Slot::C2 => 5,
        Slot::D0 => 6,
        Slot::D1 => 7,
        Slot::D2 => 8,
        Slot::D3 => 9,
        Slot::E0 => 10,
        Slot::E1 => 11,
        Slot::E2 => 12,
    }
}

/// The slot at a board-order index; meaningful for `0..13`.
pub open spec fn slot_of(i: int) -> Slot {
    if i <= 0 {
        Slot::A0
    } else if i == 1 {
        Slot::B0
    } else if i == 2 {
        Slot::B1
    } else if i == 3 {
        Slot::C0
    } else if i == 4 {
        Slot::C1
    } else if i == 5 {
        Slot::C2
    } else if i == 6 {
        Slot::D0
    } else if i == 7 {
        Slot::D1
    } else if i == 8 {
        Slot::D2
    } else if i == 9 {
        Slot::D3
    } else if i == 10 {
        Slot::E0
    } else if i == 11 {
        Slot::E1
    } else {
        Slot::E2
    }
}

/// `slot_index` and `slot_of` are inverse on the board.
pub proof fn lemma_slot_index_bijection()
    ensures
        forall|s: Slot| 0 <= #[trigger] slot_index(s) < 13 && slot_of(slot_index(s)) == s,
        forall|i: int| 0 <= i < 13 ==> slot_index(#[trigger] slot_of(i)) == i,
{
}

/// The key a slot is logged under: `"A0"`, `"B0"`, …
pub open spec fn slot_name(s: Slot) -> Seq<char> {
    match s {
        Slot::A0 => "A0"@,
        Slot::B0 => "B0"@,
        Slot::B1 => "B1"@,
        Slot::C0 => "C0"@,
        Slot::C1 => "C1"@,
        Slot::C2 => "C2"@,
        Slot::D0 => "D0"@,
        Slot::D1 => "D1"@,
        Slot::D2 => "D2"@,
        Slot::D3 => "D3"@,
        Slot::E0 => "E0"@,
        Slot::E1 => "E1"@,
        Slot::E2 => "E2"@,
    }
}

/// Row of a slot, `0` for the Apex's row A down to `4` for row E.
pub open spec fn slot_row(s: Slot) -> int {
    match s {
        Slot::A0 => 0,
        Slot::B0 | Slot::B1 => 1,
        Slot::C0 | Slot::C1 | Slot::C2 => 2,
        Slot::D0 | Slot::D1 | Slot::D2 | Slot::D3 => 3,
        Slot::E0 | Slot::E1 | Slot::E2 => 4,
    }
}

/// Vertical offset of a row that sits `rows_above_e` rows above row E,
/// measured from the Entrance centre (`+y` is down).
pub open spec fn row_dy(rows_above_e: int) -> int {
    -(ENTRANCE_DROP + rows_above_e * ROW_PITCH)
}

/// Offset of a slot's centre from the Entrance centre, reference px.
pub open spec fn slot_offset(s: Slot) -> (int, int) {
    match s {
        Slot::A0 => (0, row_dy(4)),
        Slot::B0 => (-106, row_dy(3)),
        Slot::B1 => (106, row_dy(3)),
        Slot::C0 => (-212, row_dy(2)),
        Slot::C1 => (0, row_dy(2)),
        Slot::C2 => (212, row_dy(2)),
        Slot::D0 => (-318, row_dy(1)),
        Slot::D1 => (-106, row_dy(1)),
        Slot::D2 => (106, row_dy(1)),
        Slot::D3 => (318, row_dy(1)),
        Slot::E0 => (-212, row_dy(0)),
        Slot::E1 => (0, 0),
        Slot::E2 => (212, row_dy(0)),
    }
}

pub open spec fn abs(x: int) -> int {
    if x < 0 {
        -x
    } else {
        x
    }
}

/// Which corridor geometry joins two slots, if any: a horizontal corridor is
/// one column pitch across with at most the Entrance drop of height, a diagonal
/// one half a pitch across and one row pitch (give or take the drop) up.
pub open spec fn corridor_between(a: Slot, b: Slot) -> Option<Corridor> {
    let dx = abs(slot_offset(a).0 - slot_offset(b).0);
    let dy = abs(slot_offset(a).1 - slot_offset(b).1);
    if dx == COL_PITCH && dy <= ENTRANCE_DROP {
        Some(Corridor::Horizontal)
    } else if dx * 2 == COL_PITCH && abs(dy - ROW_PITCH) <= ENTRANCE_DROP {
        Some(Corridor::Diagonal)
    } else {
        None
    }
}

/// Whether the two slots at board indices `i` and `j` are joined by a corridor.
pub open spec fn lattice_adjacent(i: int, j: int) -> bool {
    0 <= i < 13 && 0 <= j < 13 && corridor_between(slot_of(i), slot_of(j)) is Some
}

/// How many of the slots below board index `k` a corridor joins to slot `i`.
pub open spec fn degree_below(i: int, k: int) -> nat
    decreases k,
{
    if k <= 0 {
        0
    } else {
        degree_below(i, k - 1) + if lattice_adjacent(i, k - 1) {
            1nat
        } else {
            0nat
        }
    }
}

/// How many corridors have their lower end below board index `i`.
pub open spec fn corridors_below(i: int) -> nat
    decreases i,
{
    if i <= 0 {
        0
    } else {
        corridors_below(i - 1) + (degree_below(i - 1, 13) - degree_below(i - 1, i)) as nat
    }
}

/// How many corridor ends the slots below board index `i` carry.
pub open spec fn ends_below(i: int) -> nat
    decreases i,
{
    if i <= 0 {
        0
    } else {
        ends_below(i - 1) + degree_below(i - 1, 13)
    }
}

/// Each slot's corridor count on the measured board.
pub open spec fn slot_degree(s: Slot) -> nat {
    match s {
        Slot::A0 => 2,
        Slot::B0 | Slot::B1 | Slot::C0 | Slot::C2 | Slot::E1 => 4,
        Slot::C1 | Slot::D1 | Slot::D2 => 6,
        Slot::D0 | Slot::D3 | Slot::E0 | Slot::E2 => 3,
    }
}

/// The board's corridor counts: every slot carries the measured number of
/// corridors, no slot has a corridor to itself, there are 26 corridors, and
/// their 52 ends are shared out over the 13 slots.
pub proof fn lemma_lattice_counts()
    ensures
        forall|s: Slot| #[trigger] degree_below(slot_index(s), 13) == slot_degree(s),
        forall|i: int| !lattice_adjacent(i, i),
        corridors_below(13) == 26,
        ends_below(13) == 52,
{
    reveal_with_fuel(degree_below, 14);
    reveal_with_fuel(corridors_below, 14);
    reveal_with_fuel(ends_below, 14);
    assert(degree_below(0, 13) == 2);
    assert(degree_below(1, 13) == 4);
    assert(degree_below(2, 13) == 4);
    assert(degree_below(3, 13) == 4);
    assert(degree_below(4, 13) == 6);
    assert(degree_below(5, 13) == 4);
    assert(degree_below(6, 13) == 3);
    assert(degree_below(7, 13) == 6);
    assert(degree_below(8, 13) == 6);
    assert(degree_below(9, 13) == 3);
    assert(degree_below(10, 13) == 3);
    assert(degree_below(11, 13) == 4);
    assert(degree_below(12, 13) == 3);
    assert(corridors_below(13) == 26);
    assert(ends_below(13) == 52);
}

/// Counting more slots never counts fewer corridors.
pub proof fn lemma_degree_monotone(i: int, a: int, b: int)
    requires
        a <= b,
    ensures
        degree_below(i, a) <= degree_below(i, b),
    decreases b - a,
{
    if a < b {
        lemma_degree_monotone(i, a, b - 1);
    }
}

/// A corridor is undirected: naming its ends in either order names the same
/// corridor.
pub proof fn lemma_edge_undirected(a: int, b: int)
    requires
        a != b,
    ensures
        edge_between(a, b) == edge_between(b, a),
{
}

/// Corridors run both ways.
pub proof fn lemma_adjacent_symmetric(i: int, j: int)
    ensures
        lattice_adjacent(i, j) == lattice_adjacent(j, i),
{
}

impl Slot {
    /// The Apex of Atzoatl — the single row-A slot.
    pub open spec fn apex() -> Slot {
        Slot::A0
    }

    /// Position in board order.
    pub fn index(self) -> (r: usize)
        ensures
            r == slot_index(self),
            r < 13,
    {
        match self {
            Slot::A0 => 0,
            Slot::B0 => 1,
            Slot::B1 => 2,
            Slot::C0 => 3,
            Slot::C1 => 4,
            Slot::C2 => 5,
            Slot::D0 => 6,
            Slot::D1 => 7,
            Slot::D2 => 8,
            Slot::D3 => 9,
            Slot::E0 => 10,
            Slot::E1 => 11,
            Slot::E2 => 12,
        }
    }

    /// `"A0"`, `"B0"`, … — the slot's key.
    pub fn as_str(self) -> (r: &'static str)
        ensures
            r@ == slot_name(self),
    {
        match self {
            Slot::A0 => "A0",
            Slot::B0 => "B0",
            Slot::B1 => "B1",
            Slot::C0 => "C0",
            Slot::C1 => "C1",
            Slot::C2 => "C2",
            Slot::D0 => "D0",
            Slot::D1 => "D1",
            Slot::D2 => "D2",
            Slot::D3 => "D3",
            Slot::E0 => "E0",
            Slot::E1 => "E1",
            Slot::E2 => "E2",
        }
    }

    /// Row index, `0` for the Apex's row A down to `4` for the Entrance's row.
    pub fn row(self) -> (r: u8)
        ensures
            r == slot_row(self),
    {
        match self {
            Slot::A0 => 0,
            Slot::B0 | Slot::B1 => 1,
            Slot::C0 | Slot::C1 | Slot::C2 => 2,
            Slot::D0 | Slot::D1 | Slot::D2 | Slot::D3 => 3,
            Slot::E0 | Slot::E1 | Slot::E2 => 4,
        }
    }

    /// Offset of this slot's centre from the Entrance centre, reference px.
    pub fn offset(self) -> (r: (i32, i32))
        ensures
            r.0 == slot_offset(self).0,
            r.1 == slot_offset(self).1,
    {
        match self {
            Slot::A0 => (0, -(ENTRANCE_DROP + 4 * ROW_PITCH)),
            Slot::B0 => (-106, -(ENTRANCE_DROP + 3 * ROW_PITCH)),
            Slot::B1 => (106, -(ENTRANCE_DROP + 3 * ROW_PITCH)),
            Slot::C0 => (-212, -(ENTRANCE_DROP + 2 * ROW_PITCH)),
            Slot::C1 => (0, -(ENTRANCE_DROP + 2 * ROW_PITCH)),
            Slot::C2 => (212, -(ENTRANCE_DROP + 2 * ROW_PITCH)),
            Slot::D0 => (-318, -(ENTRANCE_DROP + ROW_PITCH)),
            Slot::D1 => (-106, -(ENTRANCE_DROP + ROW_PITCH)),
            Slot::D2 => (106, -(ENTRANCE_DROP + ROW_PITCH)),
            Slot::D3 => (318, -(ENTRANCE_DROP + ROW_PITCH)),
            Slot::E0 => (-212, -ENTRANCE_DROP),
            Slot::E1 => (0, 0),
            Slot::E2 => (212, -ENTRANCE_DROP),
        }
    }
}

/// The slot at a board-order index.
pub fn slot_at(index: usize) -> (r: Slot)
    requires
        index < 13,
    ensures
        r == slot_of(index as int),
        slot_index(r) == index,
{
    match index {
        0 => Slot::A0,
        1 => Slot::B0,
        2 => Slot::B1,
        3 => Slot::C0,
        4 => Slot::C1,
        5 => Slot::C2,
        6 => Slot::D0,
        7 => Slot::D1,
        8 => Slot::D2,
        9 => Slot::D3,
        10 => Slot::E0,
        11 => Slot::E1,
        _ => Slot::E2,
    }
}

/// Which of the two corridor geometries an edge is drawn as.
#[derive(Debug, Clone, Copy, PartialEq, Eq, Structural, PartialOrd, Ord, Hash)]
pub enum Corridor {
    /// Same row, `COL_PITCH` apart.
    Horizontal,
    /// Adjacent rows, `COL_PITCH / 2` apart.
    Diagonal,
}

/// An undirected corridor between two slots, stored with its lower slot first.
#[derive(Debug, Clone, Copy, PartialEq, Eq, Structural, PartialOrd, Ord, Hash)]
pub struct Edge {
    lo: Slot,
    hi: Slot,
}

impl Edge {
    #[verifier::type_invariant]
    spec fn ordered(self) -> bool {
        slot_index(self.lo) < slot_index(self.hi)
    }

    /// The lower endpoint, in board order.
    pub closed spec fn lo_end(self) -> Slot {
        self.lo
    }

    /// The higher endpoint, in board order.
    pub closed spec fn hi_end(self) -> Slot {
        self.hi
    }

    /// The corridor between board indices `i < j`.
    pub closed spec fn spec_between(i: int, j: int) -> Edge {
        Edge { lo: slot_of(i), hi: slot_of(j) }
    }

    /// The endpoints of `spec_between`.
    pub proof fn lemma_between(i: int, j: int)
        ensures
            Edge::spec_between(i, j).lo_end() == slot_of(i),
            Edge::spec_between(i, j).hi_end() == slot_of(j),
    {
    }

    /// A corridor is its two endpoints.
    pub proof fn lemma_eq(e1: Edge, e2: Edge)
        requires
            e1.lo_end() == e2.lo_end(),
            e1.hi_end() == e2.hi_end(),
        ensures
            e1 == e2,
    {
    }

    /// Whether `s` is one of the two endpoints.
    pub open spec fn has_end(self, s: Slot) -> bool {
        self.lo_end() == s || self.hi_end() == s
    }

    /// Two corridors with the same endpoints are the same corridor.
    pub proof fn lemma_ends_determine(self, other: Edge)
        requires
            self.lo_end() == other.lo_end(),
            self.hi_end() == other.hi_end(),
        ensures
            self == other,
    {
    }

    /// The corridor joining `a` and `b`, in either order.
    pub fn new(a: Slot, b: Slot) -> (r: Edge)
        requires
            a != b,
        ensures
            r.has_end(a),
            r.has_end(b),
            slot_index(r.lo_end()) < slot_index(r.hi_end()),
            r == edge_between(slot_index(a), slot_index(b)),
    {
        proof {
            lemma_slot_index_bijection();
        }
        if a.index() < b.index() {
            Edge { lo: a, hi: b }
        } else {
            Edge { lo: b, hi: a }
        }
    }

    /// The two endpoints, lower first.
    pub fn ends(self) -> (r: (Slot, Slot))
        ensures
            r.0 == self.lo_end(),
            r.1 == self.hi_end(),
            slot_index(r.0) < slot_index(r.1),
    {
        proof {
            use_type_invariant(self);
        }
        (self.lo, self.hi)
    }

    /// Whether `slot` is one of the endpoints.
    pub fn touches(self, slot: Slot) -> (r: bool)
        ensures
            r == self.has_end(slot),
    {
        self.lo == slot || self.hi == slot
    }

    /// Which corridor family this pair forms, or `None` when the two slots are
    /// not adjacent on the board.
    pub fn kind(self) -> (r: Option<Corridor>)
        ensures
            r == corridor_between(self.lo_end(), self.hi_end()),
    {
        corridor_kind(self.lo, self.hi)
    }

    /// `"A0-B0"` — the two endpoint keys, lower first.
    pub fn to_string(&self) -> (r: String)
        ensures
            r@ == slot_name(self.lo_end()) + "-"@ + slot_name(self.hi_end()),
    {
        let mut out = String::from_str(self.lo.as_str());
        out.append("-");
        out.append(self.hi.as_str());
        out
    }
}

/// The corridor between two distinct board indices, in either order.
pub open spec fn edge_between(a: int, b: int) -> Edge {
    if a < b {
        Edge::spec_between(a, b)
    } else {
        Edge::spec_between(b, a)
    }
}

/// The corridor family joining two slots, computed from their offsets.
fn corridor_kind(a: Slot, b: Slot) -> (r: Option<Corridor>)
    ensures
        r == corridor_between(a, b),
{
    let (ax, ay) = a.offset();
    let (bx, by) = b.offset();
    let dx = if ax >= bx { ax - bx } else { bx - ax };
    let dy = if ay >= by { ay - by } else { by - ay };
    let sag = if dy >= ROW_PITCH { dy - ROW_PITCH } else { ROW_PITCH - dy };
    if dx == COL_PITCH && dy <= ENTRANCE_DROP {
        Some(Corridor::Horizontal)
    } else if dx * 2 == COL_PITCH && sag <= ENTRANCE_DROP {
        Some(Corridor::Diagonal)
    } else {
        None
    }
}

/// Whether a corridor could ever join `a` and `b`.
pub fn adjacent(a: Slot, b: Slot) -> (r: bool)
    ensures
        r == (corridor_between(a, b) is Some),
{
    corridor_kind(a, b).is_some()
}

/// Board-order rank of an edge: lower endpoint first, then higher.
pub open spec fn edge_rank(e: Edge) -> int {
    slot_index(e.lo_end()) * 13 + slot_index(e.hi_end())
}

/// The geometrically possible corridors, in board order.
pub fn edges() -> (r: Vec<Edge>)
    ensures
        forall|k: int|
            0 <= k < r@.len() ==> corridor_between(#[trigger] r@[k].lo_end(), r@[k].hi_end())
                is Some,
        forall|k1: int, k2: int|
            0 <= k1 < k2 < r@.len() ==> edge_rank(#[trigger] r@[k1]) < edge_rank(#[trigger] r@[k2]),
        forall|i: int, j: int|
            0 <= i < j < 13 && lattice_adjacent(i, j) ==> exists|k: int|
                0 <= k < r@.len() && #[trigger] r@[k].lo_end() == slot_of(i) && r@[k].hi_end()
                    == slot_of(j),
        forall|k: int| 0 <= k < r@.len() ==> slot_index(#[trigger] r@[k].lo_end()) < slot_index(r@[k].hi_end()),
        forall|a: int, b: int|
            0 <= a < 13 && 0 <= b < 13 && a != b ==> (#[trigger] r@.contains(edge_between(a, b))
                <==> lattice_adjacent(a, b)),
        r@.len() == 26,
{
    let mut out: Vec<Edge> = Vec::new();
    let mut i: usize = 0;
    while i < 13
        invariant
            i <= 13,
            out@.len() == corridors_below(i as int),
            forall|k: int|
                0 <= k < out@.len() ==> corridor_between(#[trigger] out@[k].lo_end(), out@[k].hi_end())
                    is Some,
            forall|k: int| 0 <= k < out@.len() ==> slot_index(#[trigger] out@[k].lo_end()) < i,
            forall|k: int|
                0 <= k < out@.len() ==> slot_index(#[trigger] out@[k].lo_end()) < slot_index(
                    out@[k].hi_end(),
                ),
            forall|k1: int, k2: int|
                0 <= k1 < k2 < out@.len() ==> edge_rank(#[trigger] out@[k1]) < edge_rank(
                    #[trigger] out@[k2],
                ),
            forall|a: int, b: int|
                0 <= a < i && a < b < 13 && lattice_adjacent(a, b) ==> exists|k: int|
                    0 <= k < out@.len() && #[trigger] out@[k].lo_end() == slot_of(a)
                        && out@[k].hi_end() == slot_of(b),
        decreases 13 - i,
    {
        let mut j: usize = i + 1;
        while j < 13
            invariant
                i < 13,
                i + 1 <= j <= 13,
                out@.len() == corridors_below(i as int) + degree_below(i as int, j as int) - degree_below(
                    i as int,
                    i + 1,
                ),
                forall|k: int|
                    0 <= k < out@.len() ==> corridor_between(
                        #[trigger] out@[k].lo_end(),
                        out@[k].hi_end(),
                    ) is Some,
                forall|k: int|
                    0 <= k < out@.len() ==> edge_rank(#[trigger] out@[k]) < i * 13 + j,
                forall|k: int| 0 <= k < out@.len() ==> slot_index(#[trigger] out@[k].lo_end()) <= i,
                forall|k: int|
                    0 <= k < out@.len() ==> slot_index(#[trigger] out@[k].lo_end()) < slot_index(
                        out@[k].hi_end(),
                    ),
                forall|k1: int, k2: int|
                    0 <= k1 < k2 < out@.len() ==> edge_rank(#[trigger] out@[k1]) < edge_rank(
                        #[trigger] out@[k2],
                    ),
                forall|a: int, b: int|
                    (0 <= a < i && a < b < 13 || a == i && i < b < j) && lattice_adjacent(a, b)
                        ==> exists|k: int|
                        0 <= k < out@.len() && #[trigger] out@[k].lo_end() == slot_of(a)
                            && out@[k].hi_end() == slot_of(b),
            decreases 13 - j,
        {
            let a = slot_at(i);
            let b = slot_at(j);
            let ghost prev = out@;
            if corridor_kind(a, b).is_some() {
                let e = Edge::new(a, b);
                out.push(e);
            }
            proof {
                assert forall|x: int, y: int|
                    (0 <= x < i && x < y < 13 || x == i && i < y < j + 1) && lattice_adjacent(
                        x,
                        y,
                    ) implies exists|k: int|
                    0 <= k < out@.len() && #[trigger] out@[k].lo_end() == slot_of(x)
                        && out@[k].hi_end() == slot_of(y) by {
                    if x == i && y == j {
                        let n = out@.len() - 1;
                        assert(out@[n].lo_end() == slot_of(x));
                    } else {
                        let k = choose|k: int|
                            0 <= k < prev.len() && #[trigger] prev[k].lo_end() == slot_of(x)
                                && prev[k].hi_end() == slot_of(y);
                        assert(out@[k] == prev[k]);
                    }
                }
            }
            j += 1;
        }
        proof {
            lemma_degree_monotone(i as int, i + 1, 13);
        }
        i += 1;
    }
    proof {
        lemma_lattice_counts();
        lemma_slot_index_bijection();
        assert forall|a: int, b: int|
            0 <= a < 13 && 0 <= b < 13 && a != b implies (#[trigger] out@.contains(edge_between(a, b))
                <==> lattice_adjacent(a, b)) by {
            let (x, y) = if a < b { (a, b) } else { (b, a) };
            Edge::lemma_between(x, y);
            lemma_adjacent_symmetric(a, b);
            if lattice_adjacent(a, b) {
                let k = choose|k: int|
                    0 <= k < out@.len() && #[trigger] out@[k].lo_end() == slot_of(x) && out@[k].hi_end() == slot_of(y);
                Edge::lemma_eq(out@[k], edge_between(a, b));
            }
            if out@.contains(edge_between(a, b)) {
                let k = choose|k: int| 0 <= k < out@.len() && out@[k] == edge_between(a, b);
                assert(corridor_between(out@[k].lo_end(), out@[k].hi_end()) is Some);
            }
        }
    }
    out
}

/// The slots reachable from `slot` by one corridor, in board order.
pub fn neighbours(slot: Slot) -> (r: Vec<Slot>)
    ensures
        forall|k: int| 0 <= k < r@.len() ==> lattice_adjacent(slot_index(slot), slot_index(#[trigger] r@[k])),
        forall|k1: int, k2: int|
            0 <= k1 < k2 < r@.len() ==> slot_index(#[trigger] r@[k1]) < slot_index(#[trigger] r@[k2]),
        forall|j: int|
            0 <= j < 13 && lattice_adjacent(slot_index(slot), j) ==> exists|k: int|
                0 <= k < r@.len() && #[trigger] r@[k] == slot_of(j),
        forall|n: Slot| #[trigger] r@.contains(n) <==> lattice_adjacent(slot_index(slot), slot_index(n)),
        r@.len() == slot_degree(slot),
{
    let mut out: Vec<Slot> = Vec::new();
    let mut j: usize = 0;
    let ghost si = slot_index(slot);
    proof {
        lemma_slot_index_bijection();
    }
    while j < 13
        invariant
            j <= 13,
            si == slot_index(slot),
            0 <= si < 13,
            slot_of(si) == slot,
            forall|k: int| 0 <= k < out@.len() ==> lattice_adjacent(si, slot_index(#[trigger] out@[k])),
            forall|k: int| 0 <= k < out@.len() ==> slot_index(#[trigger] out@[k]) < j,
            out@.len() == degree_below(si, j as int),
            forall|k1: int, k2: int|
                0 <= k1 < k2 < out@.len() ==> slot_index(#[trigger] out@[k1]) < slot_index(
                    #[trigger] out@[k2],
                ),
            forall|b: int|
                0 <= b < j && lattice_adjacent(si, b) ==> exists|k: int|
                    0 <= k < out@.len() && #[trigger] out@[k] == slot_of(b),
        decreases 13 - j,
    {
        let b = slot_at(j);
        let ghost prev = out@;
        if corridor_kind(slot, b).is_some() {
            out.push(b);
        }
        proof {
            lemma_slot_index_bijection();
            assert forall|y: int| 0 <= y < j + 1 && lattice_adjacent(si, y) implies exists|k: int|
                0 <= k < out@.len() && #[trigger] out@[k] == slot_of(y) by {
                if y == j {
                    assert(out@[out@.len() - 1] == slot_of(y));
                } else {
                    let k = choose|k: int| 0 <= k < prev.len() && #[trigger] prev[k] == slot_of(y);
                    assert(out@[k] == prev[k]);
                }
            }
        }
        j += 1;
    }
    proof {
        lemma_lattice_counts();
        lemma_slot_index_bijection();
        assert forall|n: Slot| #[trigger] out@.contains(n) <==> lattice_adjacent(si, slot_index(n)) by {
            if lattice_adjacent(si, slot_index(n)) {
                let k = choose|k: int| 0 <= k < out@.len() && #[trigger] out@[k] == slot_of(slot_index(n));
            }
            if out@.contains(n) {
                let k = choose|k: int| 0 <= k < out@.len() && out@[k] == n;
            }
        }
    }
    out
}

} // verus!
