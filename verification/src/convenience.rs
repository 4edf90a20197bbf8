//! The door to open with a key the move has no use for: the one that shortens
//! a walk.
//!
//! Four walks rank the closed corridors inside the room's own cluster,
//! lexicographically: Entrance → Apex, Entrance → the wanted rooms (summed),
//! the wanted rooms → Apex (summed), and, as the fallback, the longest open
//! loop the corridor closes. A corridor that merges clusters is the ranking's
//! business and is never offered here; one RU would veto is filtered out.

use vstd::prelude::*;

use crate::doorset::DoorSet;
use crate::lattice::{slot_index, slot_name, Edge, Slot};
use crate::masks::{holds, mask_holds, SlotMask};
use crate::rollout::Valuation;
use crate::rules::{
    applied_rooms, decimal, edges_join, holds_exactly, hops_value, is_hops_to, joint_table, lemma_hops_unique,
    ru_of_set, targeted_room, ArchitectChoice,
};
use crate::state::{
    closed_scan, closure, component, far_index, hop_distances, is_hop_distance, reachable, single, within, BoardState,
    Room,
};

verus! {

/// The fewest open corridors from board index `a` to `j`, or `None` when no
/// open walk joins them.
pub open spec fn hop(open: Seq<u16>, a: int, j: int) -> Option<usize> {
    hops_value(open, a, single(j))
}

/// A hop distance is the hop count to the one-slot target.
proof fn lemma_hop_single(open: Seq<u16>, a: int, j: int, r: Option<usize>)
    requires
        0 <= j < 13,
        match r {
            Some(d) => is_hop_distance(open, a, j, d as nat),
            None => !reachable(open, single(a), j),
        },
    ensures
        hop(open, a, j) == r,
{
    crate::masks::lemma_holds_single(j as u16);
    assert forall|e: nat| #[trigger] crate::rules::meets_within(open, a, single(j), e) == holds(within(open, single(a), e), j) by {
        if crate::rules::meets_within(open, a, single(j), e) {
            let k = choose|k: int| 0 <= k < 13 && holds(single(j), k) && holds(within(open, single(a), e), k);
            assert(k == j);
        }
        assert(holds(single(j), j));
    }
    assert(is_hops_to(open, a, single(j), r));
    lemma_hops_unique(open, a, single(j), r);
}

/// A hop distance never exceeds the walk's settling bound.
proof fn lemma_hop_bound(open: Seq<u16>, a: int, j: int, d: nat)
    requires
        is_hop_distance(open, a, j, d),
    ensures
        d <= 16,
{
    if d > 16 {
        crate::state::lemma_within_settles(open, single(a));
        crate::state::lemma_within_fixpoint(open, single(a), 16, d);
        assert(!holds(within(open, single(a), 16), j));
    }
}

/// The summed hops from `from` to every wanted room the Entrance reaches,
/// over the slots below `k`.
pub open spec fn walk_sum(open: Seq<u16>, rooms: Seq<Room>, valuation: Valuation, from: int, k: int) -> nat
    decreases k,
{
    if k <= 0 {
        0
    } else {
        walk_sum(open, rooms, valuation, from, k - 1) + if targeted_room(rooms[k - 1], valuation) && holds(
            closure(open, single(11)),
            k - 1,
        ) {
            match hop(open, from, k - 1) {
                Some(d) => d as nat,
                None => 0nat,
            }
        } else {
            0nat
        }
    }
}

/// How many of the slots below `k` hold a wanted room.
pub open spec fn wanted_count(rooms: Seq<Room>, valuation: Valuation, k: int) -> nat
    decreases k,
{
    if k <= 0 {
        0
    } else {
        wanted_count(rooms, valuation, k - 1) + if targeted_room(rooms[k - 1], valuation) {
            1nat
        } else {
            0nat
        }
    }
}

/// The three walks on one adjacency table.
#[derive(Debug, Clone, Copy, PartialEq, Eq, Structural)]
pub struct Walks {
    /// Entrance → Apex, in hops; `None` while the Apex is cut off.
    pub apex: Option<usize>,
    /// Entrance → every wanted room the Entrance reaches, summed.
    pub targets: usize,
    /// The Apex → every wanted room the Entrance reaches, summed.
    pub targets_apex: usize,
}

/// The walks a table and a room layout give.
pub open spec fn walks_of(open: Seq<u16>, rooms: Seq<Room>, valuation: Valuation) -> (Option<usize>, nat, nat) {
    (hop(open, 11, 0), walk_sum(open, rooms, valuation, 11, 13), walk_sum(open, rooms, valuation, 0, 13))
}

impl Walks {
    /// Measure the three walks over `open`, with the wanted rooms those of
    /// `rooms`.
    pub fn measure(open: &[SlotMask; 13], rooms: &[Room; 13], valuation: &Valuation) -> (r: Walks)
        ensures
            (r.apex, r.targets as nat, r.targets_apex as nat) == walks_of(open@, rooms@, *valuation),
    {
        let from_entrance = hop_distances(open, Slot::E1);
        let from_apex = hop_distances(open, Slot::A0);
        let reach = component(open, Slot::E1);
        proof {
            lemma_hop_single(open@, 11, 0, from_entrance[0]);
        }
        let mut targets: usize = 0;
        let mut targets_apex: usize = 0;
        let mut i: usize = 0;
        while i < 13
            invariant
                i <= 13,
                reach == closure(open@, single(11)),
                forall|k: int|
                    0 <= k < 13 ==> match #[trigger] from_entrance[k] {
                        Some(d) => is_hop_distance(open@, 11, k, d as nat),
                        None => !reachable(open@, single(11), k),
                    },
                forall|k: int|
                    0 <= k < 13 ==> match #[trigger] from_apex[k] {
                        Some(d) => is_hop_distance(open@, 0, k, d as nat),
                        None => !reachable(open@, single(0), k),
                    },
                targets == walk_sum(open@, rooms@, *valuation, 11, i as int),
                targets_apex == walk_sum(open@, rooms@, *valuation, 0, i as int),
                targets <= 16 * i,
                targets_apex <= 16 * i,
            decreases 13 - i,
        {
            let (line, tier) = rooms[i];
            proof {
                assert(rooms@[i as int] == rooms[i as int]);
                lemma_hop_single(open@, 11, i as int, from_entrance[i as int]);
                lemma_hop_single(open@, 0, i as int, from_apex[i as int]);
            }
            let mut wanted = false;
            if tier != crate::strategy::Tier::T0 {
                match line {
                    Some(l) => {
                        wanted = valuation.is_target(valuation.tag(l));
                    },
                    None => {},
                }
            }
            if wanted && mask_holds(reach, i) {
                match from_entrance[i] {
                    Some(d) => {
                        proof {
                            lemma_hop_bound(open@, 11, i as int, d as nat);
                        }
                        targets = targets + d;
                    },
                    None => {},
                }
                match from_apex[i] {
                    Some(d) => {
                        proof {
                            lemma_hop_bound(open@, 0, i as int, d as nat);
                        }
                        targets_apex = targets_apex + d;
                    },
                    None => {},
                }
            }
            i += 1;
        }
        Walks { apex: from_entrance[0], targets, targets_apex }
    }
}

/// The walk a convenience door shortens: the first of the four it improves,
/// or the loop it closes when it improves none.
#[derive(Debug, Clone, Copy, PartialEq, Eq, Structural)]
pub enum Why {
    /// Entrance → Apex, in hops.
    ApexWalk { before: usize, after: usize },
    /// Entrance → every wanted room the Entrance reaches, summed.
    TargetWalk { rooms: usize, before: usize, after: usize },
    /// Every wanted room → the Apex, summed.
    TargetsToApex { rooms: usize, before: usize, after: usize },
    /// No walk shortened; the corridor closes the longest loop, its far end
    /// `hops` away by open doors.
    Loop { far: Slot, hops: usize },
}

/// The convenience door, and the walk it shortens.
#[derive(Debug, Clone, Copy, PartialEq, Eq, Structural)]
pub struct ConvenienceDoor {
    /// The corridor to open.
    pub door: Edge,
    /// Which of the four walks decided it.
    pub why: Why,
}

/// `"s"` unless there is exactly one.
pub open spec fn plural_text(n: usize) -> Seq<char> {
    if n == 1 {
        ""@
    } else {
        "s"@
    }
}

fn plural(n: usize) -> (r: &'static str)
    ensures
        r@ == plural_text(n),
{
    if n == 1 {
        ""
    } else {
        "s"
    }
}

/// An edge as the page prints it: `"B0-C1"`.
pub open spec fn edge_text(e: Edge) -> Seq<char> {
    slot_name(e.lo_end()) + "-"@ + slot_name(e.hi_end())
}

/// The one line the page prints for a convenience door.
pub open spec fn convenience_text(c: ConvenienceDoor) -> Seq<char> {
    let head = "convenience door "@ + edge_text(c.door);
    match c.why {
        Why::ApexWalk { before, after } => head + ": shortens the Entrance → Apex walk, "@ + decimal(before as nat)
            + " → "@ + decimal(after as nat) + " hops"@,
        Why::TargetWalk { rooms, before, after } => head + ": shortens the Entrance → wanted rooms walk, "@ + decimal(
            before as nat,
        ) + " → "@ + decimal(after as nat) + " hops over "@ + decimal(rooms as nat) + " room"@ + plural_text(rooms),
        Why::TargetsToApex { rooms, before, after } => head + ": shortens the wanted rooms → Apex walk, "@ + decimal(
            before as nat,
        ) + " → "@ + decimal(after as nat) + " hops over "@ + decimal(rooms as nat) + " room"@ + plural_text(rooms),
        Why::Loop { far, hops } => head + ": closes the longest open loop — "@ + slot_name(far) + " is "@ + decimal(
            hops as nat,
        ) + " hops away by open doors"@,
    }
}

impl ConvenienceDoor {
    /// One line for the page, naming the door and the walk.
    pub fn describe(&self) -> (r: String)
        ensures
            r@ == convenience_text(*self),
    {
        let mut out = String::from_str("convenience door ");
        out.append(self.door.to_string().as_str());
        match self.why {
            Why::ApexWalk { before, after } => {
                out.append(": shortens the Entrance → Apex walk, ");
                crate::rules::push_decimal(&mut out, before as u64);
                out.append(" → ");
                crate::rules::push_decimal(&mut out, after as u64);
                out.append(" hops");
            },
            Why::TargetWalk { rooms, before, after } => {
                out.append(": shortens the Entrance → wanted rooms walk, ");
                crate::rules::push_decimal(&mut out, before as u64);
                out.append(" → ");
                crate::rules::push_decimal(&mut out, after as u64);
                out.append(" hops over ");
                crate::rules::push_decimal(&mut out, rooms as u64);
                out.append(" room");
                out.append(plural(rooms));
            },
            Why::TargetsToApex { rooms, before, after } => {
                out.append(": shortens the wanted rooms → Apex walk, ");
                crate::rules::push_decimal(&mut out, before as u64);
                out.append(" → ");
                crate::rules::push_decimal(&mut out, after as u64);
                out.append(" hops over ");
                crate::rules::push_decimal(&mut out, rooms as u64);
                out.append(" room");
                out.append(plural(rooms));
            },
            Why::Loop { far, hops } => {
                out.append(": closes the longest open loop — ");
                out.append(far.as_str());
                out.append(" is ");
                crate::rules::push_decimal(&mut out, hops as u64);
                out.append(" hops away by open doors");
            },
        }
        proof {
            assert(out@ =~= convenience_text(*self));
        }
        out
    }
}


/// `a - b`, or 0 when `b` is larger.
pub open spec fn sat_sub(a: int, b: int) -> int {
    if a > b {
        a - b
    } else {
        0
    }
}

/// The adjacency table with the corridor `e` opened as well.
pub open spec fn single_door_table(board: BoardState, e: Edge) -> Seq<u16> {
    joint_table(board.doors, |i: int, j: int| edges_join(seq![e], i, j))
}

/// A convenience door's ranking key: the gains on the three walks, then the
/// loop it closes.
pub open spec fn conv_key(
    board: BoardState,
    position: Slot,
    architect: Option<&ArchitectChoice>,
    valuation: Valuation,
    e: Edge,
) -> (int, int, int, int) {
    let rooms = applied_rooms(board, position, architect);
    let before = walks_of(board.open(), rooms, valuation);
    let after = walks_of(single_door_table(board, e), rooms, valuation);
    (
        match (before.0, after.0) {
            (Some(b), Some(a)) => sat_sub(b as int, a as int),
            _ => 0,
        },
        sat_sub(before.1 as int, after.1 as int),
        sat_sub(before.2 as int, after.2 as int),
        match hop(board.open(), slot_index(position), far_index(e, position)) {
            Some(d) => d as int,
            None => 0,
        },
    )
}

/// Lexicographic "greater" on the four-walk key.
pub open spec fn key_gt(a: (int, int, int, int), b: (int, int, int, int)) -> bool {
    a.0 > b.0 || (a.0 == b.0 && (a.1 > b.1 || (a.1 == b.1 && (a.2 > b.2 || (a.2 == b.2 && a.3 > b.3)))))
}

/// Whether a closed corridor of the room is a convenience candidate: its far
/// end is already in the room's cluster, and RU does not veto it.
pub open spec fn conv_candidate(board: BoardState, position: Slot, architect: Option<&ArchitectChoice>, e: Edge) -> bool {
    &&& holds(closure(board.open(), single(slot_index(position))), far_index(e, position))
    &&& ru_of_set(board, position, architect, seq![e]) is None
}

/// The walk a candidate shortens, as [`Why`] reports it.
pub open spec fn why_spec(
    board: BoardState,
    position: Slot,
    architect: Option<&ArchitectChoice>,
    valuation: Valuation,
    e: Edge,
) -> Why {
    let rooms = applied_rooms(board, position, architect);
    let before = walks_of(board.open(), rooms, valuation);
    let after = walks_of(single_door_table(board, e), rooms, valuation);
    let key = conv_key(board, position, architect, valuation, e);
    let n = wanted_count(rooms, valuation, 13) as usize;
    if key.0 > 0 {
        Why::ApexWalk { before: before.0.unwrap(), after: after.0.unwrap() }
    } else if key.1 > 0 {
        Why::TargetWalk { rooms: n, before: before.1 as usize, after: after.1 as usize }
    } else if key.2 > 0 {
        Why::TargetsToApex { rooms: n, before: before.2 as usize, after: after.2 as usize }
    } else {
        Why::Loop { far: crate::lattice::slot_of(far_index(e, position)), hops: key.3 as usize }
    }
}

/// The convenience door: among the room's closed corridors, in board order,
/// the first candidate of greatest key; none when no candidate exists.
pub open spec fn is_convenience(
    board: BoardState,
    position: Slot,
    architect: Option<&ArchitectChoice>,
    valuation: Valuation,
    r: Option<ConvenienceDoor>,
) -> bool {
    let scan = closed_scan(board.doors, slot_index(position), 13);
    match r {
        None => forall|p: int| 0 <= p < scan.len() ==> !conv_candidate(board, position, architect, #[trigger] scan[p]),
        Some(c) => exists|q: int|
            0 <= q < scan.len() && #[trigger] scan[q] == c.door && conv_candidate(board, position, architect, scan[q])
                && c.why == why_spec(board, position, architect, valuation, scan[q]) && forall|p: int|
                0 <= p < scan.len() && conv_candidate(board, position, architect, #[trigger] scan[p]) ==> !key_gt(
                    conv_key(board, position, architect, valuation, scan[p]),
                    conv_key(board, position, architect, valuation, scan[q]),
                ) && (p < q ==> key_gt(
                    conv_key(board, position, architect, valuation, scan[q]),
                    conv_key(board, position, architect, valuation, scan[p]),
                )),
    }
}

fn key_greater(a: (usize, usize, usize, usize), b: (usize, usize, usize, usize)) -> (r: bool)
    ensures
        r == key_gt((a.0 as int, a.1 as int, a.2 as int, a.3 as int), (b.0 as int, b.1 as int, b.2 as int, b.3 as int)),
{
    a.0 > b.0 || (a.0 == b.0 && (a.1 > b.1 || (a.1 == b.1 && (a.2 > b.2 || (a.2 == b.2 && a.3 > b.3)))))
}

fn saturating(a: usize, b: usize) -> (r: usize)
    ensures
        r == sat_sub(a as int, b as int),
{
    if a > b {
        a - b
    } else {
        0
    }
}

/// The corridor to open when the move opens nothing: the closed corridor
/// inside the room's own cluster, RU allowing, that shortens the first of the
/// four walks most; ties fall to the earlier corridor. The board is read after
/// the recommended kill.
pub fn convenience_door(
    board: &BoardState,
    position: Slot,
    architect: Option<&ArchitectChoice>,
    valuation: &Valuation,
) -> (r: Option<ConvenienceDoor>)
    ensures
        is_convenience(*board, position, architect, *valuation, r),
{
    let mut after_kill = *board;
    match architect {
        Some(a) => {
            after_kill.set_room(position, Some(a.line), a.built_tier);
        },
        None => {},
    }
    proof {
        assert(after_kill.rooms@ =~= applied_rooms(*board, position, architect));
    }
    let open = board.adjacency();
    let mine = component(&open, position);
    let before = Walks::measure(&open, &after_kill.rooms, valuation);
    let from_position = hop_distances(&open, position);
    let cands = board.closed_doors_from(position);
    let ghost scan = closed_scan(board.doors, slot_index(position), 13);
    let ghost rooms = applied_rooms(*board, position, architect);
    let mut best: Option<((usize, usize, usize, usize), ConvenienceDoor)> = None;
    let ghost mut best_at: int = 0;
    let mut k: usize = 0;
    while k < cands.len()
        invariant
            k <= cands@.len(),
            cands@ == scan,
            scan == closed_scan(board.doors, slot_index(position), 13),
            open@ == board.open(),
            mine == closure(board.open(), single(slot_index(position))),
            after_kill.rooms@ == rooms,
            rooms == applied_rooms(*board, position, architect),
            (before.apex, before.targets as nat, before.targets_apex as nat) == walks_of(board.open(), rooms, *valuation),
            forall|i: int|
                0 <= i < 13 ==> match #[trigger] from_position[i] {
                    Some(d) => is_hop_distance(board.open(), slot_index(position), i, d as nat),
                    None => !reachable(board.open(), single(slot_index(position)), i),
                },
            match best {
                None => forall|p: int| 0 <= p < k ==> !conv_candidate(*board, position, architect, #[trigger] scan[p]),
                Some((key, c)) => {
                    &&& 0 <= best_at < k
                    &&& scan[best_at] == c.door
                    &&& conv_candidate(*board, position, architect, scan[best_at])
                    &&& c.why == why_spec(*board, position, architect, *valuation, scan[best_at])
                    &&& (key.0 as int, key.1 as int, key.2 as int, key.3 as int) == conv_key(
                        *board,
                        position,
                        architect,
                        *valuation,
                        scan[best_at],
                    )
                    &&& forall|p: int|
                        0 <= p < k && conv_candidate(*board, position, architect, #[trigger] scan[p]) ==> !key_gt(
                            conv_key(*board, position, architect, *valuation, scan[p]),
                            conv_key(*board, position, architect, *valuation, scan[best_at]),
                        ) && (p < best_at ==> key_gt(
                            conv_key(*board, position, architect, *valuation, scan[best_at]),
                            conv_key(*board, position, architect, *valuation, scan[p]),
                        ))
                },
            },
        decreases cands@.len() - k,
    {
        let edge = cands[k];
        let far = crate::rules::far_end(edge, position);
        if mask_holds(mine, far.index()) {
            let doors = crate::rules::single_set(edge);
            let ghost one = seq![edge];
            let ru = crate::rules::ru_for_set(board, position, architect, &doors, Ghost(one));
            if ru.is_none() {
                let with_door = crate::rules::applied(board, position, architect, &doors);
                let table = with_door.adjacency();
                let after = Walks::measure(&table, &after_kill.rooms, valuation);
                proof {
                    crate::rules::lemma_exact_joins(doors, seq![edge]);
                    let f1 = |i: int, j: int| crate::state::door_open(doors, i, j);
                    let f2 = |i: int, j: int| edges_join(seq![edge], i, j);
                    assert(f1 =~= f2);
                    assert(table@ == single_door_table(*board, edge));
                    lemma_hop_single(
                        board.open(),
                        slot_index(position),
                        slot_index(far),
                        from_position[slot_index(far)],
                    );
                }
                let loop_hops = match from_position[far.index()] {
                    Some(d) => d,
                    None => 0,
                };
                let apex_gain = match (before.apex, after.apex) {
                    (Some(b), Some(a)) => saturating(b, a),
                    _ => 0,
                };
                let key = (
                    apex_gain,
                    saturating(before.targets, after.targets),
                    saturating(before.targets_apex, after.targets_apex),
                    loop_hops,
                );
                let n = wanted_rooms(&after_kill.rooms, valuation);
                let why = if key.0 > 0 {
                    Why::ApexWalk {
                        before: match before.apex {
                            Some(b) => b,
                            None => 0,
                        },
                        after: match after.apex {
                            Some(a) => a,
                            None => 0,
                        },
                    }
                } else if key.1 > 0 {
                    Why::TargetWalk { rooms: n, before: before.targets, after: after.targets }
                } else if key.2 > 0 {
                    Why::TargetsToApex { rooms: n, before: before.targets_apex, after: after.targets_apex }
                } else {
                    Why::Loop { far, hops: loop_hops }
                };
                let candidate = ConvenienceDoor { door: edge, why };
                proof {
                    crate::lattice::lemma_slot_index_bijection();
                    assert(conv_candidate(*board, position, architect, scan[k as int]));
                    assert((key.0 as int, key.1 as int, key.2 as int, key.3 as int) == conv_key(
                        *board,
                        position,
                        architect,
                        *valuation,
                        scan[k as int],
                    ));
                    assert(why == why_spec(*board, position, architect, *valuation, scan[k as int]));
                }
                let replace = match best {
                    None => true,
                    Some((held, _)) => key_greater(key, held),
                };
                if replace {
                    best = Some((key, candidate));
                    proof {
                        best_at = k as int;
                    }
                }
            }
        }
        k += 1;
    }
    match best {
        Some((_, c)) => Some(c),
        None => None,
    }
}

/// How many wanted rooms the layout holds.
fn wanted_rooms(rooms: &[Room; 13], valuation: &Valuation) -> (r: usize)
    ensures
        r == wanted_count(rooms@, *valuation, 13),
{
    let mut n: usize = 0;
    let mut i: usize = 0;
    while i < 13
        invariant
            i <= 13,
            n == wanted_count(rooms@, *valuation, i as int),
            n <= i,
        decreases 13 - i,
    {
        let (line, tier) = rooms[i];
        proof {
            assert(rooms@[i as int] == rooms[i as int]);
        }
        if tier != crate::strategy::Tier::T0 {
            match line {
                Some(l) => {
                    if valuation.is_target(valuation.tag(l)) {
                        n = n + 1;
                    }
                },
                None => {},
            }
        }
        i += 1;
    }
    n
}

} // verus!
