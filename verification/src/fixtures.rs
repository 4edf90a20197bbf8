//! Hand-encoded boards: the builders the advisor's tests and walked cases
//! share.

use vstd::prelude::*;

use crate::doorset::{edge_list, edge_pair, DoorSet};
use crate::lattice::{edge_between, slot_index, Edge, Slot};
use crate::reading::ArchitectOffer;
use crate::rules::far_slot;
use crate::state::{BoardState, Room};
use crate::strategy::{tier_of, Line, OfferKind, Tier};

verus! {

/// The room a fixture list puts in board index `i`, looking at its first `k`
/// entries: the last entry for that slot wins, and an unlisted slot is an
/// empty tier-0 one.
pub open spec fn listed_room(rooms: Seq<(Slot, Option<Line>, u8)>, i: int, k: int) -> Room
    decreases k,
{
    if k <= 0 {
        (None, Tier::T0)
    } else if slot_index(rooms[k - 1].0) == i {
        (rooms[k - 1].1, tier_of(rooms[k - 1].2 as int))
    } else {
        listed_room(rooms, i, k - 1)
    }
}

/// Whether a list of slot pairs names the corridor `(i, j)`.
pub open spec fn lists_pair(doors: Seq<(Slot, Slot)>, i: int, j: int) -> bool {
    exists|k: int|
        0 <= k < doors.len() && (i, j) == edge_pair(
            edge_between(slot_index((#[trigger] doors[k]).0), slot_index(doors[k].1)),
        )
}

/// A door set holding the listed corridors.
pub fn doors(edges: &[(Slot, Slot)]) -> (r: DoorSet)
    requires
        forall|k: int| 0 <= k < edges@.len() ==> (#[trigger] edges@[k]).0 != edges@[k].1,
    ensures
        forall|i: int, j: int| #[trigger] r.holds_pair(i, j) == lists_pair(edges@, i, j),
{
    let mut out = DoorSet::new();
    let mut k: usize = 0;
    while k < edges.len()
        invariant
            k <= edges@.len(),
            forall|q: int| 0 <= q < edges@.len() ==> (#[trigger] edges@[q]).0 != edges@[q].1,
            forall|i: int, j: int| #[trigger] out.holds_pair(i, j) == lists_pair(edges@.take(k as int), i, j),
        decreases edges@.len() - k,
    {
        let (a, b) = edges[k];
        proof {
            assert(edges@[k as int] == (a, b));
        }
        out.insert(Edge::new(a, b));
        proof {
            let t0 = edges@.take(k as int);
            let t1 = edges@.take(k + 1);
            assert(t1[k as int] == (a, b));
            assert forall|i: int, j: int| #[trigger] out.holds_pair(i, j) == lists_pair(t1, i, j) by {
                if lists_pair(t0, i, j) {
                    let q = choose|q: int|
                        0 <= q < t0.len() && (i, j) == edge_pair(
                            edge_between(slot_index((#[trigger] t0[q]).0), slot_index(t0[q].1)),
                        );
                    assert(t1[q] == t0[q]);
                }
                if lists_pair(t1, i, j) {
                    let q = choose|q: int|
                        0 <= q < t1.len() && (i, j) == edge_pair(
                            edge_between(slot_index((#[trigger] t1[q]).0), slot_index(t1[q].1)),
                        );
                    if q < k {
                        assert(t0[q] == t1[q]);
                    }
                }
            }
        }
        k += 1;
    }
    proof {
        assert(edges@.take(edges@.len() as int) =~= edges@);
    }
    out
}

/// Build a board: `rooms` is `(slot, line, tier)`, `doors` the open corridors,
/// and the player stands in `position` with `remaining` incursions left.
pub fn board(rooms: &[(Slot, Option<Line>, u8)], doors: &[(Slot, Slot)], position: Slot, remaining: u8) -> (r: BoardState)
    requires
        forall|k: int| 0 <= k < rooms@.len() ==> (#[trigger] rooms@[k]).2 <= 3,
        forall|k: int| 0 <= k < doors@.len() ==> (#[trigger] doors@[k]).0 != doors@[k].1,
    ensures
        forall|i: int| 0 <= i < 13 ==> #[trigger] r.rooms[i] == listed_room(rooms@, i, rooms@.len() as int),
        forall|i: int, j: int| #[trigger] r.doors.holds_pair(i, j) == lists_pair(doors@, i, j),
        r.position == Some(position),
        r.remaining == remaining,
        r.last_visited is None,
{
    let mut state = BoardState::empty();
    let mut k: usize = 0;
    while k < rooms.len()
        invariant
            k <= rooms@.len(),
            forall|q: int| 0 <= q < rooms@.len() ==> (#[trigger] rooms@[q]).2 <= 3,
            forall|i: int| 0 <= i < 13 ==> #[trigger] state.rooms[i] == listed_room(rooms@, i, k as int),
            state.position is None,
            state.remaining == 0,
            state.last_visited is None,
        decreases rooms@.len() - k,
    {
        let (slot, line, tier) = rooms[k];
        proof {
            assert(rooms@[k as int] == (slot, line, tier));
        }
        let t = match Tier::new(tier) {
            Some(t) => t,
            None => Tier::T3,
        };
        state.set_room(slot, line, t);
        k += 1;
    }
    state.doors = crate::fixtures::doors(doors);
    state.position = Some(position);
    state.remaining = remaining;
    state
}

/// An architect block as the panel prints it.
pub fn offer(name: &str, kind: OfferKind, printed: &str) -> (r: ArchitectOffer)
    ensures
        r.architect_name@ == name@,
        r.kind == kind,
        r.printed_target@ == printed@,
        r.rect is None,
{
    ArchitectOffer {
        architect_name: String::from_str(name),
        kind,
        printed_target: String::from_str(printed),
        rect: None,
    }
}

/// Two junk `change` offers: both architects worthless, the kill is free.
pub fn junk_offers() -> (r: Vec<ArchitectOffer>)
    ensures
        r@.len() == 2,
        r@[0].architect_name@ == "Ticaba"@,
        r@[0].printed_target@ == "Storage Room"@,
        r@[1].architect_name@ == "Juatalotli"@,
        r@[1].printed_target@ == "Sparring Room"@,
        forall|k: int| 0 <= k < 2 ==> (#[trigger] r@[k]).kind == OfferKind::Change,
{
    vec![
        offer("Ticaba", OfferKind::Change, "Storage Room"),
        offer("Juatalotli", OfferKind::Change, "Sparring Room"),
    ]
}

/// The far endpoints of a door set's corridors from `from`, in board order.
pub fn opened_toward(doors: &DoorSet, from: Slot) -> (r: Vec<Slot>)
    ensures
        r@.len() == edge_list(*doors).len(),
        forall|k: int| 0 <= k < r@.len() ==> #[trigger] r@[k] == far_slot(edge_list(*doors)[k], from),
{
    let es = doors.edges();
    let mut out: Vec<Slot> = Vec::new();
    let mut k: usize = 0;
    while k < es.len()
        invariant
            k <= es@.len(),
            es@ == edge_list(*doors),
            out@.len() == k,
            forall|q: int| 0 <= q < k ==> #[trigger] out@[q] == far_slot(es@[q], from),
        decreases es@.len() - k,
    {
        out.push(crate::rules::far_end(es[k], from));
        k += 1;
    }
    out
}

} // verus!
