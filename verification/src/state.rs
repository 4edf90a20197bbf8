//! The graph helpers every other module shares: adjacency masks, connected
//! components, hop distances and the closed-door distance explosive charges
//! are spent against.

use vstd::prelude::*;

use crate::doorset::{edge_pair, DoorSet};
use crate::lattice::{
    adjacent, degree_below, edge_between, ends_below, lemma_lattice_counts, slot_degree, lattice_adjacent, lemma_slot_index_bijection, neighbours, slot_at,
    slot_index, slot_of, Edge, Slot,
};
use crate::reading::{PanelReading, RoomIdentity, TempleLayout};
use crate::strategy::{Line, Tier};
use crate::masks::{
    bits, count_below, holds, lemma_count_below_bound, lemma_growth_measure, lemma_holds_ext,
    lemma_holds_or, lemma_holds_zero, mask_bit, mask_count, mask_holds, mask_minus, mask_union,
    popcount, SlotMask,
};

verus! {

/// Everything one open corridor leads to from the slots of `m` below board
/// index `k`.
pub open spec fn spread_below(open: Seq<u16>, m: u16, k: int) -> u16
    decreases k,
{
    if k <= 0 || k > 13 {
        0u16
    } else if holds(m, k - 1) {
        spread_below(open, m, k - 1) | open[k - 1]
    } else {
        spread_below(open, m, k - 1)
    }
}

/// Everything one open corridor leads to from the slots of `m`.
pub open spec fn spread(open: Seq<u16>, m: u16) -> u16 {
    spread_below(open, m, 13)
}

/// `m` plus everything one open corridor leads to from it.
pub open spec fn grow(open: Seq<u16>, m: u16) -> u16 {
    m | spread(open, m)
}

/// The slots within `n` open corridors of the slots of `seed`.
pub open spec fn within(open: Seq<u16>, seed: u16, n: nat) -> u16
    decreases n,
{
    if n == 0 {
        seed
    } else {
        grow(open, within(open, seed, (n - 1) as nat))
    }
}

/// Every slot an open walk reaches from the slots of `seed`: the walk has
/// settled after 16 steps, since each step that changes anything adds a slot.
pub open spec fn closure(open: Seq<u16>, seed: u16) -> u16 {
    within(open, seed, 16)
}

/// Whether some open walk leads from a slot of `seed` to `j`.
pub open spec fn reachable(open: Seq<u16>, seed: u16, j: int) -> bool {
    exists|n: nat| holds(#[trigger] within(open, seed, n), j)
}

/// The single-slot mask of board index `a`.
pub open spec fn single(a: int) -> u16 {
    (1u16 << (a as u16))
}

/// Fewest open corridors from board index `a` to `j`, when `j` is reachable.
pub open spec fn is_hop_distance(open: Seq<u16>, a: int, j: int, d: nat) -> bool {
    holds(within(open, single(a), d), j) && forall|e: nat|
        e < d ==> !holds(#[trigger] within(open, single(a), e), j)
}

/// Whether `t` is the lattice's adjacency table: row `i` holds exactly the
/// slots one corridor away from slot `i`.
pub open spec fn is_lattice_table(t: Seq<u16>) -> bool {
    t.len() == 13 && forall|i: int, j: int| 0 <= i < 13 ==> #[trigger] holds(t[i], j) == lattice_adjacent(i, j)
}

/// The lattice's adjacency table.
pub open spec fn lattice_table() -> Seq<u16> {
    choose|t: Seq<u16>| is_lattice_table(t)
}

/// There is only one lattice adjacency table.
pub proof fn lemma_lattice_table_unique(t: Seq<u16>)
    requires
        is_lattice_table(t),
    ensures
        t == lattice_table(),
{
    let u = lattice_table();
    assert(is_lattice_table(u));
    assert forall|i: int| 0 <= i < 13 implies t[i] == u[i] by {
        assert forall|j: int| 0 <= j < 16 implies #[trigger] holds(t[i], j) == holds(u[i], j) by {
            assert(holds(t[i], j) == lattice_adjacent(i, j));
            assert(holds(u[i], j) == lattice_adjacent(i, j));
        }
        lemma_holds_ext(t[i], u[i]);
    }
    assert(t =~= u);
}

/// The slots reachable from `from` when at most `k` closed corridors may be
/// blasted: layer 0 is what open corridors reach, and each further layer adds
/// every slot one corridor from the last, then walks open corridors again.
pub open spec fn blast_layer(open: Seq<u16>, from: u16, k: nat) -> u16
    decreases k,
{
    if k == 0 {
        closure(open, from)
    } else {
        let prev = blast_layer(open, from, (k - 1) as nat);
        closure(open, prev | spread(lattice_table(), prev))
    }
}

/// Fewest closed corridors that must be blasted to reach `i` from `from`.
pub open spec fn is_blast_distance(open: Seq<u16>, from: u16, i: int, d: nat) -> bool {
    holds(blast_layer(open, from, d), i) && forall|e: nat|
        e < d ==> !holds(#[trigger] blast_layer(open, from, e), i)
}

/// The settled walk holds its seed.
pub proof fn lemma_closure_holds_seed(open: Seq<u16>, seed: u16)
    ensures
        forall|j: int| #[trigger] holds(seed, j) ==> holds(closure(open, seed), j),
{
    lemma_within_monotone(open, seed, 0, 16);
}

/// Blasting more never loses a slot.
pub proof fn lemma_blast_monotone(open: Seq<u16>, from: u16, n: nat, m: nat)
    requires
        n <= m,
    ensures
        forall|j: int|
            holds(blast_layer(open, from, n), j) ==> #[trigger] holds(blast_layer(open, from, m), j),
    decreases m - n,
{
    if n < m {
        lemma_blast_monotone(open, from, n, (m - 1) as nat);
        let prev = blast_layer(open, from, (m - 1) as nat);
        let seed = prev | spread(lattice_table(), prev);
        lemma_holds_or(prev, spread(lattice_table(), prev));
        lemma_closure_holds_seed(open, seed);
        assert(blast_layer(open, from, m) == closure(open, seed));
        assert forall|j: int|
            holds(blast_layer(open, from, n), j) implies #[trigger] holds(blast_layer(open, from, m), j) by {
            assert(holds(prev, j));
            assert(holds(seed, j));
        }
    }
}

/// Once a blast adds nothing, no later blast does either.
pub proof fn lemma_blast_fixpoint(open: Seq<u16>, from: u16, n: nat, m: nat)
    requires
        n <= m,
        blast_layer(open, from, n + 1) == blast_layer(open, from, n),
    ensures
        blast_layer(open, from, m) == blast_layer(open, from, n),
    decreases m - n,
{
    if n < m {
        lemma_blast_fixpoint(open, from, n, (m - 1) as nat);
    }
}

/// What one step of the walk means slot by slot.
pub proof fn lemma_spread_below(open: Seq<u16>, m: u16, k: int)
    requires
        0 <= k <= 13,
    ensures
        forall|j: int|
            #[trigger] holds(spread_below(open, m, k), j) == exists|i: int|
                0 <= i < k && holds(m, i) && holds(open[i], j),
    decreases k,
{
    if k == 0 {
        lemma_holds_zero();
    } else {
        lemma_spread_below(open, m, k - 1);
        let prev = spread_below(open, m, k - 1);
        lemma_holds_or(prev, open[k - 1]);
        assert forall|j: int|
            #[trigger] holds(spread_below(open, m, k), j) == exists|i: int|
                0 <= i < k && holds(m, i) && holds(open[i], j) by {
            if holds(m, k - 1) && holds(open[k - 1], j) {
                assert(0 <= k - 1 < k && holds(m, k - 1) && holds(open[k - 1], j));
            }
            if exists|i: int| 0 <= i < k && holds(m, i) && holds(open[i], j) {
                let i = choose|i: int| 0 <= i < k && holds(m, i) && holds(open[i], j);
                if i < k - 1 {
                    assert(holds(prev, j));
                }
            }
        }
    }
}

/// A step of the walk, slot by slot.
pub proof fn lemma_grow(open: Seq<u16>, m: u16)
    ensures
        forall|j: int|
            #[trigger] holds(grow(open, m), j) == (holds(m, j) || exists|i: int|
                0 <= i < 13 && holds(m, i) && holds(open[i], j)),
{
    lemma_spread_below(open, m, 13);
    lemma_holds_or(m, spread(open, m));
}

/// More steps never lose a slot.
pub proof fn lemma_within_monotone(open: Seq<u16>, seed: u16, n: nat, m: nat)
    requires
        n <= m,
    ensures
        forall|j: int| holds(within(open, seed, n), j) ==> #[trigger] holds(within(open, seed, m), j),
    decreases m - n,
{
    if n < m {
        lemma_within_monotone(open, seed, n, (m - 1) as nat);
        lemma_grow(open, within(open, seed, (m - 1) as nat));
    }
}

/// Once a step adds nothing, no later step does either.
pub proof fn lemma_within_fixpoint(open: Seq<u16>, seed: u16, n: nat, m: nat)
    requires
        n <= m,
        within(open, seed, n + 1) == within(open, seed, n),
    ensures
        within(open, seed, m) == within(open, seed, n),
    decreases m - n,
{
    if n < m {
        lemma_within_fixpoint(open, seed, n, (m - 1) as nat);
    }
}

/// A step that changes the mask adds a slot, so it raises the count.
pub proof fn lemma_popcount_grows(small: u16, big: u16)
    requires
        forall|i: int| #[trigger] holds(small, i) ==> holds(big, i),
        small != big,
    ensures
        popcount(small) < popcount(big),
{
    assert(exists|i: int| 0 <= i < 16 && #[trigger] holds(small, i) != holds(big, i)) by {
        if forall|i: int| 0 <= i < 16 ==> #[trigger] holds(small, i) == holds(big, i) {
            lemma_holds_ext(small, big);
        }
    }
    let w = choose|i: int| 0 <= i < 16 && #[trigger] holds(small, i) != holds(big, i);
    lemma_count_below_subset(small, big, 16, w);
}

proof fn lemma_count_below_subset(small: u16, big: u16, k: int, w: int)
    requires
        0 <= k,
        forall|i: int| #[trigger] holds(small, i) ==> holds(big, i),
    ensures
        count_below(small, k) <= count_below(big, k),
        0 <= w < k && holds(small, w) != holds(big, w) ==> count_below(small, k) < count_below(big, k),
    decreases k,
{
    if k > 0 {
        lemma_count_below_subset(small, big, k - 1, w);
    }
}

/// The walk settles within 16 steps.
pub proof fn lemma_within_settles(open: Seq<u16>, seed: u16)
    ensures
        within(open, seed, 17) == within(open, seed, 16),
{
    lemma_within_settles_from(open, seed, 0);
}

proof fn lemma_within_settles_from(open: Seq<u16>, seed: u16, n: nat)
    requires
        n <= 16,
        popcount(within(open, seed, n)) >= n,
    ensures
        within(open, seed, 17) == within(open, seed, 16),
    decreases 16 - n,
{
    lemma_count_below_bound(within(open, seed, n), 16);
    let cur = within(open, seed, n);
    let nxt = within(open, seed, n + 1);
    lemma_grow(open, cur);
    if nxt == cur {
        lemma_within_fixpoint(open, seed, n, 16);
        lemma_within_fixpoint(open, seed, n, 17);
    } else {
        lemma_popcount_grows(cur, nxt);
        if n < 16 {
            lemma_within_settles_from(open, seed, n + 1);
        } else {
            lemma_count_below_bound(nxt, 16);
        }
    }
}

/// The settled walk is exactly reachability.
pub proof fn lemma_closure_is_reachable(open: Seq<u16>, seed: u16)
    ensures
        forall|j: int| #[trigger] holds(closure(open, seed), j) == reachable(open, seed, j),
{
    lemma_within_settles(open, seed);
    assert forall|j: int| #[trigger] holds(closure(open, seed), j) == reachable(open, seed, j) by {
        if reachable(open, seed, j) {
            let n = choose|n: nat| holds(#[trigger] within(open, seed, n), j);
            if n <= 16 {
                lemma_within_monotone(open, seed, n, 16);
            } else {
                lemma_within_fixpoint(open, seed, 16, n);
            }
        }
        if holds(closure(open, seed), j) {
            assert(holds(within(open, seed, 16), j));
        }
    }
}

/// Two settled points of one walk are the same mask.
proof fn lemma_fixpoints_agree(open: Seq<u16>, seed: u16, n: nat)
    requires
        within(open, seed, n + 1) == within(open, seed, n),
    ensures
        within(open, seed, n) == closure(open, seed),
{
    lemma_within_settles(open, seed);
    if n <= 16 {
        lemma_within_fixpoint(open, seed, n, 16);
    } else {
        lemma_within_fixpoint(open, seed, 16, n);
    }
}

/// The single-bit mask of one slot.
pub fn mask_of(slot: Slot) -> (r: SlotMask)
    ensures
        r == single(slot_index(slot)),
        forall|i: int| #[trigger] holds(r, i) == (i == slot_index(slot)),
{
    mask_bit(slot.index())
}

/// Everything one open corridor leads to from the slots of `m`.
fn spread_of(open: &[u16; 13], m: u16) -> (r: u16)
    ensures
        r == spread(open@, m),
{
    let mut r: u16 = 0;
    let mut k: usize = 0;
    while k < 13
        invariant
            k <= 13,
            r == spread_below(open@, m, k as int),
        decreases 13 - k,
    {
        if mask_holds(m, k) {
            r = r | open[k];
        }
        k += 1;
    }
    r
}

/// One more step of the walk.
fn grow_of(open: &[u16; 13], m: u16) -> (r: u16)
    ensures
        r == grow(open@, m),
        forall|j: int| #[trigger] holds(m, j) ==> holds(r, j),
{
    let s = spread_of(open, m);
    proof {
        lemma_holds_or(m, s);
    }
    m | s
}

/// Grow a seed set by every open door, to fixpoint.
fn free_closure(seed: SlotMask, open: &[SlotMask; 13]) -> (r: SlotMask)
    ensures
        r == closure(open@, seed),
{
    let mut grown = seed;
    let ghost mut n: nat = 0;
    loop
        invariant
            grown == within(open@, seed, n),
        decreases !grown,
    {
        let next = grow_of(open, grown);
        if next == grown {
            proof {
                lemma_fixpoints_agree(open@, seed, n);
            }
            return grown;
        }
        proof {
            lemma_growth_measure(grown, next);
            n = n + 1;
        }
        grown = next;
    }
}

/// The connected component of `start` under an open-door adjacency table.
pub fn component(open: &[SlotMask; 13], start: Slot) -> (r: SlotMask)
    ensures
        r == closure(open@, single(slot_index(start))),
        forall|j: int| #[trigger] holds(r, j) == reachable(open@, single(slot_index(start)), j),
{
    let seed = mask_of(start);
    let r = free_closure(seed, open);
    proof {
        lemma_closure_is_reachable(open@, seed);
    }
    r
}

/// How many corridor ends the rows of `t` below `i` hold.
pub open spec fn table_ends(t: Seq<u16>, i: int) -> nat
    decreases i,
{
    if i <= 0 {
        0
    } else {
        table_ends(t, i - 1) + popcount(t[i - 1])
    }
}

proof fn lemma_row_count(m: u16, i: int, k: int)
    requires
        0 <= k <= 16,
        forall|j: int| #[trigger] holds(m, j) == lattice_adjacent(i, j),
    ensures
        count_below(m, k) == degree_below(i, k),
    decreases k,
{
    if k > 0 {
        lemma_row_count(m, i, k - 1);
    }
}

/// The lattice table holds each corridor at both ends: every row holds the
/// slot's measured corridor count, and the 13 rows hold the 26 corridors'
/// 52 ends between them.
pub proof fn lemma_lattice_table_counts(t: Seq<u16>)
    requires
        is_lattice_table(t),
    ensures
        forall|i: int| 0 <= i < 13 ==> #[trigger] popcount(t[i]) == degree_below(i, 13),
        forall|s: Slot| #[trigger] popcount(t[slot_index(s)]) == slot_degree(s),
        table_ends(t, 13) == 52,
{
    assert forall|i: int| 0 <= i < 13 implies #[trigger] popcount(t[i]) == degree_below(i, 13) by {
        lemma_row_count(t[i], i, 16);
        assert(!lattice_adjacent(i, 13) && !lattice_adjacent(i, 14) && !lattice_adjacent(i, 15));
        assert(degree_below(i, 14) == degree_below(i, 13));
        assert(degree_below(i, 15) == degree_below(i, 14));
        assert(degree_below(i, 16) == degree_below(i, 15));
    }
    lemma_lattice_counts();
    crate::lattice::lemma_slot_index_bijection();
    lemma_table_ends(t, 13);
}

proof fn lemma_table_ends(t: Seq<u16>, i: int)
    requires
        0 <= i <= 13,
        forall|k: int| 0 <= k < 13 ==> #[trigger] popcount(t[k]) == degree_below(k, 13),
    ensures
        table_ends(t, i) == ends_below(i),
    decreases i,
{
    if i > 0 {
        lemma_table_ends(t, i - 1);
    }
}

/// Lattice adjacency as masks, indexed by board order.
pub fn neighbour_masks() -> (r: [SlotMask; 13])
    ensures
        is_lattice_table(r@),
        r@ == lattice_table(),
{
    let mut out: [u16; 13] = [0u16; 13];
    let mut s: usize = 0;
    while s < 13
        invariant
            s <= 13,
            forall|i: int, j: int| 0 <= i < s ==> #[trigger] holds(out[i], j) == lattice_adjacent(i, j),
        decreases 13 - s,
    {
        let a = slot_at(s);
        let mut m: u16 = 0;
        let mut j: usize = 0;
        proof {
            lemma_holds_zero();
        }
        while j < 13
            invariant
                s < 13,
                j <= 13,
                a == slot_of(s as int),
                forall|b: int| #[trigger] holds(m, b) == (0 <= b < j && lattice_adjacent(s as int, b)),
            decreases 13 - j,
        {
            let b = slot_at(j);
            if adjacent(a, b) {
                let bit = mask_bit(j);
                proof {
                    lemma_holds_or(m, bit);
                }
                m = m | bit;
            }
            j += 1;
        }
        out[s] = m;
        s += 1;
    }
    proof {
        lemma_lattice_table_unique(out@);
    }
    out
}

/// How many corridors a slot could ever have: its lattice degree, not its
/// count of open doors.
pub fn lattice_degree(slot: Slot) -> (r: usize)
    ensures
        r == popcount(lattice_table()[slot_index(slot)]),
        r <= 16,
{
    let table = neighbour_masks();
    mask_count(table[slot.index()]) as usize
}

/// Hop distance from `start` to every slot over open doors; `None` where the
/// slot is unreachable.
pub fn hop_distances(open: &[SlotMask; 13], start: Slot) -> (r: [Option<usize>; 13])
    ensures
        forall|i: int|
            0 <= i < 13 ==> match #[trigger] r[i] {
                Some(d) => is_hop_distance(open@, slot_index(start), i, d as nat),
                None => !reachable(open@, single(slot_index(start)), i),
            },
{
    let seed = mask_of(start);
    let ghost a = slot_index(start);
    let mut dist: [Option<usize>; 13] = [None; 13];
    dist[start.index()] = Some(0);
    let mut seen = seed;
    let mut depth: usize = 0;
    proof {
        lemma_count_one(seed, a);
    }
    loop
        invariant
            a == slot_index(start),
            seed == single(a),
            seen == within(open@, seed, depth as nat),
            popcount(seen) >= depth + 1,
            forall|i: int|
                0 <= i < 13 ==> match #[trigger] dist[i] {
                    Some(d) => d <= depth && is_hop_distance(open@, a, i, d as nat),
                    None => !holds(seen, i),
                },
        decreases !seen,
    {
        let next = grow_of(open, seen);
        if next == seen {
            proof {
                lemma_fixpoints_agree(open@, seed, depth as nat);
                lemma_closure_is_reachable(open@, seed);
            }
            return dist;
        }
        proof {
            lemma_growth_measure(seen, next);
            lemma_popcount_grows(seen, next);
            lemma_count_below_bound(next, 16);
        }
        depth += 1;
        let fresh = mask_minus(next, seen);
        let mut i: usize = 0;
        while i < 13
            invariant
                i <= 13,
                a == slot_index(start),
                seed == single(a),
                seen == within(open@, seed, (depth - 1) as nat),
                next == within(open@, seed, depth as nat),
                depth >= 1,
                forall|j: int| #[trigger] holds(fresh, j) == (holds(next, j) && !holds(seen, j)),
                forall|k: int|
                    0 <= k < 13 ==> match #[trigger] dist[k] {
                        Some(d) => d <= depth && is_hop_distance(open@, a, k, d as nat),
                        None => if k < i {
                            !holds(next, k)
                        } else {
                            !holds(seen, k)
                        },
                    },
            decreases 13 - i,
        {
            if mask_holds(fresh, i) {
                proof {
                    assert forall|e: nat| e < depth implies !holds(
                        #[trigger] within(open@, single(a), e),
                        i as int,
                    ) by {
                        lemma_within_monotone(open@, seed, e, (depth - 1) as nat);
                    }
                }
                dist[i] = Some(depth);
            }
            i += 1;
        }
        seen = next;
    }
}

/// A single-slot mask counts one.
proof fn lemma_count_one(m: u16, a: int)
    requires
        0 <= a < 16,
        forall|i: int| #[trigger] holds(m, i) == (i == a),
    ensures
        popcount(m) >= 1,
{
    lemma_count_below_at_least(m, 16, a);
}

proof fn lemma_count_below_at_least(m: u16, k: int, a: int)
    requires
        0 <= a < k,
        holds(m, a),
    ensures
        count_below(m, k) >= 1,
    decreases k,
{
    if a < k - 1 {
        lemma_count_below_at_least(m, k - 1, a);
    }
}

/// Sentinel for a slot no number of charges can reach: impossible on the
/// connected lattice, so it only appears for an empty seed set.
pub const UNREACHABLE: usize = usize::MAX;

/// The fewest closed doors that must be blasted to reach each slot from the
/// seed set, walking open doors for free.
pub fn closed_door_distances(open: &[SlotMask; 13], from: SlotMask) -> (r: [usize; 13])
    ensures
        forall|i: int|
            0 <= i < 13 ==> if #[trigger] r[i] == UNREACHABLE {
                forall|k: nat| !holds(#[trigger] blast_layer(open@, from, k), i)
            } else {
                is_blast_distance(open@, from, i, r[i] as nat) && r[i] <= 16
            },
{
    let table = neighbour_masks();
    let mut dist: [usize; 13] = [UNREACHABLE; 13];
    let mut reach = free_closure(from, open);
    let mut cost: usize = 0;
    loop
        invariant
            table@ == lattice_table(),
            reach == blast_layer(open@, from, cost as nat),
            popcount(reach) >= cost,
            cost <= 16,
            forall|i: int|
                0 <= i < 13 ==> if #[trigger] dist[i] == UNREACHABLE {
                    forall|e: nat| e < cost ==> !holds(#[trigger] blast_layer(open@, from, e), i)
                } else {
                    dist[i] < cost && is_blast_distance(open@, from, i, dist[i] as nat)
                },
        decreases !reach,
    {
        let mut i: usize = 0;
        while i < 13
            invariant
                i <= 13,
                reach == blast_layer(open@, from, cost as nat),
                popcount(reach) >= cost,
                cost <= 16,
                forall|k: int|
                    0 <= k < 13 ==> if #[trigger] dist[k] == UNREACHABLE {
                        forall|e: nat|
                            e < cost || (e == cost && k < i) ==> !holds(
                                #[trigger] blast_layer(open@, from, e),
                                k,
                            )
                    } else {
                        dist[k] <= cost && is_blast_distance(open@, from, k, dist[k] as nat)
                    },
            decreases 13 - i,
        {
            let ghost before = dist;
            if mask_holds(reach, i) && dist[i] == UNREACHABLE {
                dist[i] = cost;
            }
            proof {
                assert forall|k: int|
                    0 <= k < 13 implies if #[trigger] dist[k] == UNREACHABLE {
                        forall|e: nat|
                            e < cost || (e == cost && k < i + 1) ==> !holds(
                                #[trigger] blast_layer(open@, from, e),
                                k,
                            )
                    } else {
                        dist[k] <= cost && is_blast_distance(open@, from, k, dist[k] as nat)
                    } by {
                    if k != i {
                        assert(dist[k] == before[k]);
                    } else if dist[k] != UNREACHABLE && before[k] == UNREACHABLE {
                        assert(holds(blast_layer(open@, from, cost as nat), k));
                        assert(dist[k] == cost);
                        assert forall|e: nat| e < dist[k] implies !holds(
                            #[trigger] blast_layer(open@, from, e),
                            k,
                        ) by {
                            assert(e < cost || (e == cost && k < i));
                        }
                    } else if dist[k] == UNREACHABLE {
                        assert(!holds(reach, k));
                        assert forall|e: nat| e < cost || (e == cost && k < i + 1) implies !holds(
                            #[trigger] blast_layer(open@, from, e),
                            k,
                        ) by {
                            if e < cost {
                                assert(e < cost || (e == cost && k < i));
                            }
                        }
                    } else {
                        assert(dist[k] == before[k]);
                    }
                }
            }
            i += 1;
        }
        let seed = mask_union(reach, spread_of(&table, reach));
        let grown = free_closure(seed, open);
        assert(grown == blast_layer(open@, from, (cost + 1) as nat));
        if grown == reach {
            proof {
                assert forall|i: int| 0 <= i < 13 && #[trigger] dist[i] == UNREACHABLE implies forall|k: nat|
                    !holds(#[trigger] blast_layer(open@, from, k), i) by {
                    assert forall|k: nat| !holds(#[trigger] blast_layer(open@, from, k), i) by {
                        if k > cost {
                            lemma_blast_fixpoint(open@, from, cost as nat, k);
                        }
                    }
                }
            }
            return dist;
        }
        proof {
            lemma_blast_monotone(open@, from, cost as nat, (cost + 1) as nat);
            lemma_growth_measure(reach, grown);
            lemma_popcount_grows(reach, grown);
            lemma_count_below_bound(grown, 16);
        }
        reach = grown;
        cost += 1;
    }
}


/// Whether a door set opens the corridor between board indices `i` and `j`,
/// in either direction.
pub open spec fn door_open(doors: DoorSet, i: int, j: int) -> bool {
    doors.holds_pair(i, j) || doors.holds_pair(j, i)
}

/// Whether `t` is the open-door adjacency table of `doors`.
pub open spec fn is_adjacency_of(doors: DoorSet, t: Seq<u16>) -> bool {
    t.len() == 13 && forall|i: int, j: int| 0 <= i < 13 ==> #[trigger] holds(t[i], j) == door_open(doors, i, j)
}

/// The open-door adjacency table of a door set.
pub open spec fn open_table(doors: DoorSet) -> Seq<u16> {
    choose|t: Seq<u16>| is_adjacency_of(doors, t)
}

/// A door set has one adjacency table.
pub proof fn lemma_open_table_unique(doors: DoorSet, t: Seq<u16>)
    requires
        is_adjacency_of(doors, t),
    ensures
        t == open_table(doors),
{
    let u = open_table(doors);
    assert(is_adjacency_of(doors, u));
    assert forall|i: int| 0 <= i < 13 implies t[i] == u[i] by {
        assert forall|j: int| 0 <= j < 16 implies #[trigger] holds(t[i], j) == holds(u[i], j) by {
            assert(holds(t[i], j) == door_open(doors, i, j));
            assert(holds(u[i], j) == door_open(doors, i, j));
        }
        lemma_holds_ext(t[i], u[i]);
    }
    assert(t =~= u);
}

/// Board index of the Entrance.
pub open spec fn entrance_index() -> int {
    11
}

/// What one slot holds: the line, if any, and the tier.
pub type Room = (Option<Line>, Tier);

/// The built rooms of a table the slots of `reach` below index `k` hold, in
/// board order: tier-0 slots and slots with no line are left out.
pub open spec fn rooms_reached(rooms: [Room; 13], reach: u16, k: int) -> Seq<(Line, Tier)>
    decreases k,
{
    if k <= 0 || k > 13 {
        Seq::empty()
    } else {
        let prev = rooms_reached(rooms, reach, k - 1);
        let (line, tier) = rooms[k - 1];
        if holds(reach, k - 1) && line is Some && tier != Tier::T0 {
            prev.push((line.unwrap(), tier))
        } else {
            prev
        }
    }
}

/// The board, as the advisor sees it.
#[derive(Debug, Clone, Copy)]
pub struct BoardState {
    /// `(line, tier)` per slot, indexed by board order.
    pub rooms: [Room; 13],
    /// Corridors currently open.
    pub doors: DoorSet,
    /// The room the player is standing in; `None` between rooms.
    pub position: Option<Slot>,
    /// `N Incursions Remaining` — the budget for the whole temple.
    pub remaining: u8,
    /// The slot the previous incursion of this map used.
    pub last_visited: Option<Slot>,
}

impl BoardState {
    /// The open-door adjacency of this board.
    pub open spec fn open(self) -> Seq<u16> {
        open_table(self.doors)
    }

    /// What the Entrance reaches through open doors.
    pub open spec fn reach(self) -> u16 {
        closure(self.open(), single(entrance_index()))
    }

    /// An empty board: 13 tier-0 slots, no doors.
    pub fn empty() -> (r: BoardState)
        ensures
            forall|i: int| 0 <= i < 13 ==> #[trigger] r.rooms[i] == (None::<Line>, Tier::T0),
            forall|i: int, j: int| !#[trigger] r.doors.holds_pair(i, j),
            r.doors.size() == 0,
            r.position is None,
            r.remaining == 0,
            r.last_visited is None,
    {
        let room: Room = (None, Tier::T0);
        BoardState {
            rooms: [room; 13],
            doors: DoorSet::new(),
            position: None,
            remaining: 0,
            last_visited: None,
        }
    }

    /// Build the board from one screen read.
    ///
    /// The settled door set, when the side panel's seals were read, replaces
    /// the reader's; without it the corridors the reader is unsure of are
    /// dropped. A plate that did not resolve to a room is tier-0 filler, and an
    /// illegible footer reads as no budget.
    pub fn from_reading(
        layout: &TempleLayout,
        identities: &[Option<RoomIdentity>; 13],
        panel: &PanelReading,
        settled: Option<&DoorSet>,
    ) -> (r: BoardState)
        ensures
            settled is Some ==> r.doors == *settled.unwrap(),
            settled is None ==> forall|i: int, j: int|
                #[trigger] r.doors.holds_pair(i, j) == (layout.doors.holds_pair(i, j)
                    && !layout.uncertain.holds_pair(i, j)),
            forall|i: int|
                0 <= i < 13 ==> #[trigger] r.rooms[i] == match identities[i] {
                    Some(RoomIdentity::Room { line, tier }) => (Some(line), tier),
                    _ => (None::<Line>, Tier::T0),
                },
            r.position == layout.current,
            r.remaining == match panel.incursions_remaining {
                Some(n) => n,
                None => 0u8,
            },
            r.last_visited is None,
    {
        let doors = match settled {
            Some(settled) => *settled,
            None => layout.doors.minus(&layout.uncertain),
        };
        let room: Room = (None, Tier::T0);
        let mut rooms: [Room; 13] = [room; 13];
        let mut i: usize = 0;
        while i < 13
            invariant
                i <= 13,
                forall|k: int|
                    0 <= k < i ==> #[trigger] rooms[k] == match identities[k] {
                        Some(RoomIdentity::Room { line, tier }) => (Some(line), tier),
                        _ => (None::<Line>, Tier::T0),
                    },
            decreases 13 - i,
        {
            rooms[i] = match identities[i] {
                Some(RoomIdentity::Room { line, tier }) => (Some(line), tier),
                _ => (None, Tier::T0),
            };
            i += 1;
        }
        let remaining = match panel.incursions_remaining {
            Some(n) => n,
            None => 0,
        };
        BoardState { rooms, doors, position: layout.current, remaining, last_visited: None }
    }

    /// The line built in `slot`, if any.
    pub fn line(&self, slot: Slot) -> (r: Option<Line>)
        ensures
            r == self.rooms[slot_index(slot)].0,
    {
        self.rooms[slot.index()].0
    }

    /// The tier built in `slot`.
    pub fn tier(&self, slot: Slot) -> (r: Tier)
        ensures
            r == self.rooms[slot_index(slot)].1,
    {
        self.rooms[slot.index()].1
    }

    /// Put a room in a slot.
    pub fn set_room(&mut self, slot: Slot, line: Option<Line>, tier: Tier)
        ensures
            final(self).rooms[slot_index(slot)] == (line, tier),
            forall|i: int| 0 <= i < 13 && i != slot_index(slot) ==> #[trigger] final(self).rooms[i] == old(self).rooms[i],
            final(self).doors == old(self).doors,
            final(self).position == old(self).position,
            final(self).remaining == old(self).remaining,
            final(self).last_visited == old(self).last_visited,
    {
        self.rooms[slot.index()] = (line, tier);
    }

    /// Open-door adjacency, one mask per slot.
    pub fn adjacency(&self) -> (r: [SlotMask; 13])
        ensures
            is_adjacency_of(self.doors, r@),
            r@ == self.open(),
    {
        let mut out: [u16; 13] = [0u16; 13];
        let mut i: usize = 0;
        while i < 13
            invariant
                i <= 13,
                forall|a: int, b: int| 0 <= a < i ==> #[trigger] holds(out[a], b) == door_open(self.doors, a, b),
            decreases 13 - i,
        {
            let mut m: u16 = 0;
            let mut j: usize = 0;
            proof {
                lemma_holds_zero();
                self.doors.lemma_pairs_in_range();
            }
            while j < 13
                invariant
                    i < 13,
                    j <= 13,
                    forall|b: int| #[trigger] holds(m, b) == (0 <= b < j && door_open(self.doors, i as int, b)),
                    forall|a: int, b: int| #[trigger] self.doors.holds_pair(a, b) ==> 0 <= a < b < 13,
                decreases 13 - j,
            {
                if self.doors.holds_slots(i, j) {
                    let bit = mask_bit(j);
                    proof {
                        lemma_holds_or(m, bit);
                    }
                    m = m | bit;
                }
                j += 1;
            }
            out[i] = m;
            i += 1;
        }
        proof {
            lemma_open_table_unique(self.doors, out@);
        }
        out
    }

    /// Everything the Entrance reaches through open doors.
    pub fn entrance_component(&self) -> (r: SlotMask)
        ensures
            r == self.reach(),
    {
        component(&self.adjacency(), Slot::E1)
    }

    /// The corridors out of `slot` that are still closed, in board order of
    /// their far ends.
    pub fn closed_doors_from(&self, slot: Slot) -> (r: Vec<Edge>)
        ensures
            r@ == closed_scan(self.doors, slot_index(slot), 13),
    {
        let mut out: Vec<Edge> = Vec::new();
        let mut j: usize = 0;
        let si = slot.index();
        proof {
            lemma_slot_index_bijection();
        }
        while j < 13
            invariant
                j <= 13,
                si == slot_index(slot),
                slot_of(si as int) == slot,
                out@ == closed_scan(self.doors, si as int, j as int),
            decreases 13 - j,
        {
            let b = slot_at(j);
            if adjacent(slot, b) && !self.doors.holds_slots(si, j) {
                let e = Edge::new(slot, b);
                out.push(e);
            }
            j += 1;
        }
        out
    }

    /// `(line, tier)` for every built room the Entrance can reach, in board
    /// order.
    pub fn connected_rooms(&self) -> (r: Vec<(Line, Tier)>)
        ensures
            r@ == rooms_reached(self.rooms, self.reach(), 13),
    {
        let reach = self.entrance_component();
        let mut out: Vec<(Line, Tier)> = Vec::new();
        let mut i: usize = 0;
        while i < 13
            invariant
                i <= 13,
                reach == self.reach(),
                out@ == rooms_reached(self.rooms, reach, i as int),
            decreases 13 - i,
        {
            let (line, tier) = self.rooms[i];
            if mask_holds(reach, i) {
                match line {
                    Some(l) => {
                        if tier != Tier::T0 {
                            out.push((l, tier));
                        }
                    },
                    None => {},
                }
            }
            i += 1;
        }
        out
    }
}

/// The closed lattice corridors out of board index `pos` toward the slots
/// below `j`, in board order of their far ends.
pub open spec fn closed_scan(doors: DoorSet, pos: int, j: int) -> Seq<Edge>
    decreases j,
{
    if j <= 0 {
        Seq::empty()
    } else if lattice_adjacent(pos, j - 1) && !door_open(doors, pos, j - 1) {
        closed_scan(doors, pos, j - 1).push(edge_between(pos, j - 1))
    } else {
        closed_scan(doors, pos, j - 1)
    }
}

/// Board index of the end of `e` that is not `from`.
pub open spec fn far_index(e: Edge, from: Slot) -> int {
    if e.lo_end() == from {
        slot_index(e.hi_end())
    } else {
        slot_index(e.lo_end())
    }
}

/// An adjacency table with the corridor between `a` and `b` opened.
pub open spec fn with_door(open: Seq<u16>, a: int, b: int) -> Seq<u16> {
    let first = open.update(a, open[a] | single(b));
    first.update(b, first[b] | single(a))
}

/// Opening a door adds exactly its two directions to the adjacency table.
pub proof fn lemma_with_door(open: Seq<u16>, a: int, b: int)
    requires
        open.len() == 13,
        0 <= a < 13,
        0 <= b < 13,
    ensures
        with_door(open, a, b).len() == 13,
        forall|i: int, j: int|
            0 <= i < 13 ==> #[trigger] holds(with_door(open, a, b)[i], j) == (holds(open[i], j) || (i == a && j == b)
                || (i == b && j == a)),
{
    crate::masks::lemma_holds_single(a as u16);
    crate::masks::lemma_holds_single(b as u16);
    let first = open.update(a, open[a] | single(b));
    lemma_holds_or(open[a], single(b));
    lemma_holds_or(first[b], single(a));
    assert forall|i: int, j: int| 0 <= i < 13 implies #[trigger] holds(with_door(open, a, b)[i], j) == (holds(open[i], j) || (
    i == a && j == b) || (i == b && j == a)) by {
        assert(holds(single(b), j) == (j == b));
        assert(holds(single(a), j) == (j == a));
    }
}


/// The lattice's adjacency table is symmetric: a slot lists a neighbour
/// exactly when the neighbour lists it.
pub proof fn lemma_lattice_table_symmetric(t: Seq<u16>)
    requires
        is_lattice_table(t),
    ensures
        forall|i: int, j: int| 0 <= i < 13 && 0 <= j < 13 ==> #[trigger] holds(t[i], j) == holds(t[j], i),
{
    assert forall|i: int, j: int| 0 <= i < 13 && 0 <= j < 13 implies #[trigger] holds(t[i], j) == holds(t[j], i) by {
        crate::lattice::lemma_adjacent_symmetric(i, j);
    }
}

/// Opening more doors never shrinks what a walk reaches: every slot within
/// `n` corridors over `small` is within `n` over `big`.
pub proof fn lemma_more_doors_reach_more(small: Seq<u16>, big: Seq<u16>, seed: u16, n: nat)
    requires
        small.len() == 13,
        big.len() == 13,
        forall|i: int, j: int| 0 <= i < 13 && #[trigger] holds(small[i], j) ==> holds(big[i], j),
    ensures
        forall|j: int| #[trigger] holds(within(small, seed, n), j) ==> holds(within(big, seed, n), j),
    decreases n,
{
    if n > 0 {
        lemma_more_doors_reach_more(small, big, seed, (n - 1) as nat);
        let a = within(small, seed, (n - 1) as nat);
        let b = within(big, seed, (n - 1) as nat);
        lemma_grow(small, a);
        lemma_grow(big, b);
        assert forall|j: int| #[trigger] holds(within(small, seed, n), j) implies holds(within(big, seed, n), j) by {
            if !holds(a, j) {
                let i = choose|i: int| 0 <= i < 13 && holds(a, i) && holds(small[i], j);
                assert(holds(b, i));
                assert(holds(big[i], j));
            }
        }
    }
}

/// Opening a door never shrinks a component, and so never its room count.
pub proof fn lemma_opening_a_door_never_shrinks(open: Seq<u16>, seed: u16, a: int, b: int)
    requires
        open.len() == 13,
        0 <= a < 13,
        0 <= b < 13,
    ensures
        forall|j: int| #[trigger] holds(closure(open, seed), j) ==> holds(closure(with_door(open, a, b), seed), j),
        popcount(closure(open, seed)) <= popcount(closure(with_door(open, a, b), seed)),
{
    lemma_with_door(open, a, b);
    lemma_more_doors_reach_more(open, with_door(open, a, b), seed, 16);
    let small = closure(open, seed);
    let big = closure(with_door(open, a, b), seed);
    if small != big {
        lemma_popcount_grows(small, big);
    }
}

} // verus!
