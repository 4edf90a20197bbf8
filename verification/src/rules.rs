//! The explicit rule layer that sits on top of the rollout's ranking.
//!
//! The kill is ranked by expected value with the architect rules breaking
//! ties inside the noise band; the door set is ranked by the priority chain
//! `RV > RU > R1-apex > RD > R2 > R1-gradient > RS`, which is [`DoorKey`]'s
//! field order read lexicographically.

use vstd::prelude::*;

use crate::doorset::{edge_list, edge_pair, DoorSet};
use crate::lattice::{lattice_adjacent, slot_index, slot_name, slot_of, slot_row, Edge, Slot};
use crate::masks::{holds, mask_count, mask_holds, popcount, SlotMask};
use crate::rollout::Valuation;
use crate::state::{
    closure, component, hop_distances, is_hop_distance, lattice_table, mask_of, reachable, single, with_door,
    BoardState,
};
use crate::strategy::{line_key, Line, OfferKind, Tier};

verus! {

/// One architect kill, already resolved from the panel's offer.
#[derive(Debug, Clone, PartialEq)]
pub struct ArchitectChoice {
    /// Index into the panel's architect list.
    pub offer_index: usize,
    /// The architect's own name, as the panel printed it.
    pub architect_name: String,
    /// Resident (`change`) or non-resident (`upgrade`).
    pub kind: OfferKind,
    /// The line the kill actually builds.
    pub line: Line,
    /// The tier the kill guarantees; the upgrade's extra coin lives in the
    /// rollout, never in this floor.
    pub built_tier: Tier,
    /// The room name to show.
    pub display_name: &'static str,
}

/// One legal move: a kill, and the corridors to spend the keys on.
#[derive(Debug, Clone)]
pub struct Decision {
    /// `None` only when no architect block could be resolved at all.
    pub architect: Option<ArchitectChoice>,
    /// The corridors to open. Empty is legal and sometimes optimal.
    pub doors: DoorSet,
}

/// Why an option is where it is.
#[derive(Debug, Clone, Copy, PartialEq, Eq, Structural)]
pub enum Reason {
    /// RV: the door set shortens the walk from a valuable room to the
    /// Entrance component; `None` hops is "no path at all".
    Rv { line: Line, before: Option<usize>, after: Option<usize> },
    /// RV, on the excluded side: the option leaves the valuable room stranded.
    RvGamble { line: Line, hops: Option<usize> },
    /// RV generalised: the door set brings target-line rooms into the
    /// Entrance component.
    RvMerge { rooms: usize },
    /// R1-apex: a door whose far end is the Apex, B0 or B1.
    R1Apex,
    /// R2: merges the smallest components available.
    R2 { joined: usize },
    /// R1 gradient: connects toward the top of the board.
    R1Gradient { row: u8 },
    /// RS: connects the scarcer slot.
    Rs { degree: usize },
    /// RU: the option would dilute a saturated upgrade room's picks.
    Ru { slot: Slot, targets: usize, connected: usize },
    /// RD: opening a door beats opening none.
    Rd,
    /// RC: next to a built upgrade room, spend the architect on the line.
    Rc { upgrader: Slot },
    /// RT: take the upgrade line while no valuable room exists.
    Rt,
    /// R4: max a junk room so it leaves the drop pool.
    R4,
    /// R4's carve-out: keep this slot in the pool for an adjacent shrine.
    R4PoolCarveOut { upgrader: Slot },
    /// R4's carve-out, on the excluded side: the kill would cost a shrine its
    /// only live target.
    R4CarveOutVeto { upgrader: Slot },
    /// No favourable line exists, so change rather than upgrade junk.
    RerollUntilFavourable,
    /// The kill advances one of the strategy's target lines.
    AdvancesTarget { line: Line },
    /// No key dropped.
    ZeroKey,
    /// A key dropped but every corridor from here is pointless.
    NoUsableDoor,
    /// RU declined the key: every corridor worth a key would dilute `slot`.
    RuDeclined { slot: Slot },
    /// Ranked on expected value alone.
    ExpectedValue,
}

/// RV's verdict on one option.
#[derive(Debug, Clone, Copy, PartialEq, Eq, Structural)]
pub enum RvVerdict {
    /// RV does not apply, or the option satisfies it.
    Allowed(Option<Reason>),
    /// The option strands a valuable room: a labelled gamble, never hidden.
    Gamble(Reason),
}

/// The door half of the priority chain, as a lexicographic key; greater is
/// better, and the field order is the chain.
#[derive(Debug, Clone, Copy, PartialEq, Eq, Structural, PartialOrd, Ord)]
pub struct DoorKey {
    /// RV generalised: target-line rooms the set newly connects.
    pub connects_value: u8,
    /// RU: 1 unless the option dilutes a saturated upgrade room.
    pub ru_ok: u8,
    /// R1-apex: Apex or Apex-adjacent corridors the set opens.
    pub r1_apex: u8,
    /// RD: how many corridors the set opens.
    pub opens: u8,
    /// R2: negated total size of the components each door joins.
    pub r2: i32,
    /// R1 gradient: negated best row the set reaches.
    pub r1_gradient: i32,
    /// RS: negated smallest lattice degree among the far ends.
    pub rs: i32,
}

/// The architect half; greater is better. Byte 0 is R4's carve-out veto, the
/// rest are tie-breaks: advances a target, RT, RC, then R4 or the reroll.
#[derive(Debug, Clone, Copy, PartialEq, Eq, PartialOrd, Ord)]
pub struct ArchKey(pub [u8; 5]);

impl ArchKey {
    /// Whether R4's carve-out vetoed this kill.
    pub fn vetoed(self) -> (r: bool)
        ensures
            r == (self.0[0] == 0),
    {
        self.0[0] == 0
    }
}

/// Everything the rule layer computed about one option.
#[derive(Debug, Clone)]
pub struct RuleVerdict {
    /// How the door set ranks.
    pub door: DoorKey,
    /// How the kill ranks.
    pub architect: ArchKey,
    /// Every rule that fired, for the overlay to print.
    pub reasons: Vec<Reason>,
}

/// The two strategy switches the rule chain reads.
#[derive(Debug, Clone, Copy, PartialEq, Eq, Structural)]
pub struct RuleFlags {
    /// While no favourable line exists, change rather than upgrade junk.
    pub reroll_until_favourable: bool,
    /// R4's carve-out: keep a slot an adjacent shrine can still lift.
    pub r4_keep_upgrade_targets: bool,
}

/// Whether the slot at board index `i` is the Apex or one of the two slots
/// that can ever open an Apex corridor.
pub open spec fn apex_side(i: int) -> bool {
    i == 0 || i == 1 || i == 2
}

/// R1-apex's predicate: the Apex, B0 or B1.
fn reaches_apex(far: Slot) -> (r: bool)
    ensures
        r == apex_side(slot_index(far)),
{
    far == Slot::A0 || far == Slot::B0 || far == Slot::B1
}

/// The end of `edge` that is not `from`; the lower end when `edge` does not
/// touch `from`.
pub(crate) fn far_end(edge: Edge, from: Slot) -> (r: Slot)
    ensures
        slot_index(r) == crate::state::far_index(edge, from),
        r == if edge.lo_end() == from { edge.hi_end() } else { edge.lo_end() },
{
    let (a, b) = edge.ends();
    if a == from {
        b
    } else {
        a
    }
}

/// Whether the walk got shorter: no path is worse than any number of hops.
pub open spec fn shortens_spec(before: Option<usize>, after: Option<usize>) -> bool {
    match (before, after) {
        (_, None) => false,
        (None, Some(_)) => true,
        (Some(b), Some(a)) => a < b,
    }
}

fn shortens(before: Option<usize>, after: Option<usize>) -> (r: bool)
    ensures
        r == shortens_spec(before, after),
{
    match (before, after) {
        (_, None) => false,
        (None, Some(_)) => true,
        (Some(before), Some(after)) => after < before,
    }
}

/// Whether the walk from board index `from` meets a slot of `target` within
/// `d` open corridors.
pub open spec fn meets_within(open: Seq<u16>, from: int, target: u16, d: nat) -> bool {
    exists|j: int| 0 <= j < 13 && holds(target, j) && holds(crate::state::within(open, single(from), d), j)
}

/// The fewest open corridors from `from` to any slot of `target`, or `None`
/// when no open path exists.
pub open spec fn is_hops_to(open: Seq<u16>, from: int, target: u16, r: Option<usize>) -> bool {
    match r {
        Some(d) => meets_within(open, from, target, d as nat) && forall|e: nat|
            e < d ==> !#[trigger] meets_within(open, from, target, e),
        None => forall|e: nat| !#[trigger] meets_within(open, from, target, e),
    }
}

/// Hops from `from` to the nearest slot of `target` over open doors.
fn hops_to(open: &[SlotMask; 13], from: Slot, target: SlotMask) -> (r: Option<usize>)
    ensures
        is_hops_to(open@, slot_index(from), target, r),
{
    let dist = hop_distances(open, from);
    let ghost a = slot_index(from);
    let mut best: Option<usize> = None;
    let mut j: usize = 0;
    while j < 13
        invariant
            j <= 13,
            forall|i: int|
                0 <= i < 13 ==> match #[trigger] dist[i] {
                    Some(d) => is_hop_distance(open@, a, i, d as nat),
                    None => !reachable(open@, single(a), i),
                },
            match best {
                Some(d) => exists|i: int| 0 <= i < j && holds(target, i) && #[trigger] dist[i] == Some(d),
                None => true,
            },
            forall|i: int|
                0 <= i < j && holds(target, i) ==> match #[trigger] dist[i] {
                    Some(d) => best is Some && best.unwrap() <= d,
                    None => true,
                },
        decreases 13 - j,
    {
        if mask_holds(target, j) {
            match dist[j] {
                Some(d) => {
                    match best {
                        Some(b) => {
                            if d < b {
                                best = Some(d);
                            }
                        },
                        None => {
                            best = Some(d);
                        },
                    }
                },
                None => {},
            }
        }
        j += 1;
    }
    proof {
        match best {
            Some(d) => {
                let i = choose|i: int| 0 <= i < 13 && holds(target, i) && #[trigger] dist[i] == Some(d);
                assert(is_hop_distance(open@, a, i, d as nat));
                assert(meets_within(open@, a, target, d as nat));
                assert forall|e: nat| e < d implies !#[trigger] meets_within(open@, a, target, e) by {
                    if meets_within(open@, a, target, e) {
                        let k = choose|k: int|
                            0 <= k < 13 && holds(target, k) && holds(crate::state::within(open@, single(a), e), k);
                        assert(reachable(open@, single(a), k));
                        let dk = dist[k].unwrap();
                        assert(is_hop_distance(open@, a, k, dk as nat));
                        assert(dk <= e);
                    }
                }
            },
            None => {
                assert forall|e: nat| !#[trigger] meets_within(open@, a, target, e) by {
                    if meets_within(open@, a, target, e) {
                        let k = choose|k: int|
                            0 <= k < 13 && holds(target, k) && holds(crate::state::within(open@, single(a), e), k);
                        assert(reachable(open@, single(a), k));
                        match dist[k] {
                            Some(dk) => {
                                assert(best is Some);
                            },
                            None => {},
                        }
                    }
                }
            },
        }
    }
    best
}


/// Whether a door set holds exactly the corridors of `es`.
pub open spec fn holds_exactly(d: DoorSet, es: Seq<Edge>) -> bool {
    forall|e: Edge| #[trigger] d.has(e) == es.contains(e)
}

/// The closed corridors out of `pos` toward the slots below `j` whose far end
/// lies outside `pos`'s own component: the doors a key can buy something with.
pub open spec fn useful_scan(board: BoardState, pos: Slot, j: int) -> Seq<Edge>
    decreases j,
{
    if j <= 0 {
        Seq::empty()
    } else {
        let prev = useful_scan(board, pos, j - 1);
        let i = slot_index(pos);
        if lattice_adjacent(i, j - 1) && !crate::state::door_open(board.doors, i, j - 1) && !holds(
            closure(board.open(), single(i)),
            j - 1,
        ) {
            prev.push(crate::lattice::edge_between(i, j - 1))
        } else {
            prev
        }
    }
}

/// Whether a second key through `second` would only buy the merge `first`
/// already bought: its far end is in the component of `first`'s far end once
/// `first` is open.
pub open spec fn redundant(open: Seq<u16>, pos: Slot, first: Edge, second: Edge) -> bool {
    let t = with_door(open, edge_pair(first).0, edge_pair(first).1);
    holds(closure(t, single(crate::state::far_index(first, pos))), crate::state::far_index(second, pos))
}

/// The pairs `{cands[i], cands[m]}` for `i < m < j` that are not redundant.
pub open spec fn pairs_from(open: Seq<u16>, pos: Slot, cands: Seq<Edge>, i: int, j: int) -> Seq<Seq<Edge>>
    decreases j - i,
{
    if j <= i + 1 {
        Seq::empty()
    } else {
        let prev = pairs_from(open, pos, cands, i, j - 1);
        if redundant(open, pos, cands[i], cands[j - 1]) {
            prev
        } else {
            prev.push(seq![cands[i], cands[j - 1]])
        }
    }
}

/// The door sets built from the first `n` candidates: nothing, then each
/// candidate alone followed, when two keys fell, by its non-redundant pairs
/// with the later candidates.
pub open spec fn sets_through(open: Seq<u16>, pos: Slot, cands: Seq<Edge>, keys: u8, n: int) -> Seq<Seq<Edge>>
    decreases n,
{
    if n <= 0 {
        seq![Seq::<Edge>::empty()]
    } else {
        let with_single = sets_through(open, pos, cands, keys, n - 1).push(seq![cands[n - 1]]);
        if keys < 2 {
            with_single
        } else {
            with_single + pairs_from(open, pos, cands, n - 1, cands.len() as int)
        }
    }
}

/// Every legal door set for the room at `pos` with `keys` keys, in order.
pub open spec fn door_sets_spec(board: BoardState, pos: Slot, keys: u8) -> Seq<Seq<Edge>> {
    if keys == 0 {
        seq![Seq::<Edge>::empty()]
    } else {
        let c = useful_scan(board, pos, 13);
        sets_through(board.open(), pos, c, keys, c.len() as int)
    }
}

/// Two corridors with the same index pair are the same corridor.
pub proof fn lemma_edge_pair_injective(x: Edge, e: Edge)
    requires
        edge_pair(x) == edge_pair(e),
    ensures
        x == e,
{
    crate::lattice::lemma_slot_index_bijection();
    Edge::lemma_eq(x, e);
}

pub(crate) fn single_set(e: Edge) -> (r: DoorSet)
    ensures
        holds_exactly(r, seq![e]),
{
    let mut d = DoorSet::new();
    d.insert(e);
    proof {
        assert forall|x: Edge| #[trigger] d.has(x) == seq![e].contains(x) by {
            if d.has(x) {
                lemma_edge_pair_injective(x, e);
            }
            assert(seq![e][0] == e);
        }
    }
    d
}

fn pair_set(e: Edge, f: Edge) -> (r: DoorSet)
    ensures
        holds_exactly(r, seq![e, f]),
{
    let mut d = DoorSet::new();
    d.insert(e);
    d.insert(f);
    proof {
        assert forall|x: Edge| #[trigger] d.has(x) == seq![e, f].contains(x) by {
            if d.has(x) {
                if edge_pair(x) == edge_pair(e) {
                    lemma_edge_pair_injective(x, e);
                } else {
                    lemma_edge_pair_injective(x, f);
                }
            }
            assert(seq![e, f][0] == e);
            assert(seq![e, f][1] == f);
        }
    }
    d
}

/// Open the corridor between two slots in an adjacency table.
fn open_between(table: &mut [SlotMask; 13], a: usize, b: usize)
    requires
        a < 13,
        b < 13,
    ensures
        final(table)@ == with_door(old(table)@, a as int, b as int),
{
    let bb = crate::masks::mask_bit(b);
    table[a] = table[a] | bb;
    let ba = crate::masks::mask_bit(a);
    table[b] = table[b] | ba;
}

/// The useful corridors out of `position`, in board order of their far ends.
fn useful_doors(board: &BoardState, position: Slot, open: &[SlotMask; 13]) -> (r: Vec<Edge>)
    requires
        open@ == board.open(),
    ensures
        r@ == useful_scan(*board, position, 13),
        forall|k: int| 0 <= k < r@.len() ==> (#[trigger] r@[k]).has_end(position),
{
    let mine = component(open, position);
    let si = position.index();
    let mut out: Vec<Edge> = Vec::new();
    let mut j: usize = 0;
    proof {
        crate::lattice::lemma_slot_index_bijection();
    }
    while j < 13
        invariant
            j <= 13,
            si == slot_index(position),
            slot_of(si as int) == position,
            open@ == board.open(),
            mine == closure(open@, single(si as int)),
            out@ == useful_scan(*board, position, j as int),
            forall|k: int| 0 <= k < out@.len() ==> (#[trigger] out@[k]).has_end(position),
        decreases 13 - j,
    {
        let b = crate::lattice::slot_at(j);
        if crate::lattice::adjacent(position, b) && !board.doors.holds_slots(si, j) && !mask_holds(mine, j) {
            let e = Edge::new(position, b);
            out.push(e);
        }
        j += 1;
    }
    out
}

/// Every legal door set for the current room: opening nothing, each useful
/// corridor alone, and, with two keys, each pair of useful corridors that buys
/// two different merges.
pub fn door_sets(board: &BoardState, position: Slot, keys: u8) -> (r: Vec<DoorSet>)
    ensures
        r@.len() == door_sets_spec(*board, position, keys).len(),
        forall|k: int| 0 <= k < r@.len() ==> holds_exactly(#[trigger] r@[k], door_sets_spec(*board, position, keys)[k]),
{
    let mut sets: Vec<DoorSet> = Vec::new();
    let nothing = DoorSet::new();
    proof {
        assert forall|x: Edge| #[trigger] nothing.has(x) == Seq::<Edge>::empty().contains(x) by {}
    }
    sets.push(nothing);
    if keys == 0 {
        return sets;
    }
    let open = board.adjacency();
    let candidates = useful_doors(board, position, &open);
    let ghost cands = candidates@;
    let mut i: usize = 0;
    while i < candidates.len()
        invariant
            keys > 0,
            i <= cands.len(),
            cands == candidates@,
            cands == useful_scan(*board, position, 13),
            open@ == board.open(),
            forall|k: int| 0 <= k < cands.len() ==> (#[trigger] cands[k]).has_end(position),
            sets@.len() == sets_through(open@, position, cands, keys, i as int).len(),
            forall|k: int|
                0 <= k < sets@.len() ==> holds_exactly(#[trigger] sets@[k], sets_through(open@, position, cands, keys, i as int)[k]),
        decreases cands.len() - i,
    {
        let first = candidates[i];
        let ghost base = sets_through(open@, position, cands, keys, i as int);
        sets.push(single_set(first));
        proof {
            let ws = base.push(seq![cands[i as int]]);
            assert forall|k: int| 0 <= k < sets@.len() implies holds_exactly(#[trigger] sets@[k], ws[k]) by {
                if k < base.len() {
                    assert(ws[k] == base[k]);
                }
            }
        }
        if keys >= 2 {
            let ghost ws = base.push(seq![cands[i as int]]);
            let (p, q) = first.ends();
            let mut trial = open;
            open_between(&mut trial, p.index(), q.index());
            let a = far_end(first, position);
            let mut m: usize = i + 1;
            while m < candidates.len()
                invariant
                    i < cands.len(),
                    i + 1 <= m <= cands.len(),
                    cands == candidates@,
                    first == cands[i as int],
                    trial@ == with_door(open@, edge_pair(first).0, edge_pair(first).1),
                    slot_index(a) == crate::state::far_index(first, position),
                    sets@.len() == ws.len() + pairs_from(open@, position, cands, i as int, m as int).len(),
                    forall|k: int|
                        0 <= k < sets@.len() ==> holds_exactly(
                            #[trigger] sets@[k],
                            (ws + pairs_from(open@, position, cands, i as int, m as int))[k],
                        ),
                decreases cands.len() - m,
            {
                let second = candidates[m];
                let b = far_end(second, position);
                let ghost before = ws + pairs_from(open@, position, cands, i as int, m as int);
                let reach = component(&trial, a);
                if !mask_holds(reach, b.index()) {
                    sets.push(pair_set(first, second));
                    proof {
                        let now = ws + pairs_from(open@, position, cands, i as int, m + 1);
                        assert(now =~= before.push(seq![first, second]));
                        assert forall|k: int| 0 <= k < sets@.len() implies holds_exactly(#[trigger] sets@[k], now[k]) by {
                            if k < before.len() {
                                assert(now[k] == before[k]);
                            }
                        }
                    }
                } else {
                    proof {
                        let now = ws + pairs_from(open@, position, cands, i as int, m + 1);
                        assert(now =~= before);
                    }
                }
                m += 1;
            }
        }
        proof {
            let next = sets_through(open@, position, cands, keys, i + 1);
            if keys < 2 {
                assert(next == base.push(seq![cands[i as int]]));
            } else {
                assert(next == base.push(seq![cands[i as int]]) + pairs_from(open@, position, cands, i as int, cands.len() as int));
            }
        }
        i += 1;
    }
    sets
}


/// An adjacency table with the first `k` corridors of `es` opened, in order.
pub open spec fn opened_by(open: Seq<u16>, es: Seq<Edge>, k: int) -> Seq<u16>
    decreases k,
{
    if k <= 0 {
        open
    } else {
        with_door(opened_by(open, es, k - 1), edge_pair(es[k - 1]).0, edge_pair(es[k - 1]).1)
    }
}

/// An adjacency table with every corridor of `d` opened.
pub open spec fn with_doors(open: Seq<u16>, d: DoorSet) -> Seq<u16> {
    opened_by(open, edge_list(d), edge_list(d).len() as int)
}

/// The hop count [`is_hops_to`] pins down.
pub open spec fn hops_value(open: Seq<u16>, from: int, target: u16) -> Option<usize> {
    choose|r: Option<usize>| is_hops_to(open, from, target, r)
}

/// At most one hop count meets [`is_hops_to`].
pub proof fn lemma_hops_unique(open: Seq<u16>, from: int, target: u16, r: Option<usize>)
    requires
        is_hops_to(open, from, target, r),
    ensures
        hops_value(open, from, target) == r,
{
    let v = hops_value(open, from, target);
    assert(is_hops_to(open, from, target, v));
    match (r, v) {
        (Some(d), Some(e)) => {
            if d < e {
                assert(!meets_within(open, from, target, d as nat));
            } else if e < d {
                assert(!meets_within(open, from, target, e as nat));
            }
        },
        (Some(d), None) => {
            assert(!meets_within(open, from, target, d as nat));
        },
        (None, Some(e)) => {
            assert(!meets_within(open, from, target, e as nat));
        },
        (None, None) => {},
    }
}

fn hops_between(open: &[SlotMask; 13], from: Slot, target: SlotMask) -> (r: Option<usize>)
    ensures
        r == hops_value(open@, slot_index(from), target),
{
    let r = hops_to(open, from, target);
    proof {
        lemma_hops_unique(open@, slot_index(from), target, r);
    }
    r
}

/// The adjacency table with every corridor of `doors` opened.
fn apply_doors(open: &[SlotMask; 13], doors: &DoorSet) -> (r: [SlotMask; 13])
    ensures
        r@ == with_doors(open@, *doors),
{
    let es = doors.edges();
    let mut trial = *open;
    let mut k: usize = 0;
    while k < es.len()
        invariant
            k <= es@.len(),
            es@ == edge_list(*doors),
            trial@ == opened_by(open@, es@, k as int),
        decreases es@.len() - k,
    {
        let (a, b) = es[k].ends();
        open_between(&mut trial, a.index(), b.index());
        k += 1;
    }
    trial
}

/// RV's verdict, stated over the board: silent unless a shortening door set
/// is on offer, the room is stranded and the kill builds a target line; then
/// allowed with its reason when this door set shortens the walk to the
/// Entrance component, a gamble otherwise.
pub open spec fn rv_spec(
    board: BoardState,
    position: Slot,
    becomes: Option<Line>,
    doors: DoorSet,
    valuation: Valuation,
    connectable: bool,
) -> RvVerdict {
    let entrance = board.reach();
    let p = slot_index(position);
    if !connectable || holds(entrance, p) || becomes is None || !valuation.targets_line(becomes.unwrap()) {
        RvVerdict::Allowed(None)
    } else {
        let line = becomes.unwrap();
        let before = hops_value(board.open(), p, entrance);
        let after = hops_value(with_doors(board.open(), doors), p, entrance);
        if shortens_spec(before, after) {
            RvVerdict::Allowed(Some(Reason::Rv { line, before, after }))
        } else {
            RvVerdict::Gamble(Reason::RvGamble { line, hops: after })
        }
    }
}

/// RV: a valuable room must be reachable, and this outranks everything.
/// It constrains the passage, never the kill.
pub fn rv_verdict(
    board: &BoardState,
    position: Slot,
    becomes: Option<Line>,
    doors: &DoorSet,
    valuation: &Valuation,
    connectable: bool,
) -> (r: RvVerdict)
    ensures
        r == rv_spec(*board, position, becomes, *doors, *valuation, connectable),
{
    if !connectable {
        return RvVerdict::Allowed(None);
    }
    let open = board.adjacency();
    let entrance = component(&open, Slot::E1);
    if mask_holds(entrance, position.index()) {
        return RvVerdict::Allowed(None);
    }
    let line = match becomes {
        Some(l) => l,
        None => {
            return RvVerdict::Allowed(None);
        },
    };
    if !valuation.is_target(valuation.tag(line)) {
        return RvVerdict::Allowed(None);
    }
    let before = hops_between(&open, position, entrance);
    let trial = apply_doors(&open, doors);
    let after = hops_between(&trial, position, entrance);
    if shortens(before, after) {
        RvVerdict::Allowed(Some(Reason::Rv { line, before, after }))
    } else {
        RvVerdict::Gamble(Reason::RvGamble { line, hops: after })
    }
}

/// Whether some door set of `sets` shortens the walk from `position` to the
/// Entrance component; never while the room is already connected.
pub open spec fn rv_connectable_spec(board: BoardState, position: Slot, sets: Seq<DoorSet>) -> bool {
    let entrance = board.reach();
    let p = slot_index(position);
    &&& !holds(entrance, p)
    &&& exists|k: int|
        0 <= k < sets.len() && shortens_spec(
            hops_value(board.open(), p, entrance),
            hops_value(with_doors(board.open(), #[trigger] sets[k]), p, entrance),
        )
}

/// Whether RV has any opinion to give on this board.
pub fn rv_connectable(board: &BoardState, position: Slot, sets: &Vec<DoorSet>) -> (r: bool)
    ensures
        r == rv_connectable_spec(*board, position, sets@),
{
    let open = board.adjacency();
    let entrance = component(&open, Slot::E1);
    if mask_holds(entrance, position.index()) {
        return false;
    }
    let before = hops_between(&open, position, entrance);
    let mut k: usize = 0;
    while k < sets.len()
        invariant
            k <= sets@.len(),
            open@ == board.open(),
            entrance == board.reach(),
            !holds(entrance, slot_index(position)),
            before == hops_value(board.open(), slot_index(position), entrance),
            forall|q: int|
                0 <= q < k ==> !shortens_spec(
                    before,
                    hops_value(with_doors(board.open(), #[trigger] sets@[q]), slot_index(position), entrance),
                ),
        decreases sets@.len() - k,
    {
        let trial = apply_doors(&open, &sets[k]);
        if shortens(before, hops_between(&trial, position, entrance)) {
            proof {
                let q = k as int;
                assert(shortens_spec(
                    hops_value(board.open(), slot_index(position), entrance),
                    hops_value(with_doors(board.open(), sets@[q]), slot_index(position), entrance),
                ));
            }
            return true;
        }
        k += 1;
    }
    false
}


/// The rooms after this option's kill: the architect's line and guaranteed
/// tier in `position`, every other slot as it was.
pub open spec fn applied_rooms(board: BoardState, position: Slot, architect: Option<&ArchitectChoice>) -> Seq<
    crate::state::Room,
> {
    match architect {
        Some(a) => board.rooms@.update(slot_index(position), (Some(a.line), a.built_tier)),
        None => board.rooms@,
    }
}

/// Whether the corridors of `es` join board indices `i` and `j`.
pub open spec fn edges_join(es: Seq<Edge>, i: int, j: int) -> bool {
    exists|k: int| 0 <= k < es.len() && (edge_pair(#[trigger] es[k]) == (i, j) || edge_pair(es[k]) == (j, i))
}

/// Whether `t` is the adjacency table of `doors` with the corridors `extra`
/// names opened as well.
pub open spec fn is_joint_table(doors: DoorSet, extra: spec_fn(int, int) -> bool, t: Seq<u16>) -> bool {
    t.len() == 13 && forall|i: int, j: int|
        0 <= i < 13 ==> #[trigger] holds(t[i], j) == (crate::state::door_open(doors, i, j) || extra(i, j))
}

/// The adjacency table of `doors` together with the corridors `extra` names.
pub open spec fn joint_table(doors: DoorSet, extra: spec_fn(int, int) -> bool) -> Seq<u16> {
    choose|t: Seq<u16>| is_joint_table(doors, extra, t)
}

/// A joint table is unique.
pub proof fn lemma_joint_table_unique(doors: DoorSet, extra: spec_fn(int, int) -> bool, t: Seq<u16>)
    requires
        is_joint_table(doors, extra, t),
    ensures
        joint_table(doors, extra) == t,
{
    let u = joint_table(doors, extra);
    assert(is_joint_table(doors, extra, u));
    assert forall|i: int| 0 <= i < 13 implies t[i] == u[i] by {
        assert forall|j: int| 0 <= j < 16 implies #[trigger] holds(t[i], j) == holds(u[i], j) by {
            assert(holds(t[i], j) == (crate::state::door_open(doors, i, j) || extra(i, j)));
            assert(holds(u[i], j) == (crate::state::door_open(doors, i, j) || extra(i, j)));
        }
        crate::masks::lemma_holds_ext(t[i], u[i]);
    }
    assert(t =~= u);
}

/// A door set holding exactly `es` opens exactly the corridors `es` joins.
pub proof fn lemma_exact_joins(d: DoorSet, es: Seq<Edge>)
    requires
        holds_exactly(d, es),
    ensures
        forall|i: int, j: int| #[trigger] crate::state::door_open(d, i, j) == edges_join(es, i, j),
        (forall|i: int, j: int| !#[trigger] d.holds_pair(i, j)) == (es.len() == 0),
{
    crate::lattice::lemma_slot_index_bijection();
    d.lemma_pairs_in_range();
    assert forall|i: int, j: int| #[trigger] d.holds_pair(i, j) == (0 <= i < j < 13 && es.contains(Edge::spec_between(i, j))) by {
        Edge::lemma_between(i, j);
        if 0 <= i < j < 13 {
            assert(edge_pair(Edge::spec_between(i, j)) == (i, j));
            assert(d.has(Edge::spec_between(i, j)) == d.holds_pair(i, j));
        }
    }
    assert forall|i: int, j: int| #[trigger] crate::state::door_open(d, i, j) == edges_join(es, i, j) by {
        if edges_join(es, i, j) {
            let k = choose|k: int| 0 <= k < es.len() && (edge_pair(#[trigger] es[k]) == (i, j) || edge_pair(es[k]) == (j, i));
            assert(es.contains(es[k]));
            assert(d.has(es[k]));
        }
        if d.holds_pair(i, j) {
            let e = Edge::spec_between(i, j);
            Edge::lemma_between(i, j);
            let k = choose|k: int| 0 <= k < es.len() && es[k] == e;
            assert(edge_pair(es[k]) == (i, j));
        }
        if d.holds_pair(j, i) {
            let e = Edge::spec_between(j, i);
            Edge::lemma_between(j, i);
            let k = choose|k: int| 0 <= k < es.len() && es[k] == e;
            assert(edge_pair(es[k]) == (j, i));
        }
    }
    if es.len() > 0 {
        let e = es[0];
        assert(es.contains(e));
        assert(d.has(e));
        assert(d.holds_pair(edge_pair(e).0, edge_pair(e).1));
    }
}

/// The board after this option is played: the kill's room in place and the
/// door set opened.
pub(crate) fn applied(board: &BoardState, position: Slot, architect: Option<&ArchitectChoice>, doors: &DoorSet) -> (r: BoardState)
    ensures
        r.rooms@ == applied_rooms(*board, position, architect),
        forall|i: int, j: int| #[trigger] r.doors.holds_pair(i, j) == (board.doors.holds_pair(i, j) || doors.holds_pair(i, j)),
        r.open() == joint_table(board.doors, |i: int, j: int| crate::state::door_open(*doors, i, j)),
{
    let mut after = *board;
    match architect {
        Some(a) => {
            after.set_room(position, Some(a.line), a.built_tier);
            proof {
                assert(after.rooms@ =~= board.rooms@.update(slot_index(position), (Some(a.line), a.built_tier)));
            }
        },
        None => {},
    }
    after.doors = after.doors.union(doors);
    let table = after.adjacency();
    proof {
        let extra = |i: int, j: int| crate::state::door_open(*doors, i, j);
        assert(is_joint_table(board.doors, extra, table@));
        lemma_joint_table_unique(board.doors, extra, table@);
    }
    after
}

/// The target pool of the upgrade room at board index `s`: its lattice
/// neighbours without the Apex.
pub open spec fn upgrade_pool_mask(s: int) -> u16 {
    lattice_table()[s] & !single(0)
}

/// Whether RU fires for the room at `s`: a tier-1 or tier-2 upgrade room
/// whose connected pool grows while its picks are already certainties.
pub open spec fn ru_fires(before_open: Seq<u16>, after_open: Seq<u16>, room: crate::state::Room, s: int) -> bool {
    let was = popcount(before_open[s] & upgrade_pool_mask(s));
    let now = popcount(after_open[s] & upgrade_pool_mask(s));
    &&& room.0 == Some(Line::Upgrade)
    &&& (room.1 == Tier::T1 || room.1 == Tier::T2)
    &&& now > was
    &&& was >= crate::strategy::tier_value(room.1)
}

/// RU's first firing among the slots below `k`, in board order.
pub open spec fn ru_scan(before_open: Seq<u16>, after_open: Seq<u16>, rooms: Seq<crate::state::Room>, k: int) -> Option<Reason>
    decreases k,
{
    if k <= 0 {
        None
    } else {
        let prev = ru_scan(before_open, after_open, rooms, k - 1);
        if prev is Some {
            prev
        } else if ru_fires(before_open, after_open, rooms[k - 1], k - 1) {
            Some(
                Reason::Ru {
                    slot: slot_of(k - 1),
                    targets: crate::strategy::tier_value(rooms[k - 1].1) as usize,
                    connected: popcount(after_open[k - 1] & upgrade_pool_mask(k - 1)) as usize,
                },
            )
        } else {
            None
        }
    }
}

/// RU on a played option: the first upgrade room the extra corridors dilute.
pub open spec fn ru_after(
    board: BoardState,
    position: Slot,
    architect: Option<&ArchitectChoice>,
    extra: spec_fn(int, int) -> bool,
) -> Option<Reason> {
    ru_scan(board.open(), joint_table(board.doors, extra), applied_rooms(board, position, architect), 13)
}

/// Once RU fires, later slots do not change the answer.
proof fn lemma_ru_scan_stays(before_open: Seq<u16>, after_open: Seq<u16>, rooms: Seq<crate::state::Room>, k: int, m: int)
    requires
        ru_scan(before_open, after_open, rooms, k) is Some,
        k <= m,
    ensures
        ru_scan(before_open, after_open, rooms, m) == ru_scan(before_open, after_open, rooms, k),
    decreases m - k,
{
    if k < m {
        lemma_ru_scan_stays(before_open, after_open, rooms, k, m - 1);
    }
}

/// RU's scan over every slot, in board order.
fn ru_scan_slots(before: &BoardState, after: &BoardState) -> (r: Option<Reason>)
    ensures
        r == ru_scan(before.open(), after.open(), after.rooms@, 13),
{
    let before_open = before.adjacency();
    let after_open = after.adjacency();
    let neighbours = crate::state::neighbour_masks();
    let apex = mask_of(Slot::A0);
    let mut i: usize = 0;
    while i < 13
        invariant
            i <= 13,
            before_open@ == before.open(),
            after_open@ == after.open(),
            neighbours@ == lattice_table(),
            apex == single(0),
            ru_scan(before.open(), after.open(), after.rooms@, i as int) is None,
        decreases 13 - i,
    {
        let slot = crate::lattice::slot_at(i);
        let (line, tier) = after.rooms[i];
        let t = tier.get();
        if line == Some(Line::Upgrade) && (t == 1 || t == 2) {
            let pool = crate::masks::mask_minus(neighbours[i], apex);
            let was = mask_count(crate::masks::mask_intersect(before_open[i], pool));
            let now = mask_count(crate::masks::mask_intersect(after_open[i], pool));
            if now > was && was >= t as u32 {
                proof {
                    assert(after.rooms@[i as int] == after.rooms[i as int]);
                    assert(ru_fires(before.open(), after.open(), after.rooms@[i as int], i as int));
                    lemma_ru_scan_stays(before.open(), after.open(), after.rooms@, i + 1, 13);
                }
                return Some(Reason::Ru { slot, targets: t as usize, connected: now as usize });
            }
        }
        proof {
            assert(after.rooms@[i as int] == after.rooms[i as int]);
        }
        i += 1;
    }
    None
}

/// RU: an upgrade room's connected degree is a resource a door can spend.
/// Below its pick count a new door is free; at or above it, a new door turns
/// a certainty into a lottery.
pub(crate) fn ru_violation(before: &BoardState, after: &BoardState, doors: &DoorSet) -> (r: Option<Reason>)
    ensures
        r == if forall|i: int, j: int| !#[trigger] doors.holds_pair(i, j) {
            None
        } else {
            ru_scan(before.open(), after.open(), after.rooms@, 13)
        },
{
    if doors.is_empty() {
        return None;
    }
    ru_scan_slots(before, after)
}


/// Whether the room at board index `n` will supply `slot` a tier: a built
/// upgrade room next to it, behind an open corridor at tiers 1 and 2.
pub open spec fn supplies_tier(board: BoardState, slot: int, n: int) -> bool {
    let (line, tier) = board.rooms[n];
    &&& lattice_adjacent(slot, n)
    &&& line == Some(Line::Upgrade)
    &&& tier != Tier::T0
    &&& (tier == Tier::T3 || holds(board.open()[slot], n))
}

/// The first board index below `k` whose room supplies `slot` a tier.
pub open spec fn first_supplier(board: BoardState, slot: int, k: int) -> Option<Slot>
    decreases k,
{
    if k <= 0 {
        None
    } else {
        let prev = first_supplier(board, slot, k - 1);
        if prev is Some {
            prev
        } else if supplies_tier(board, slot, k - 1) {
            Some(slot_of(k - 1))
        } else {
            None
        }
    }
}

/// Whether the upgrade room at `n` can still lift `slot`, and with certainty:
/// a Temple Nexus next to it, or a Shrine or Sanctum behind an open corridor
/// whose connected pool is no larger than its picks.
pub open spec fn lifts_for_sure(board: BoardState, slot: int, n: int) -> bool {
    let (line, tier) = board.rooms[n];
    let picks = crate::strategy::tier_value(tier);
    &&& lattice_adjacent(slot, n)
    &&& line == Some(Line::Upgrade)
    &&& (picks == 3 || (picks != 0 && holds(board.open()[slot], n) && popcount(
        board.open()[n] & upgrade_pool_mask(n),
    ) <= picks))
}

/// The first board index below `k` whose upgrade room lifts `slot` for sure.
pub open spec fn first_lifter(board: BoardState, slot: int, k: int) -> Option<Slot>
    decreases k,
{
    if k <= 0 {
        None
    } else {
        let prev = first_lifter(board, slot, k - 1);
        if prev is Some {
            prev
        } else if lifts_for_sure(board, slot, k - 1) {
            Some(slot_of(k - 1))
        } else {
            None
        }
    }
}

/// R4's carve-out condition: a liftable slot (tier 1 or 2) with an adjacent
/// upgrade room that lifts it for sure.
pub open spec fn live_target_spec(board: BoardState, slot: Slot) -> Option<Slot> {
    let tier = board.rooms[slot_index(slot)].1;
    if tier != Tier::T1 && tier != Tier::T2 {
        None
    } else {
        first_lifter(board, slot_index(slot), 13)
    }
}

proof fn lemma_first_stays_supplier(board: BoardState, slot: int, k: int, m: int)
    requires
        first_supplier(board, slot, k) is Some,
        k <= m,
    ensures
        first_supplier(board, slot, m) == first_supplier(board, slot, k),
    decreases m - k,
{
    if k < m {
        lemma_first_stays_supplier(board, slot, k, m - 1);
    }
}

proof fn lemma_first_stays_lifter(board: BoardState, slot: int, k: int, m: int)
    requires
        first_lifter(board, slot, k) is Some,
        k <= m,
    ensures
        first_lifter(board, slot, m) == first_lifter(board, slot, k),
    decreases m - k,
{
    if k < m {
        lemma_first_stays_lifter(board, slot, k, m - 1);
    }
}

/// An adjacent upgrade room that will supply this slot a tier.
fn neighbouring_upgrader(board: &BoardState, slot: Slot) -> (r: Option<Slot>)
    ensures
        r == first_supplier(*board, slot_index(slot), 13),
{
    let open = board.adjacency();
    let table = crate::state::neighbour_masks();
    let si = slot.index();
    let mut n: usize = 0;
    while n < 13
        invariant
            n <= 13,
            si == slot_index(slot),
            open@ == board.open(),
            crate::state::is_lattice_table(table@),
            first_supplier(*board, si as int, n as int) is None,
        decreases 13 - n,
    {
        let (line, tier) = board.rooms[n];
        assert(holds(table[si as int], n as int) == lattice_adjacent(si as int, n as int));
        if mask_holds(table[si], n) && line == Some(Line::Upgrade) && tier != Tier::T0 && (tier == Tier::T3
            || mask_holds(open[si], n)) {
            proof {
                assert(supplies_tier(*board, si as int, n as int));
                lemma_first_stays_supplier(*board, si as int, n + 1, 13);
            }
            return Some(crate::lattice::slot_at(n));
        }
        n += 1;
    }
    None
}

/// R4's carve-out condition: an adjacent upgrade room that can still hit this
/// slot, and whose pick on it is a certainty rather than a lottery ticket.
fn live_upgrade_target(board: &BoardState, slot: Slot) -> (r: Option<Slot>)
    ensures
        r == live_target_spec(*board, slot),
{
    let own = board.tier(slot);
    if own != Tier::T1 && own != Tier::T2 {
        return None;
    }
    let open = board.adjacency();
    let table = crate::state::neighbour_masks();
    let apex = mask_of(Slot::A0);
    let si = slot.index();
    let mut n: usize = 0;
    while n < 13
        invariant
            n <= 13,
            si == slot_index(slot),
            open@ == board.open(),
            table@ == lattice_table(),
            crate::state::is_lattice_table(table@),
            apex == single(0),
            own == board.rooms[slot_index(slot)].1,
            own == Tier::T1 || own == Tier::T2,
            first_lifter(*board, si as int, n as int) is None,
        decreases 13 - n,
    {
        let (line, tier) = board.rooms[n];
        assert(holds(table[si as int], n as int) == lattice_adjacent(si as int, n as int));
        if mask_holds(table[si], n) && line == Some(Line::Upgrade) {
            let picks = tier.get();
            let lifts = if picks == 3 {
                true
            } else if picks == 0 || !mask_holds(open[si], n) {
                false
            } else {
                let pool = crate::masks::mask_minus(table[n], apex);
                mask_count(crate::masks::mask_intersect(open[n], pool)) <= picks as u32
            };
            assert(lifts == lifts_for_sure(*board, si as int, n as int));
            if lifts {
                proof {
                    lemma_first_stays_lifter(*board, si as int, n + 1, 13);
                }
                return Some(crate::lattice::slot_at(n));
            }
        }
        n += 1;
    }
    None
}

/// Whether a room is a built room of one of the strategy's target lines.
pub open spec fn targeted_room(room: crate::state::Room, valuation: Valuation) -> bool {
    room.1 != Tier::T0 && room.0 is Some && valuation.targets_line(room.0.unwrap())
}

/// How many slots below `k` are in `now` but not in `was` and hold a built
/// room of a target line.
pub open spec fn gained_targets(rooms: Seq<crate::state::Room>, was: u16, now: u16, valuation: Valuation, k: int) -> nat
    decreases k,
{
    if k <= 0 {
        0
    } else {
        gained_targets(rooms, was, now, valuation, k - 1) + if holds(now, k - 1) && !holds(was, k - 1)
            && targeted_room(rooms[k - 1], valuation) {
            1nat
        } else {
            0nat
        }
    }
}

/// How many rooms of a target line the door set newly brings into the
/// Entrance component: rooms, not clusters.
fn newly_connected_targets(
    board: &BoardState,
    before: &[SlotMask; 13],
    after: &[SlotMask; 13],
    valuation: &Valuation,
) -> (r: u8)
    ensures
        r == gained_targets(
            board.rooms@,
            closure(before@, single(11)),
            closure(after@, single(11)),
            *valuation,
            13,
        ),
{
    let was = component(before, Slot::E1);
    let now = component(after, Slot::E1);
    let mut count: u8 = 0;
    let mut i: usize = 0;
    while i < 13
        invariant
            i <= 13,
            was == closure(before@, single(11)),
            now == closure(after@, single(11)),
            count == gained_targets(board.rooms@, was, now, *valuation, i as int),
            count <= i,
        decreases 13 - i,
    {
        let (line, tier) = board.rooms[i];
        proof {
            assert(board.rooms@[i as int] == board.rooms[i as int]);
        }
        if mask_holds(now, i) && !mask_holds(was, i) && tier != Tier::T0 {
            match line {
                Some(l) => {
                    if valuation.is_target(valuation.tag(l)) {
                        count = count + 1;
                    }
                },
                None => {},
            }
        }
        i += 1;
    }
    count
}

/// Whether the board already holds a built room of a target line.
pub open spec fn board_has_target(board: BoardState, valuation: Valuation) -> bool {
    exists|i: int| 0 <= i < 13 && #[trigger] targeted_room(board.rooms[i], valuation)
}

fn has_target_room(board: &BoardState, valuation: &Valuation) -> (r: bool)
    ensures
        r == board_has_target(*board, *valuation),
{
    let mut i: usize = 0;
    while i < 13
        invariant
            i <= 13,
            forall|k: int| 0 <= k < i ==> !#[trigger] targeted_room(board.rooms[k], *valuation),
        decreases 13 - i,
    {
        let (line, tier) = board.rooms[i];
        if tier != Tier::T0 {
            match line {
                Some(l) => {
                    if valuation.is_target(valuation.tag(l)) {
                        assert(targeted_room(board.rooms[i as int], *valuation));
                        return true;
                    }
                },
                None => {},
            }
        }
        i += 1;
    }
    false
}

/// Whether this kill takes the slot out of the drop pool: a guaranteed tier
/// 3, or an upgrade of a built room, which rolls for one more.
pub open spec fn leaves_pool(board: BoardState, position: Slot, a: ArchitectChoice) -> bool {
    a.built_tier == Tier::T3 || (a.kind == OfferKind::Upgrade && board.rooms[slot_index(position)].1 != Tier::T0)
}

/// Whether R4 and its carve-out speak for this kill: neither the reroll
/// switch nor a target line has claimed it.
pub open spec fn r4_speaks(board: BoardState, a: ArchitectChoice, valuation: Valuation, flags: RuleFlags) -> bool {
    !(flags.reroll_until_favourable && !board_has_target(board, valuation)) && !valuation.targets_line(a.line)
}

/// The carve-out's upgrader, when the switch is on and one exists.
pub open spec fn carve_out(board: BoardState, position: Slot, flags: RuleFlags) -> Option<Slot> {
    if flags.r4_keep_upgrade_targets {
        live_target_spec(board, position)
    } else {
        None
    }
}

/// The veto byte and the last tie-break byte: the reroll switch, else R4
/// and its carve-out.
pub open spec fn tail_bytes(board: BoardState, position: Slot, a: ArchitectChoice, valuation: Valuation, flags: RuleFlags) -> (
    u8,
    u8,
) {
    let speaks = r4_speaks(board, a, valuation, flags);
    let carve = carve_out(board, position, flags);
    let leaves = leaves_pool(board, position, a);
    (
        if speaks && carve is Some && leaves {
            0u8
        } else {
            1u8
        },
        if flags.reroll_until_favourable && !board_has_target(board, valuation) {
            if a.kind == OfferKind::Change {
                1u8
            } else {
                0u8
            }
        } else if speaks && (carve is Some != leaves) {
            1u8
        } else {
            0u8
        },
    )
}

/// The architect key's five bytes.
pub open spec fn arch_bytes(
    board: BoardState,
    position: Slot,
    architect: Option<&ArchitectChoice>,
    valuation: Valuation,
    flags: RuleFlags,
) -> Seq<u8> {
    match architect {
        None => seq![1u8, 0u8, 0u8, 0u8, 0u8],
        Some(a) => {
            let tail = tail_bytes(board, position, *a, valuation, flags);
            seq![
                tail.0,
                if valuation.targets_line(a.line) { 1u8 } else { 0u8 },
                if !board_has_target(board, valuation) && a.line == Line::Upgrade { 1u8 } else { 0u8 },
                if first_supplier(board, slot_index(position), 13) is Some && a.kind == OfferKind::Change { 1u8 } else { 0u8 },
                tail.1,
            ]
        },
    }
}

proof fn lemma_arch_bytes(
    board: BoardState,
    position: Slot,
    a: ArchitectChoice,
    valuation: Valuation,
    flags: RuleFlags,
    b0: u8,
    b1: u8,
    b2: u8,
    b3: u8,
    b4: u8,
)
    requires
        (b0, b4) == tail_bytes(board, position, a, valuation, flags),
        b1 == if valuation.targets_line(a.line) { 1u8 } else { 0u8 },
        b2 == if !board_has_target(board, valuation) && a.line == Line::Upgrade { 1u8 } else { 0u8 },
        b3 == if first_supplier(board, slot_index(position), 13) is Some && a.kind == OfferKind::Change { 1u8 } else { 0u8 },
    ensures
        arch_bytes(board, position, Some(&a), valuation, flags) == seq![b0, b1, b2, b3, b4],
{
}

/// A reason when `cond` holds, nothing otherwise.
pub open spec fn reason_if(cond: bool, r: Reason) -> Seq<Reason> {
    if cond {
        seq![r]
    } else {
        Seq::empty()
    }
}

/// The reasons the architect rules give, in the order they are checked.
pub open spec fn arch_reasons(
    board: BoardState,
    position: Slot,
    architect: Option<&ArchitectChoice>,
    valuation: Valuation,
    flags: RuleFlags,
) -> Seq<Reason> {
    match architect {
        None => Seq::empty(),
        Some(a) => head_reasons(board, position, *a, valuation) + tail_reasons(board, position, *a, valuation, flags),
    }
}

/// The last reasons of the architect rules: the reroll switch, else R4 and
/// its carve-out.
pub open spec fn tail_reasons(
    board: BoardState,
    position: Slot,
    a: ArchitectChoice,
    valuation: Valuation,
    flags: RuleFlags,
) -> Seq<Reason> {
    if flags.reroll_until_favourable && !board_has_target(board, valuation) {
        reason_if(a.kind == OfferKind::Change, Reason::RerollUntilFavourable)
    } else if !valuation.targets_line(a.line) {
        match carve_out(board, position, flags) {
            Some(u) => if leaves_pool(board, position, a) {
                seq![Reason::R4CarveOutVeto { upgrader: u }]
            } else {
                seq![Reason::R4PoolCarveOut { upgrader: u }]
            },
            None => reason_if(leaves_pool(board, position, a), Reason::R4),
        }
    } else {
        Seq::empty()
    }
}

/// RC, RT, R4 and the reroll switch, in that order of precedence: the
/// architect key, with the reasons appended.
fn architect_rules(
    board: &BoardState,
    position: Slot,
    architect: Option<&ArchitectChoice>,
    valuation: &Valuation,
    flags: &RuleFlags,
    reasons: &mut Vec<Reason>,
) -> (r: [u8; 5])
    ensures
        r@ == arch_bytes(*board, position, architect, *valuation, *flags),
        final(reasons)@ == old(reasons)@ + arch_reasons(*board, position, architect, *valuation, *flags),
{
    let a = match architect {
        Some(a) => a,
        None => {
            let key: [u8; 5] = [1, 0, 0, 0, 0];
            assert(key@ =~= seq![1u8, 0u8, 0u8, 0u8, 0u8]);
            assert(reasons@ =~= old(reasons)@ + Seq::<Reason>::empty());
            return key;
        },
    };
    let (b1, b2, b3) = head_rules(board, position, a, valuation, reasons);
    let ghost mid = reasons@;
    let advances = b1 == 1;
    let found = has_target_room(board, valuation);
    let (b0, b4) = tail_rules(board, position, a, valuation, flags, found, advances, reasons);
    let key: [u8; 5] = [b0, b1, b2, b3, b4];
    proof {
        assert(reasons@ =~= old(reasons)@ + arch_reasons(*board, position, architect, *valuation, *flags));
        assert(key@ == arch_bytes(*board, position, architect, *valuation, *flags)) by {
            assert(key@ =~= seq![b0, b1, b2, b3, b4]);
            lemma_arch_bytes(*board, position, *a, *valuation, *flags, b0, b1, b2, b3, b4);
        }
    }
    key
}

/// The reasons the architect rules give before the reroll switch and R4.
pub open spec fn head_reasons(board: BoardState, position: Slot, a: ArchitectChoice, valuation: Valuation) -> Seq<Reason> {
    let up = first_supplier(board, slot_index(position), 13);
    reason_if(valuation.targets_line(a.line), Reason::AdvancesTarget { line: a.line }) + reason_if(
        !board_has_target(board, valuation) && a.line == Line::Upgrade,
        Reason::Rt,
    ) + reason_if(up is Some && a.kind == OfferKind::Change, Reason::Rc { upgrader: up.unwrap() })
}

/// Advances a target, RT and RC: bytes 1 to 3, with their reasons appended.
fn head_rules(
    board: &BoardState,
    position: Slot,
    a: &ArchitectChoice,
    valuation: &Valuation,
    reasons: &mut Vec<Reason>,
) -> (r: (u8, u8, u8))
    ensures
        r.0 == if valuation.targets_line(a.line) { 1u8 } else { 0u8 },
        r.1 == if !board_has_target(*board, *valuation) && a.line == Line::Upgrade { 1u8 } else { 0u8 },
        r.2 == if first_supplier(*board, slot_index(position), 13) is Some && a.kind == OfferKind::Change { 1u8 } else { 0u8 },
        final(reasons)@ == old(reasons)@ + head_reasons(*board, position, *a, *valuation),
{
    let ghost start = reasons@;
    let advances = valuation.is_target(valuation.tag(a.line));
    let b1: u8 = if advances { 1 } else { 0 };
    if advances {
        reasons.push(Reason::AdvancesTarget { line: a.line });
    }
    let ghost r1 = reasons@;
    let found = has_target_room(board, valuation);
    let b2: u8 = if !found && a.line == Line::Upgrade { 1 } else { 0 };
    if !found && a.line == Line::Upgrade {
        reasons.push(Reason::Rt);
    }
    let ghost r2 = reasons@;
    let upgrader = neighbouring_upgrader(board, position);
    let mut b3: u8 = 0;
    match upgrader {
        Some(u) => {
            if a.kind == OfferKind::Change {
                b3 = 1;
                reasons.push(Reason::Rc { upgrader: u });
            }
        },
        None => {},
    }
    proof {
        let adv = reason_if(valuation.targets_line(a.line), Reason::AdvancesTarget { line: a.line });
        let rt = reason_if(!found && a.line == Line::Upgrade, Reason::Rt);
        let up = first_supplier(*board, slot_index(position), 13);
        let rc = reason_if(up is Some && a.kind == OfferKind::Change, Reason::Rc { upgrader: up.unwrap() });
        assert(r1 =~= start + adv);
        assert(r2 =~= r1 + rt);
        assert(reasons@ =~= r2 + rc);
        assert(reasons@ =~= start + (adv + rt + rc));
    }
    (b1, b2, b3)
}

/// The reroll switch, else R4 and its carve-out: the veto byte and the last
/// tie-break byte, with their reasons appended.
fn tail_rules(
    board: &BoardState,
    position: Slot,
    a: &ArchitectChoice,
    valuation: &Valuation,
    flags: &RuleFlags,
    found: bool,
    advances: bool,
    reasons: &mut Vec<Reason>,
) -> (r: (u8, u8))
    requires
        found == board_has_target(*board, *valuation),
        advances == valuation.targets_line(a.line),
    ensures
        r == tail_bytes(*board, position, *a, *valuation, *flags),
        final(reasons)@ == old(reasons)@ + tail_reasons(*board, position, *a, *valuation, *flags),
{
    if flags.reroll_until_favourable && !found {
        if a.kind == OfferKind::Change {
            reasons.push(Reason::RerollUntilFavourable);
            return (1, 1);
        }
        assert(reasons@ =~= old(reasons)@ + Seq::<Reason>::empty());
        return (1, 0);
    }
    if advances {
        assert(reasons@ =~= old(reasons)@ + Seq::<Reason>::empty());
        return (1, 0);
    }
    let leaves = a.built_tier == Tier::T3 || (a.kind == OfferKind::Upgrade && board.tier(position) != Tier::T0);
    assert(leaves == leaves_pool(*board, position, *a));
    let carve = if flags.r4_keep_upgrade_targets {
        live_upgrade_target(board, position)
    } else {
        None
    };
    match carve {
        Some(u) => {
            if leaves {
                reasons.push(Reason::R4CarveOutVeto { upgrader: u });
                (0, 0)
            } else {
                reasons.push(Reason::R4PoolCarveOut { upgrader: u });
                (1, 1)
            }
        },
        None => {
            if leaves {
                reasons.push(Reason::R4);
                (1, 1)
            } else {
                assert(reasons@ =~= old(reasons)@ + Seq::<Reason>::empty());
                (1, 0)
            }
        },
    }
}


/// RU on the option that opens the corridors `es`.
pub open spec fn ru_of_set(board: BoardState, position: Slot, architect: Option<&ArchitectChoice>, es: Seq<Edge>) -> Option<Reason> {
    ru_after(board, position, architect, |i: int, j: int| edges_join(es, i, j))
}

/// The index of the first non-empty set below `k`.
pub open spec fn first_spendable(sets: Seq<Seq<Edge>>, k: int) -> Option<int>
    decreases k,
{
    if k <= 0 {
        None
    } else {
        let prev = first_spendable(sets, k - 1);
        if prev is Some {
            prev
        } else if sets[k - 1].len() > 0 {
            Some(k - 1)
        } else {
            None
        }
    }
}

/// The upgrade room an RU reason names.
pub open spec fn ru_slot(r: Option<Reason>) -> Option<Slot> {
    match r {
        Some(Reason::Ru { slot, .. }) => Some(slot),
        _ => None,
    }
}

/// Why an option opens nothing: no key fell; a key fell but no corridor is
/// worth one; or RU declines every corridor a key could buy, named after the
/// room the first of them would dilute. `None` when some corridor is clean.
pub open spec fn empty_reason_spec(board: BoardState, position: Slot, architect: Option<&ArchitectChoice>, keys: u8) -> Option<
    Reason,
> {
    if keys == 0 {
        Some(Reason::ZeroKey)
    } else {
        let sets = door_sets_spec(board, position, keys);
        match first_spendable(sets, sets.len() as int) {
            None => Some(Reason::NoUsableDoor),
            Some(f) => if exists|k: int|
                0 <= k < sets.len() && (#[trigger] sets[k]).len() > 0 && ru_of_set(board, position, architect, sets[k]) is None {
                None
            } else {
                match ru_slot(ru_of_set(board, position, architect, sets[f])) {
                    Some(slot) => Some(Reason::RuDeclined { slot }),
                    None => None,
                }
            },
        }
    }
}

proof fn lemma_first_spendable_stays(sets: Seq<Seq<Edge>>, k: int, m: int)
    requires
        first_spendable(sets, k) is Some,
        k <= m,
    ensures
        first_spendable(sets, m) == first_spendable(sets, k),
    decreases m - k,
{
    if k < m {
        lemma_first_spendable_stays(sets, k, m - 1);
    }
}

proof fn lemma_first_spendable_is(sets: Seq<Seq<Edge>>, k: int)
    ensures
        first_spendable(sets, k) is None ==> forall|q: int| 0 <= q < k ==> (#[trigger] sets[q]).len() == 0,
        first_spendable(sets, k) matches Some(f) ==> 0 <= f < k && sets[f].len() > 0,
    decreases k,
{
    if k > 0 {
        lemma_first_spendable_is(sets, k - 1);
    }
}

/// The RU reason for one spendable door set, as the spec names it.
pub(crate) fn ru_for_set(
    board: &BoardState,
    position: Slot,
    architect: Option<&ArchitectChoice>,
    d: &DoorSet,
    es: Ghost<Seq<Edge>>,
) -> (r: Option<Reason>)
    requires
        holds_exactly(*d, es@),
    ensures
        r == ru_of_set(*board, position, architect, es@),
{
    let after = applied(board, position, architect, d);
    let r = ru_scan_slots(board, &after);
    proof {
        lemma_exact_joins(*d, es@);
        let f1 = |i: int, j: int| crate::state::door_open(*d, i, j);
        let f2 = |i: int, j: int| edges_join(es@, i, j);
        assert(f1 =~= f2);
    }
    r
}

/// Why this option opens nothing: three different facts, and the overlay
/// must not print "no key dropped" for the other two.
fn empty_set_reason(board: &BoardState, position: Slot, architect: Option<&ArchitectChoice>, keys: u8) -> (r: Option<Reason>)
    ensures
        r == empty_reason_spec(*board, position, architect, keys),
{
    if keys == 0 {
        return Some(Reason::ZeroKey);
    }
    let sets = door_sets(board, position, keys);
    let ghost spec_sets = door_sets_spec(*board, position, keys);
    let mut declined: Option<Slot> = None;
    let mut k: usize = 0;
    while k < sets.len()
        invariant
            keys > 0,
            k <= sets@.len(),
            spec_sets == door_sets_spec(*board, position, keys),
            sets@.len() == spec_sets.len(),
            forall|q: int| 0 <= q < sets@.len() ==> holds_exactly(#[trigger] sets@[q], spec_sets[q]),
            forall|q: int|
                0 <= q < k ==> !((#[trigger] spec_sets[q]).len() > 0 && ru_of_set(*board, position, architect, spec_sets[q]) is None),
            match first_spendable(spec_sets, k as int) {
                None => declined is None,
                Some(f) => declined == ru_slot(ru_of_set(*board, position, architect, spec_sets[f])) && declined is Some,
            },
        decreases sets@.len() - k,
    {
        proof {
            lemma_exact_joins(sets@[k as int], spec_sets[k as int]);
        }
        if !sets[k].is_empty() {
            let ru = ru_for_set(board, position, architect, &sets[k], Ghost(spec_sets[k as int]));
            proof {
                lemma_first_spendable_is(spec_sets, k as int);
            }
            match ru {
                Some(Reason::Ru { slot, .. }) => {
                    if declined.is_none() {
                        declined = Some(slot);
                    }
                    proof {
                        if first_spendable(spec_sets, k as int) is Some {
                            lemma_first_spendable_stays(spec_sets, k as int, k + 1);
                        }
                    }
                },
                _ => {
                    proof {
                        let q = k as int;
                        assert(spec_sets[q].len() > 0 && ru_of_set(*board, position, architect, spec_sets[q]) is None) by {
                            crate::rules::lemma_ru_scan_only_ru(*board, position, architect, spec_sets[q]);
                        }
                    }
                    return None;
                },
            }
        } else {
            proof {
                if first_spendable(spec_sets, k as int) is Some {
                    lemma_first_spendable_stays(spec_sets, k as int, k + 1);
                }
            }
        }
        k += 1;
    }
    proof {
        lemma_first_spendable_is(spec_sets, spec_sets.len() as int);
    }
    match declined {
        Some(slot) => Some(Reason::RuDeclined { slot }),
        None => Some(Reason::NoUsableDoor),
    }
}

/// RU only ever names an upgrade room.
proof fn lemma_ru_scan_only_ru(board: BoardState, position: Slot, architect: Option<&ArchitectChoice>, es: Seq<Edge>)
    ensures
        ru_of_set(board, position, architect, es) is None || ru_of_set(board, position, architect, es) matches Some(
            Reason::Ru { .. },
        ),
{
    lemma_ru_scan_shape(
        board.open(),
        joint_table(board.doors, |i: int, j: int| edges_join(es, i, j)),
        applied_rooms(board, position, architect),
        13,
    );
}

proof fn lemma_ru_scan_shape(before_open: Seq<u16>, after_open: Seq<u16>, rooms: Seq<crate::state::Room>, k: int)
    ensures
        ru_scan(before_open, after_open, rooms, k) is None || ru_scan(before_open, after_open, rooms, k) matches Some(
            Reason::Ru { .. },
        ),
    decreases k,
{
    if k > 0 {
        lemma_ru_scan_shape(before_open, after_open, rooms, k - 1);
    }
}


/// The end of `e` that is not `from`; the lower end when `e` does not touch
/// `from`.
pub open spec fn far_slot(e: Edge, from: Slot) -> Slot {
    if e.lo_end() == from {
        e.hi_end()
    } else {
        e.lo_end()
    }
}

/// How many of the first `k` corridors lead to the Apex, B0 or B1.
pub open spec fn apex_doors(es: Seq<Edge>, from: Slot, k: int) -> nat
    decreases k,
{
    if k <= 0 {
        0
    } else {
        apex_doors(es, from, k - 1) + if apex_side(slot_index(far_slot(es[k - 1], from))) {
            1nat
        } else {
            0nat
        }
    }
}

/// R2's total: for each of the first `k` corridors in turn, the sizes of the
/// two components it joins, with the earlier corridors already open.
pub open spec fn r2_sum(open: Seq<u16>, es: Seq<Edge>, k: int) -> nat
    decreases k,
{
    if k <= 0 {
        0
    } else {
        let t = opened_by(open, es, k - 1);
        let (a, b) = edge_pair(es[k - 1]);
        r2_sum(open, es, k - 1) + popcount(closure(t, single(a))) + popcount(closure(t, single(b)))
    }
}

/// The best (lowest) row the far ends of the first `k` corridors reach; 255
/// for none.
pub open spec fn best_row_of(es: Seq<Edge>, from: Slot, k: int) -> int
    decreases k,
{
    if k <= 0 {
        255
    } else {
        let prev = best_row_of(es, from, k - 1);
        let row = slot_row(far_slot(es[k - 1], from));
        if row < prev {
            row
        } else {
            prev
        }
    }
}

/// The smallest lattice degree among the far ends of the first `k`
/// corridors; `usize::MAX` for none.
pub open spec fn scarcest_of(es: Seq<Edge>, from: Slot, k: int) -> int
    decreases k,
{
    if k <= 0 {
        usize::MAX as int
    } else {
        let prev = scarcest_of(es, from, k - 1);
        let degree = popcount(lattice_table()[slot_index(far_slot(es[k - 1], from))]) as int;
        if degree < prev {
            degree
        } else {
            prev
        }
    }
}

/// Whether a door set opens nothing.
pub open spec fn opens_nothing(doors: DoorSet) -> bool {
    forall|i: int, j: int| !#[trigger] doors.holds_pair(i, j)
}

/// RU's verdict on the option.
pub open spec fn ru_spec(board: BoardState, position: Slot, architect: Option<&ArchitectChoice>, doors: DoorSet) -> Option<Reason> {
    if opens_nothing(doors) {
        None
    } else {
        ru_after(board, position, architect, |i: int, j: int| crate::state::door_open(doors, i, j))
    }
}

/// The door half of the chain for one option.
pub open spec fn door_key_spec(
    board: BoardState,
    position: Slot,
    architect: Option<&ArchitectChoice>,
    doors: DoorSet,
    valuation: Valuation,
) -> DoorKey {
    let es = edge_list(doors);
    let n = es.len() as int;
    let open = board.open();
    DoorKey {
        connects_value: gained_targets(
            board.rooms@,
            closure(open, single(11)),
            closure(with_doors(open, doors), single(11)),
            valuation,
            13,
        ) as u8,
        ru_ok: if ru_spec(board, position, architect, doors) is None {
            1u8
        } else {
            0u8
        },
        r1_apex: apex_doors(es, position, n) as u8,
        opens: doors.size() as u8,
        r2: -(r2_sum(open, es, n) as int) as i32,
        r1_gradient: if opens_nothing(doors) {
            0i32
        } else {
            -best_row_of(es, position, n) as i32
        },
        rs: if opens_nothing(doors) {
            0i32
        } else {
            -scarcest_of(es, position, n) as i32
        },
    }
}

/// The reasons the door half gives, in order.
pub open spec fn door_reasons(
    board: BoardState,
    position: Slot,
    architect: Option<&ArchitectChoice>,
    doors: DoorSet,
    keys: u8,
    valuation: Valuation,
) -> Seq<Reason> {
    let es = edge_list(doors);
    let n = es.len() as int;
    let key = door_key_spec(board, position, architect, doors, valuation);
    reason_if(key.connects_value > 0, Reason::RvMerge { rooms: key.connects_value as usize }) + reason_if(
        key.r1_apex > 0,
        Reason::R1Apex,
    ) + if !opens_nothing(doors) {
        seq![
            Reason::Rd,
            Reason::R2 { joined: r2_sum(board.open(), es, n) as usize },
            Reason::R1Gradient { row: best_row_of(es, position, n) as u8 },
            Reason::Rs { degree: scarcest_of(es, position, n) as usize },
        ]
    } else {
        match empty_reason_spec(board, position, architect, keys) {
            Some(r) => seq![r],
            None => Seq::empty(),
        }
    } + match ru_spec(board, position, architect, doors) {
        Some(r) => seq![r],
        None => Seq::empty(),
    }
}

/// The door half's counts for a door set, opened in board order, and the
/// table with every door open.
fn door_half(open: &[SlotMask; 13], doors: &DoorSet, position: Slot) -> (r: (u8, u32, u8, usize, [SlotMask; 13]))
    ensures
        ({
            let es = edge_list(*doors);
            let n = es.len() as int;
            &&& r.0 == apex_doors(es, position, n)
            &&& r.1 == r2_sum(open@, es, n)
            &&& r.1 <= 32 * 169
            &&& r.2 == best_row_of(es, position, n)
            &&& r.3 == scarcest_of(es, position, n)
            &&& n > 0 ==> r.2 <= 4 && r.3 <= 16
            &&& r.4@ == with_doors(open@, *doors)
        }),
{
    let es = doors.edges();
    let mut r1_apex: u8 = 0;
    let mut r2_total: u32 = 0;
    let mut best_row: u8 = 255;
    let mut scarcest: usize = usize::MAX;
    let mut trial = *open;
    let mut k: usize = 0;
    while k < es.len()
        invariant
            k <= es@.len(),
            es@ == edge_list(*doors),
            es@.len() <= 169,
            trial@ == opened_by(open@, es@, k as int),
            r1_apex == apex_doors(es@, position, k as int),
            r1_apex <= k,
            r2_total == r2_sum(open@, es@, k as int),
            r2_total <= 32 * k,
            best_row == best_row_of(es@, position, k as int),
            scarcest == scarcest_of(es@, position, k as int),
            k > 0 ==> best_row <= 4 && scarcest <= 16,
        decreases es@.len() - k,
    {
        let e = es[k];
        let (a, b) = e.ends();
        let far = far_end(e, position);
        if reaches_apex(far) {
            r1_apex = r1_apex + 1;
        }
        let ca = mask_count(component(&trial, a));
        let cb = mask_count(component(&trial, b));
        r2_total = r2_total + ca + cb;
        open_between(&mut trial, a.index(), b.index());
        let row = far.row();
        if row < best_row {
            best_row = row;
        }
        let degree = crate::state::lattice_degree(far);
        if degree < scarcest {
            scarcest = degree;
        }
        k += 1;
    }
    (r1_apex, r2_total, best_row, scarcest, trial)
}

/// Score one option against the whole chain: the door key, the architect key,
/// and every rule that fired. `keys` tells apart the three reasons an empty
/// door set can have.
pub fn evaluate_rules(
    board: &BoardState,
    position: Slot,
    architect: Option<&ArchitectChoice>,
    doors: &DoorSet,
    keys: u8,
    flags: &RuleFlags,
    valuation: &Valuation,
) -> (r: RuleVerdict)
    ensures
        r.door == door_key_spec(*board, position, architect, *doors, *valuation),
        r.architect.0@ == arch_bytes(*board, position, architect, *valuation, *flags),
        r.reasons@ == door_reasons(*board, position, architect, *doors, keys, *valuation) + arch_reasons(
            *board,
            position,
            architect,
            *valuation,
            *flags,
        ),
{
    let mut reasons: Vec<Reason> = Vec::new();
    let open = board.adjacency();
    let (r1_apex, r2_total, best_row, scarcest, trial) = door_half(&open, doors, position);
    let connects_value = newly_connected_targets(board, &open, &trial, valuation);
    if connects_value > 0 {
        reasons.push(Reason::RvMerge { rooms: connects_value as usize });
    }
    if r1_apex > 0 {
        reasons.push(Reason::R1Apex);
    }
    let empty = doors.is_empty();
    proof {
        doors.lemma_edge_list_exact();
    }
    if !empty {
        reasons.push(Reason::Rd);
        reasons.push(Reason::R2 { joined: r2_total as usize });
        reasons.push(Reason::R1Gradient { row: best_row });
        reasons.push(Reason::Rs { degree: scarcest });
    } else {
        match empty_set_reason(board, position, architect, keys) {
            Some(reason) => reasons.push(reason),
            None => {},
        }
    }
    let after = applied(board, position, architect, doors);
    let ru = ru_violation(board, &after, doors);
    match ru {
        Some(reason) => reasons.push(reason),
        None => {},
    }
    let ghost door_part = reasons@;
    let architect_key = architect_rules(board, position, architect, valuation, flags, &mut reasons);
    let opens = doors.len() as u8;
    let door = DoorKey {
        connects_value,
        ru_ok: if ru.is_none() { 1 } else { 0 },
        r1_apex,
        opens,
        r2: -(r2_total as i32),
        r1_gradient: if empty { 0 } else { -(best_row as i32) },
        rs: if empty { 0 } else { -(scarcest as i32) },
    };
    proof {
        assert(door_part =~= door_reasons(*board, position, architect, *doors, keys, *valuation));
    }
    RuleVerdict { door, architect: ArchKey(architect_key), reasons }
}


/// The decimal spelling of a digit.
pub open spec fn digit_text(d: nat) -> Seq<char> {
    if d == 0 {
        "0"@
    } else if d == 1 {
        "1"@
    } else if d == 2 {
        "2"@
    } else if d == 3 {
        "3"@
    } else if d == 4 {
        "4"@
    } else if d == 5 {
        "5"@
    } else if d == 6 {
        "6"@
    } else if d == 7 {
        "7"@
    } else if d == 8 {
        "8"@
    } else {
        "9"@
    }
}

/// The decimal spelling of a number, most significant digit first.
pub open spec fn decimal(n: nat) -> Seq<char>
    decreases n,
{
    if n < 10 {
        digit_text(n)
    } else {
        decimal(n / 10) + digit_text(n % 10)
    }
}

/// Each digit is spelled by one character of its own: `'0'` and up.
proof fn lemma_digit_text(d: nat)
    requires
        d < 10,
    ensures
        digit_text(d).len() == 1,
        digit_text(d)[0] as int == 48 + d,
{
    if d == 0 {
        reveal_strlit("0");
    } else if d == 1 {
        reveal_strlit("1");
    } else if d == 2 {
        reveal_strlit("2");
    } else if d == 3 {
        reveal_strlit("3");
    } else if d == 4 {
        reveal_strlit("4");
    } else if d == 5 {
        reveal_strlit("5");
    } else if d == 6 {
        reveal_strlit("6");
    } else if d == 7 {
        reveal_strlit("7");
    } else if d == 8 {
        reveal_strlit("8");
    } else {
        reveal_strlit("9");
    }
}

/// A number of two digits or more is spelled with at least two characters.
proof fn lemma_decimal_len(n: nat)
    ensures
        decimal(n).len() >= 1,
        n >= 10 ==> decimal(n).len() >= 2,
    decreases n,
{
    lemma_digit_text(n % 10);
    if n >= 10 {
        lemma_decimal_len(n / 10);
    }
}

/// Two different numbers are spelled differently.
pub proof fn lemma_decimal_injective(a: nat, b: nat)
    requires
        a != b,
    ensures
        decimal(a) != decimal(b),
    decreases a,
{
    lemma_decimal_len(a);
    lemma_decimal_len(b);
    lemma_digit_text(a % 10);
    lemma_digit_text(b % 10);
    let (x, y) = (decimal(a), decimal(b));
    if x == y {
        if a < 10 && b < 10 {
            assert(x[0] == y[0]);
        } else if a >= 10 && b >= 10 {
            let n = x.len();
            assert(x[n - 1] == digit_text(a % 10)[0]);
            assert(y[n - 1] == digit_text(b % 10)[0]);
            assert(a % 10 == b % 10);
            assert(decimal(a / 10) =~= x.subrange(0, n - 1));
            assert(decimal(b / 10) =~= y.subrange(0, n - 1));
            if a / 10 != b / 10 {
                lemma_decimal_injective(a / 10, b / 10);
            }
            assert(a == 10 * (a / 10) + a % 10);
            assert(b == 10 * (b / 10) + b % 10);
        }
    }
}

fn digit_str(d: usize) -> (r: &'static str)
    requires
        d < 10,
    ensures
        r@ == digit_text(d as nat),
{
    match d {
        0 => "0",
        1 => "1",
        2 => "2",
        3 => "3",
        4 => "4",
        5 => "5",
        6 => "6",
        7 => "7",
        8 => "8",
        _ => "9",
    }
}

/// Append the decimal spelling of `n`.
pub(crate) fn push_decimal(out: &mut String, n: u64)
    ensures
        final(out)@ == old(out)@ + decimal(n as nat),
    decreases n,
{
    if n >= 10 {
        push_decimal(out, n / 10);
        out.append(digit_str((n % 10) as usize));
        proof {
            assert(final(out)@ =~= old(out)@ + decimal(n as nat));
        }
    } else {
        out.append(digit_str(n as usize));
    }
}

/// Append one character; the standard library's `String::push`.
#[verifier::external_body]
fn push_char(out: &mut String, c: char)
    ensures
        final(out)@ == old(out)@.push(c),
{
    out.push(c);
}

/// A hop count as the overlay prints it: the number, or `∞` for no path.
pub open spec fn hops_text(hops: Option<usize>) -> Seq<char> {
    match hops {
        Some(n) => decimal(n as nat),
        None => "∞"@,
    }
}

/// The hop count as the overlay prints it.
fn describe_hops(hops: Option<usize>) -> (r: String)
    ensures
        r@ == hops_text(hops),
{
    match hops {
        Some(n) => {
            let mut out = String::new();
            push_decimal(&mut out, n as u64);
            assert(out@ =~= decimal(n as nat));
            out
        },
        None => String::from_str("∞"),
    }
}

/// The letter of a board row: `A` for row 0.
pub open spec fn row_letter(row: u8) -> char {
    (65 + row) as char
}

/// The one line the overlay prints for a reason.
pub open spec fn reason_text(r: Reason) -> Seq<char> {
    match r {
        Reason::Rv { line, before, after } => "RV: connects the "@ + line_key(line) + " room toward the Entrance ("@
            + hops_text(before) + " → "@ + hops_text(after) + " hops)"@,
        Reason::RvGamble { line, hops } => "RV gamble: leaves the "@ + line_key(line) + " room "@ + match hops {
            Some(n) => decimal(n as nat) + " hops"@,
            None => "unreachable"@,
        } + " from the Entrance"@,
        Reason::RvMerge { rooms } => "RV: connects "@ + decimal(rooms as nat) + " target-line room(s) to the Entrance"@,
        Reason::R1Apex => "R1: reaches the Apex or an Apex-adjacent slot — only B0/B1 can ever open the Apex"@,
        Reason::R2 { joined } => "R2: merges the smallest clusters ("@ + decimal(joined as nat) + " rooms)"@,
        Reason::R1Gradient { row } => "R1: connects upward, to row "@.push(row_letter(row)),
        Reason::Rs { degree } => "RS: connects the scarcer slot ("@ + decimal(degree as nat) + " lattice neighbours)"@,
        Reason::Ru { slot, targets, connected } => "RU: would dilute "@ + slot_name(slot) + " — "@ + decimal(
            targets as nat,
        ) + " picks over "@ + decimal(connected as nat) + " connected neighbours"@,
        Reason::Rd => "RD: an open room pays, and the chance may not come again"@,
        Reason::Rc { upgrader } => "RC: "@ + slot_name(upgrader) + " supplies the tier, so spend the architect on the line"@,
        Reason::Rt => "RT: no valuable room on the board yet, so take the upgrade line"@,
        Reason::R4 => "R4: maxes a junk room out of the drop pool"@,
        Reason::R4PoolCarveOut { upgrader } => "R4 carve-out: stays in the pool as a live target of "@ + slot_name(
            upgrader,
        ),
        Reason::R4CarveOutVeto { upgrader } => "R4 carve-out: maxing this room would cost "@ + slot_name(upgrader)
            + " its only live target"@,
        Reason::RerollUntilFavourable => "no favourable line on the board, so change rather than upgrade junk"@,
        Reason::AdvancesTarget { line } => "advances the "@ + line_key(line) + " line"@,
        Reason::ZeroKey => "no key dropped — there is no passage to buy"@,
        Reason::NoUsableDoor =>
            "no corridor left worth a key — every closed one leads back into this room's own cluster"@,
        Reason::RuDeclined { slot } => "RU: every corridor a key could buy would dilute "@ + slot_name(slot)
            + ", so open nothing"@,
        Reason::ExpectedValue => "ranked on expected value; no rule discriminated"@,
    }
}

impl Reason {
    /// One short line for the overlay: a bare score cannot be audited.
    pub fn describe(&self) -> (r: String)
        requires
            self matches Reason::R1Gradient { row } ==> row <= 190,
        ensures
            r@ == reason_text(*self),
    {
        match *self {
            Reason::Rv { line, before, after } => {
                let mut out = String::from_str("RV: connects the ");
                out.append(line.key());
                out.append(" room toward the Entrance (");
                out.append(describe_hops(before).as_str());
                out.append(" → ");
                out.append(describe_hops(after).as_str());
                out.append(" hops)");
                out
            },
            Reason::RvGamble { line, hops } => {
                let mut out = String::from_str("RV gamble: leaves the ");
                out.append(line.key());
                out.append(" room ");
                match hops {
                    Some(n) => {
                        push_decimal(&mut out, n as u64);
                        out.append(" hops");
                    },
                    None => {
                        out.append("unreachable");
                    },
                }
                out.append(" from the Entrance");
                proof {
                    assert(out@ =~= reason_text(*self));
                }
                out
            },
            Reason::RvMerge { rooms } => {
                let mut out = String::from_str("RV: connects ");
                push_decimal(&mut out, rooms as u64);
                out.append(" target-line room(s) to the Entrance");
                out
            },
            Reason::R1Apex => String::from_str(
                "R1: reaches the Apex or an Apex-adjacent slot — only B0/B1 can ever open the Apex",
            ),
            Reason::R2 { joined } => {
                let mut out = String::from_str("R2: merges the smallest clusters (");
                push_decimal(&mut out, joined as u64);
                out.append(" rooms)");
                out
            },
            Reason::R1Gradient { row } => {
                let mut out = String::from_str("R1: connects upward, to row ");
                push_char(&mut out, (65u8 + row) as char);
                out
            },
            Reason::Rs { degree } => {
                let mut out = String::from_str("RS: connects the scarcer slot (");
                push_decimal(&mut out, degree as u64);
                out.append(" lattice neighbours)");
                out
            },
            Reason::Ru { slot, targets, connected } => {
                let mut out = String::from_str("RU: would dilute ");
                out.append(slot.as_str());
                out.append(" — ");
                push_decimal(&mut out, targets as u64);
                out.append(" picks over ");
                push_decimal(&mut out, connected as u64);
                out.append(" connected neighbours");
                out
            },
            Reason::Rd => String::from_str("RD: an open room pays, and the chance may not come again"),
            Reason::Rc { upgrader } => {
                let mut out = String::from_str("RC: ");
                out.append(upgrader.as_str());
                out.append(" supplies the tier, so spend the architect on the line");
                out
            },
            Reason::Rt => String::from_str("RT: no valuable room on the board yet, so take the upgrade line"),
            Reason::R4 => String::from_str("R4: maxes a junk room out of the drop pool"),
            Reason::R4PoolCarveOut { upgrader } => {
                let mut out = String::from_str("R4 carve-out: stays in the pool as a live target of ");
                out.append(upgrader.as_str());
                out
            },
            Reason::R4CarveOutVeto { upgrader } => {
                let mut out = String::from_str("R4 carve-out: maxing this room would cost ");
                out.append(upgrader.as_str());
                out.append(" its only live target");
                out
            },
            Reason::RerollUntilFavourable => String::from_str(
                "no favourable line on the board, so change rather than upgrade junk",
            ),
            Reason::AdvancesTarget { line } => {
                let mut out = String::from_str("advances the ");
                out.append(line.key());
                out.append(" line");
                out
            },
            Reason::ZeroKey => String::from_str("no key dropped — there is no passage to buy"),
            Reason::NoUsableDoor => String::from_str(
                "no corridor left worth a key — every closed one leads back into this room's own cluster",
            ),
            Reason::RuDeclined { slot } => {
                let mut out = String::from_str("RU: every corridor a key could buy would dilute ");
                out.append(slot.as_str());
                out.append(", so open nothing");
                out
            },
            Reason::ExpectedValue => String::from_str("ranked on expected value; no rule discriminated"),
        }
    }
}


/// Whether `e` is a closed lattice corridor out of `pos` whose far end lies
/// outside `pos`'s own component: a corridor a key buys a merge with.
pub open spec fn useful_corridor(board: BoardState, pos: Slot, e: Edge) -> bool {
    exists|j: int|
        0 <= j < 13 && e == crate::lattice::edge_between(slot_index(pos), j) && lattice_adjacent(slot_index(pos), j)
            && !crate::state::door_open(board.doors, slot_index(pos), j) && !holds(
            closure(board.open(), single(slot_index(pos))),
            j,
        )
}

/// Every corridor the useful scan lists is useful.
proof fn lemma_useful_scan_members(board: BoardState, pos: Slot, k: int)
    requires
        k <= 13,
    ensures
        forall|q: int| 0 <= q < useful_scan(board, pos, k).len() ==> useful_corridor(board, pos, #[trigger] useful_scan(board, pos, k)[q]),
    decreases k,
{
    if k > 0 {
        lemma_useful_scan_members(board, pos, k - 1);
        let prev = useful_scan(board, pos, k - 1);
        let now = useful_scan(board, pos, k);
        assert forall|q: int| 0 <= q < now.len() implies useful_corridor(board, pos, #[trigger] now[q]) by {
            if q < prev.len() {
                assert(now[q] == prev[q]);
            } else {
                assert(now[q] == crate::lattice::edge_between(slot_index(pos), k - 1));
            }
        }
    }
}

/// The shape of one candidate's pairs: each is that candidate and a later
/// one, never redundant.
proof fn lemma_pairs_from_shape(open: Seq<u16>, pos: Slot, cands: Seq<Edge>, i: int, j: int)
    requires
        0 <= i,
        j <= cands.len(),
    ensures
        forall|q: int|
            0 <= q < pairs_from(open, pos, cands, i, j).len() ==> {
                let set = #[trigger] pairs_from(open, pos, cands, i, j)[q];
                &&& set.len() == 2
                &&& set[0] == cands[i]
                &&& exists|m: int| i < m < j && set[1] == cands[m]
                &&& !redundant(open, pos, set[0], set[1])
            },
    decreases j - i,
{
    if j > i + 1 {
        lemma_pairs_from_shape(open, pos, cands, i, j - 1);
        let prev = pairs_from(open, pos, cands, i, j - 1);
        let now = pairs_from(open, pos, cands, i, j);
        assert forall|q: int| 0 <= q < now.len() implies {
            let set = #[trigger] now[q];
            &&& set.len() == 2
            &&& set[0] == cands[i]
            &&& exists|m: int| i < m < j && set[1] == cands[m]
            &&& !redundant(open, pos, set[0], set[1])
        } by {
            if q < prev.len() {
                assert(now[q] == prev[q]);
                let m = choose|m: int| i < m < j - 1 && prev[q][1] == cands[m];
            } else {
                let set = now[q];
                assert(set == seq![cands[i], cands[j - 1]]);
                assert(set[1] == cands[j - 1]);
            }
        }
    }
}

/// The shape of the sets built from the first `n` candidates.
proof fn lemma_sets_through_shape(open: Seq<u16>, pos: Slot, cands: Seq<Edge>, keys: u8, n: int)
    requires
        0 <= n <= cands.len(),
    ensures
        sets_through(open, pos, cands, keys, n).len() >= 1,
        sets_through(open, pos, cands, keys, n)[0].len() == 0,
        forall|k: int|
            1 <= k < sets_through(open, pos, cands, keys, n).len() ==> {
                let set = #[trigger] sets_through(open, pos, cands, keys, n)[k];
                &&& 1 <= set.len() <= 2
                &&& keys < 2 ==> set.len() == 1
                &&& forall|e: int| 0 <= e < set.len() ==> cands.contains(set[e])
                &&& set.len() == 2 ==> !redundant(open, pos, set[0], set[1])
            },
    decreases n,
{
    if n > 0 {
        lemma_sets_through_shape(open, pos, cands, keys, n - 1);
        let base = sets_through(open, pos, cands, keys, n - 1);
        let ws = base.push(seq![cands[n - 1]]);
        let now = sets_through(open, pos, cands, keys, n);
        lemma_pairs_from_shape(open, pos, cands, n - 1, cands.len() as int);
        let pairs = pairs_from(open, pos, cands, n - 1, cands.len() as int);
        assert forall|k: int| 1 <= k < now.len() implies {
            let set = #[trigger] now[k];
            &&& 1 <= set.len() <= 2
            &&& keys < 2 ==> set.len() == 1
            &&& forall|e: int| 0 <= e < set.len() ==> cands.contains(set[e])
            &&& set.len() == 2 ==> !redundant(open, pos, set[0], set[1])
        } by {
            if k < base.len() {
                assert(now[k] == base[k]);
            } else if k == base.len() {
                assert(now[k] == seq![cands[n - 1]]);
                assert(now[k][0] == cands[n - 1]);
            } else {
                assert(keys >= 2);
                assert(now[k] == pairs[k - ws.len()]);
                let set = pairs[k - ws.len()];
                let m = choose|m: int| n - 1 < m < cands.len() && set[1] == cands[m];
                assert(cands.contains(set[0]));
                assert(cands.contains(set[1]));
            }
        }
        if keys < 2 {
            assert(now[0] == base[0]);
        } else {
            assert(now[0] == base[0]);
        }
    }
}

/// The door sets on offer: opening nothing always comes first and is the only
/// set when no key fell; every other set opens one corridor, or two when two
/// keys fell; each corridor is a closed lattice corridor out of the room whose
/// far end lies outside the room's own component; and a pair never spends its
/// second key on a merge the first already bought.
pub proof fn lemma_door_sets_shape(board: BoardState, pos: Slot, keys: u8)
    ensures
        door_sets_spec(board, pos, keys).len() >= 1,
        door_sets_spec(board, pos, keys)[0].len() == 0,
        keys == 0 ==> door_sets_spec(board, pos, keys).len() == 1,
        forall|k: int|
            1 <= k < door_sets_spec(board, pos, keys).len() ==> {
                let set = #[trigger] door_sets_spec(board, pos, keys)[k];
                &&& 1 <= set.len() <= 2
                &&& keys < 2 ==> set.len() == 1
                &&& set.len() == 2 ==> !redundant(board.open(), pos, set[0], set[1])
                &&& forall|e: int| 0 <= e < set.len() ==> useful_corridor(board, pos, #[trigger] set[e])
            },
{
    if keys > 0 {
        let c = useful_scan(board, pos, 13);
        lemma_sets_through_shape(board.open(), pos, c, keys, c.len() as int);
        lemma_useful_scan_members(board, pos, 13);
        let sets = door_sets_spec(board, pos, keys);
        assert forall|k: int| 1 <= k < sets.len() implies forall|e: int|
            0 <= e < (#[trigger] sets[k]).len() ==> useful_corridor(board, pos, #[trigger] sets[k][e]) by {
            let set = sets[k];
            assert forall|e: int| 0 <= e < set.len() implies useful_corridor(board, pos, #[trigger] set[e]) by {
                assert(c.contains(set[e]));
                let q = choose|q: int| 0 <= q < c.len() && c[q] == set[e];
                assert(useful_corridor(board, pos, c[q]));
            }
        }
    }
}

/// A kill that builds a target line is never vetoed, and neither is the
/// absence of a kill.
pub proof fn lemma_target_kill_never_vetoed(
    board: BoardState,
    position: Slot,
    architect: Option<&ArchitectChoice>,
    valuation: Valuation,
    flags: RuleFlags,
)
    requires
        architect matches Some(a) ==> valuation.targets_line(a.line),
    ensures
        arch_bytes(board, position, architect, valuation, flags)[0] == 1,
{
}

/// R4 and the reroll switch never both speak for one kill.
pub proof fn lemma_r4_and_reroll_exclusive(
    board: BoardState,
    position: Slot,
    a: ArchitectChoice,
    valuation: Valuation,
    flags: RuleFlags,
)
    ensures
        !(tail_reasons(board, position, a, valuation, flags).contains(Reason::R4) && tail_reasons(
            board,
            position,
            a,
            valuation,
            flags,
        ).contains(Reason::RerollUntilFavourable)),
{
    let t = tail_reasons(board, position, a, valuation, flags);
    if t.contains(Reason::R4) && t.contains(Reason::RerollUntilFavourable) {
        let i = choose|i: int| 0 <= i < t.len() && t[i] == Reason::R4;
        let j = choose|j: int| 0 <= j < t.len() && t[j] == Reason::RerollUntilFavourable;
    }
}

/// RU only ever names a Shrine or Sanctum, a tier-1 or tier-2 upgrade room:
/// the Temple Nexus ignores corridors, so nothing dilutes it.
pub proof fn lemma_ru_names_a_shrine(before_open: Seq<u16>, after_open: Seq<u16>, rooms: Seq<crate::state::Room>, k: int)
    requires
        k <= 13,
    ensures
        ru_scan(before_open, after_open, rooms, k) matches Some(Reason::Ru { slot, targets, .. }) ==> {
            let room = rooms[slot_index(slot)];
            &&& room.0 == Some(Line::Upgrade)
            &&& (room.1 == Tier::T1 || room.1 == Tier::T2)
            &&& targets as int == crate::strategy::tier_value(room.1)
        },
    decreases k,
{
    crate::lattice::lemma_slot_index_bijection();
    if k > 0 {
        lemma_ru_names_a_shrine(before_open, after_open, rooms, k - 1);
    }
}

/// RV never leaves the player with nothing to do: among any non-empty list
/// of door sets, one is allowed whatever line the kill builds, because RV
/// only speaks when some set on the list shortens the walk, and that set
/// satisfies it.
pub proof fn lemma_rv_leaves_a_safe_passage(
    board: BoardState,
    position: Slot,
    sets: Seq<DoorSet>,
    valuation: Valuation,
)
    requires
        sets.len() >= 1,
    ensures
        exists|k: int|
            #![trigger sets[k]]
            0 <= k < sets.len() && forall|becomes: Option<Line>|
                !(#[trigger] rv_spec(
                    board,
                    position,
                    becomes,
                    sets[k],
                    valuation,
                    rv_connectable_spec(board, position, sets),
                ) is Gamble),
{
    let connectable = rv_connectable_spec(board, position, sets);
    if connectable {
        let entrance = board.reach();
        let p = slot_index(position);
        let k = choose|k: int|
            0 <= k < sets.len() && shortens_spec(
                hops_value(board.open(), p, entrance),
                hops_value(with_doors(board.open(), #[trigger] sets[k]), p, entrance),
            );
        assert forall|becomes: Option<Line>|
            !(#[trigger] rv_spec(board, position, becomes, sets[k], valuation, connectable) is Gamble) by {}
    } else {
        assert forall|becomes: Option<Line>|
            !(#[trigger] rv_spec(board, position, becomes, sets[0], valuation, connectable) is Gamble) by {}
    }
}

} // verus!
