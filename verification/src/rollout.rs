//! The rollout's board form and its mechanics: the seeded generator, the
//! mapping between lines and compact tags, upgrade resolution, charge
//! relaxed reachability, the drop pool, the kill, the default future-turn
//! door policy and the incursion budget.

use vstd::prelude::*;

use crate::lattice::{slot_index, Slot};
use vstd::array::spec_array_update;
use crate::masks::{bits, holds, lemma_holds_or, mask_bit, mask_count, mask_holds, popcount, SlotMask};
use crate::state::{
    closed_door_distances, closure, component, hop_distances, is_blast_distance, is_hop_distance, mask_of,
    neighbour_masks, reachable, within,
    blast_layer, is_lattice_table, lattice_table, lemma_with_door, single, with_door, BoardState, UNREACHABLE,
};
use crate::strategy::{tier_of, tier_value, Line, Tier};

verus! {

/// Weyl increment of the generator.
pub const GOLDEN: u64 = 0x9E37_79B9_7F4A_7C15;
/// First mixing multiplier.
pub const MIX_A: u64 = 0xBF58_476D_1CE4_E5B9;
/// Second mixing multiplier.
pub const MIX_B: u64 = 0x94D0_49BB_1331_11EB;

/// The generator's state after one draw.
pub open spec fn splitmix_state(s: u64) -> u64 {
    vstd::wrapping::u64_specs::wrapping_add(s, GOLDEN)
}

/// The value one draw yields from state `s`.
pub open spec fn splitmix_output(s: u64) -> u64 {
    let z0 = splitmix_state(s);
    let z1 = vstd::wrapping::u64_specs::wrapping_mul(z0 ^ (z0 >> 30u64), MIX_A);
    let z2 = vstd::wrapping::u64_specs::wrapping_mul(z1 ^ (z1 >> 27u64), MIX_B);
    z2 ^ (z2 >> 31u64)
}

/// One `below(n)` draw from generator state `s`: the value, and the state
/// after it.
pub open spec fn below_spec(s: u64, n: usize) -> (usize, u64) {
    if n == 0 {
        (0usize, s)
    } else {
        ((splitmix_output(s) % (n as u64)) as usize, splitmix_state(s))
    }
}

/// The values a run of `below` calls with bounds `ns` draws from state `s`.
pub open spec fn draws(s: u64, ns: Seq<usize>) -> Seq<usize>
    decreases ns.len(),
{
    if ns.len() == 0 {
        Seq::empty()
    } else {
        let first = below_spec(s, ns[0]);
        seq![first.0] + draws(first.1, ns.drop_first())
    }
}

/// Two generators seeded alike and asked alike draw alike, and every draw is
/// in its range: `draws` is a function of the seed and the bounds, and each
/// value is below its bound, or 0 for an empty range.
pub proof fn lemma_draws_in_range(s: u64, ns: Seq<usize>)
    ensures
        draws(s, ns).len() == ns.len(),
        forall|k: int|
            0 <= k < ns.len() ==> if ns[k] == 0 {
                #[trigger] draws(s, ns)[k] == 0
            } else {
                draws(s, ns)[k] < ns[k]
            },
    decreases ns.len(),
{
    if ns.len() > 0 {
        let first = below_spec(s, ns[0]);
        lemma_draws_in_range(first.1, ns.drop_first());
        assert forall|k: int|
            0 <= k < ns.len() implies if ns[k] == 0 {
                #[trigger] draws(s, ns)[k] == 0
            } else {
                draws(s, ns)[k] < ns[k]
            } by {
            if k > 0 {
                assert(draws(s, ns)[k] == draws(first.1, ns.drop_first())[k - 1]);
                assert(ns[k] == ns.drop_first()[k - 1]);
            }
        }
    }
}

/// Seeded splitmix64: deterministic, so the same seed gives the same advice.
#[derive(Debug, Clone)]
pub struct Rng(u64);

impl Rng {
    /// The generator's state.
    pub closed spec fn state(self) -> u64 {
        self.0
    }

    /// A stream from a seed.
    pub fn seeded(seed: u64) -> (r: Rng)
        ensures
            r.state() == seed,
    {
        Rng(seed)
    }

    fn next_u64(&mut self) -> (r: u64)
        ensures
            final(self).state() == splitmix_state(old(self).state()),
            r == splitmix_output(old(self).state()),
    {
        self.0 = self.0.wrapping_add(GOLDEN);
        let mut z = self.0;
        z = (z ^ (z >> 30u64)).wrapping_mul(MIX_A);
        z = (z ^ (z >> 27u64)).wrapping_mul(MIX_B);
        z ^ (z >> 31u64)
    }

    /// A uniform value in `0..n`; 0, with no draw, for an empty range.
    pub fn below(&mut self, n: usize) -> (r: usize)
        ensures
            (r, final(self).state()) == below_spec(old(self).state(), n),
            n == 0 ==> r == 0 && final(self).state() == old(self).state(),
            n > 0 ==> r < n && r == splitmix_output(old(self).state()) % (n as u64)
                && final(self).state() == splitmix_state(old(self).state()),
    {
        if n == 0 {
            return 0;
        }
        let v = self.next_u64();
        (v % (n as u64)) as usize
    }

    /// A fair coin: heads when the top bit of the 53 used of a draw is clear,
    /// which is the draw's unit fraction falling below one half.
    pub fn coin(&mut self) -> (r: bool)
        ensures
            final(self).state() == splitmix_state(old(self).state()),
            r == ((splitmix_output(old(self).state()) >> 11u64) < 0x10_0000_0000_0000u64),
    {
        let v = self.next_u64();
        (v >> 11u64) < 0x10_0000_0000_0000u64
    }
}


/// The four lines with mechanics, in the order their tags run.
pub open spec fn mechanical() -> Seq<Line> {
    seq![Line::Corruption, Line::Gem, Line::Upgrade, Line::Explosive]
}

/// The mechanical lines, then each of the first `k` priced lines the first
/// time it occurs: the tag order.
pub open spec fn named_lines(priced: Seq<Line>, k: int) -> Seq<Line>
    decreases k,
{
    if k <= 0 {
        mechanical()
    } else {
        let prev = named_lines(priced, k - 1);
        if prev.contains(priced[k - 1]) {
            prev
        } else {
            prev.push(priced[k - 1])
        }
    }
}

/// The table that maps lines to the rollout's compact tags and back.
///
/// Tag `0` means "no line at all"; tag `n` means the `n`-th named line; every
/// line the table does not name is [`Valuation::JUNK`]. The first four named
/// lines are always the mechanical ones.
#[derive(Debug)]
pub struct Valuation {
    lines: Vec<Line>,
    targets: Vec<u8>,
}

impl Valuation {
    /// The tag for a line with no mechanics and no price.
    pub const JUNK: u8 = 255;
    /// Tag of the corruption line.
    pub const CORRUPTION: u8 = 1;
    /// Tag of the gem line.
    pub const GEM: u8 = 2;
    /// Tag of the upgrade line.
    pub const UPGRADE: u8 = 3;
    /// Tag of the explosives line.
    pub const EXPLOSIVE: u8 = 4;

    #[verifier::type_invariant]
    spec fn well_formed(self) -> bool {
        &&& self.lines@.len() <= 254
        &&& self.lines@.no_duplicates()
        &&& self.lines@.len() >= 4
        &&& self.lines@.subrange(0, 4) == mechanical()
    }

    /// The named lines, tag order.
    pub closed spec fn named(self) -> Seq<Line> {
        self.lines@
    }

    /// The tags of the lines this strategy is chasing.
    pub closed spec fn target_tags(self) -> Seq<u8> {
        self.targets@
    }

    /// The tag of a line.
    pub open spec fn tag_of(self, l: Line) -> u8 {
        if self.named().contains(l) {
            (self.named().index_of(l) + 1) as u8
        } else {
            Valuation::JUNK
        }
    }

    /// Whether a tag is one of the strategy's target lines.
    pub open spec fn targets_tag(self, t: u8) -> bool {
        self.target_tags().contains(t)
    }

    /// Whether a line is one of the strategy's target lines.
    pub open spec fn targets_line(self, l: Line) -> bool {
        self.targets_tag(self.tag_of(l))
    }

    /// The table naming the mechanical lines, then every priced line once, and
    /// chasing the `targets` among them.
    pub fn new(priced: &Vec<Line>, targets: &Vec<Line>) -> (r: Valuation)
        requires
            priced@.len() <= 250,
        ensures
            r.named() == named_lines(priced@, priced@.len() as int),
            r.named().subrange(0, 4) == mechanical(),
            forall|l: Line| #[trigger] r.named().contains(l) == (mechanical().contains(l) || priced@.contains(l)),
            forall|t: u8|
                #[trigger] r.target_tags().contains(t) == exists|k: int|
                    0 <= k < targets@.len() && r.named().contains(targets@[k]) && t == r.tag_of(targets@[k]),
    {
        let mut lines: Vec<Line> = vec![Line::Corruption, Line::Gem, Line::Upgrade, Line::Explosive];
        assert(lines@ =~= mechanical());
        let mut k: usize = 0;
        while k < priced.len()
            invariant
                k <= priced@.len(),
                priced@.len() <= 250,
                lines@.len() <= 4 + k,
                lines@ == named_lines(priced@, k as int),
                lines@.no_duplicates(),
                lines@.len() >= 4,
                lines@.subrange(0, 4) == mechanical(),
                forall|l: Line| #[trigger] lines@.contains(l) == (mechanical().contains(l) || exists|i: int| 0 <= i < k && priced@[i] == l),
            decreases priced@.len() - k,
        {
            let line = priced[k];
            let ghost prev = lines@;
            if !contains_line(&lines, line) {
                lines.push(line);
                assert(lines@.subrange(0, 4) =~= mechanical());
                assert(lines@[lines@.len() - 1] == line);
                assert forall|l: Line| prev.contains(l) implies #[trigger] lines@.contains(l) by {
                    let i = choose|i: int| 0 <= i < prev.len() && prev[i] == l;
                    assert(lines@[i] == l);
                }
                assert forall|l: Line| #[trigger] lines@.contains(l) implies prev.contains(l) || l == line by {
                    let i = choose|i: int| 0 <= i < lines@.len() && lines@[i] == l;
                    if i < prev.len() {
                        assert(prev[i] == l);
                    }
                }
            }
            assert(lines@.contains(line));
            assert forall|l: Line| #[trigger] lines@.contains(l) == (mechanical().contains(l) || exists|i: int| 0 <= i < k + 1 && priced@[i] == l) by {
                if exists|i: int| 0 <= i < k + 1 && priced@[i] == l {
                    let i = choose|i: int| 0 <= i < k + 1 && priced@[i] == l;
                    if i == k {
                        assert(lines@.contains(line));
                    }
                }
            }
            k += 1;
        }
        assert forall|l: Line| #[trigger] lines@.contains(l) == (mechanical().contains(l) || priced@.contains(l)) by {
            if priced@.contains(l) {
                let i = choose|i: int| 0 <= i < priced@.len() && priced@[i] == l;
            }
        }
        let partial = Valuation { lines, targets: Vec::new() };
        let mut tags: Vec<u8> = Vec::new();
        let mut t: usize = 0;
        while t < targets.len()
            invariant
                t <= targets@.len(),
                partial.lines@.len() <= 254,
                partial.lines@.no_duplicates(),
                forall|x: u8|
                    #[trigger] tags@.contains(x) == exists|k: int|
                        0 <= k < t && partial.lines@.contains(targets@[k]) && x == partial.tag_of(targets@[k]),
            decreases targets@.len() - t,
        {
            let tag = partial.tag(targets[t]);
            let ghost prev = tags@;
            if tag != Valuation::JUNK {
                tags.push(tag);
            }
            assert forall|x: u8|
                #[trigger] tags@.contains(x) == exists|k: int|
                    0 <= k < t + 1 && partial.lines@.contains(targets@[k]) && x == partial.tag_of(targets@[k]) by {
                if tags@.contains(x) && !prev.contains(x) {
                    assert(tags@[tags@.len() - 1] == x);
                    assert(0 <= t < t + 1 && partial.lines@.contains(targets@[t as int]) && x == partial.tag_of(targets@[t as int]));
                }
                if prev.contains(x) {
                    let i = choose|i: int| 0 <= i < prev.len() && prev[i] == x;
                    assert(tags@[i] == x);
                }
                if exists|k: int| 0 <= k < t + 1 && partial.lines@.contains(targets@[k]) && x == partial.tag_of(targets@[k]) {
                    let k = choose|k: int| 0 <= k < t + 1 && partial.lines@.contains(targets@[k]) && x == partial.tag_of(targets@[k]);
                    if k == t {
                        let i = partial.lines@.index_of(targets@[k]);
                        assert(x == (i + 1) as u8);
                        assert(tags@[tags@.len() - 1] == x);
                    }
                }
            }
            t += 1;
        }
        Valuation { lines: partial.lines, targets: tags }
    }

    /// The tag for a line, or [`Valuation::JUNK`].
    pub fn tag(&self, line: Line) -> (r: u8)
        ensures
            r == self.tag_of(line),
            r != 0,
            r != Valuation::JUNK ==> 1 <= r <= self.named().len() && self.named()[r - 1] == line,
    {
        proof {
            use_type_invariant(self);
        }
        let mut i: usize = 0;
        while i < self.lines.len()
            invariant
                i <= self.lines@.len(),
                self.lines@.len() <= 254,
                self.lines@.no_duplicates(),
                forall|k: int| 0 <= k < i ==> self.lines@[k] != line,
            decreases self.lines@.len() - i,
        {
            if self.lines[i] == line {
                assert(self.named().contains(line));
                assert(self.named().index_of(line) == i);
                return (i + 1) as u8;
            }
            i += 1;
        }
        Valuation::JUNK
    }

    /// The line behind a tag, or `None` for junk and for "no line".
    pub fn line(&self, tag: u8) -> (r: Option<Line>)
        ensures
            (tag == 0 || tag == Valuation::JUNK || tag > self.named().len()) ==> r is None,
            (tag != 0 && tag != Valuation::JUNK && tag <= self.named().len()) ==> r == Some(self.named()[tag - 1]),
    {
        if tag == Valuation::JUNK || tag == 0 {
            None
        } else if (tag as usize) <= self.lines.len() {
            Some(self.lines[tag as usize - 1])
        } else {
            None
        }
    }

    /// Whether a tag is one of the strategy's target lines.
    pub fn is_target(&self, tag: u8) -> (r: bool)
        ensures
            r == self.targets_tag(tag),
    {
        let mut i: usize = 0;
        while i < self.targets.len()
            invariant
                i <= self.targets@.len(),
                forall|k: int| 0 <= k < i ==> self.targets@[k] != tag,
            decreases self.targets@.len() - i,
        {
            if self.targets[i] == tag {
                return true;
            }
            i += 1;
        }
        false
    }

    /// The mechanical lines carry their fixed tags.
    pub proof fn lemma_mechanical_tags(self)
        requires
            self.named().len() >= 4,
            self.named().subrange(0, 4) == mechanical(),
            self.named().no_duplicates(),
        ensures
            self.tag_of(Line::Corruption) == Valuation::CORRUPTION,
            self.tag_of(Line::Gem) == Valuation::GEM,
            self.tag_of(Line::Upgrade) == Valuation::UPGRADE,
            self.tag_of(Line::Explosive) == Valuation::EXPLOSIVE,
    {
        assert(self.named().subrange(0, 4)[0] == self.named()[0]);
        assert(self.named().subrange(0, 4)[1] == self.named()[1]);
        assert(self.named().subrange(0, 4)[2] == self.named()[2]);
        assert(self.named().subrange(0, 4)[3] == self.named()[3]);
        assert(self.named()[0] == Line::Corruption);
        assert(self.named()[1] == Line::Gem);
        assert(self.named()[2] == Line::Upgrade);
        assert(self.named()[3] == Line::Explosive);
    }
}

fn contains_line(lines: &Vec<Line>, line: Line) -> (r: bool)
    ensures
        r == lines@.contains(line),
{
    let mut i: usize = 0;
    while i < lines.len()
        invariant
            i <= lines@.len(),
            forall|k: int| 0 <= k < i ==> lines@[k] != line,
        decreases lines@.len() - i,
    {
        if lines[i] == line {
            return true;
        }
        i += 1;
    }
    false
}

/// Explosive charges granted by each tier of the explosives line.
pub open spec fn charges_at(t: int) -> int {
    if 1 <= t <= 3 {
        t
    } else {
        0
    }
}

/// Board index of the Apex.
pub const APEX: usize = 0;
/// Board index of the Entrance.
pub const ENTRANCE: usize = 11;
/// Room lines the game can offer, in total.
pub const TOTAL_LINES: usize = 25;

/// The board in the form the rollout runs on.
#[derive(Debug, Clone, Copy)]
pub struct Sim {
    /// Line tag per slot; `0` means no line (Entrance, Apex, filler).
    pub line: [u8; 13],
    /// Tier per slot, `0..=3`.
    pub tier: [u8; 13],
    /// Open-door adjacency masks.
    pub open: [SlotMask; 13],
    /// Incursions left in the whole temple budget.
    pub remaining: u8,
    /// The slot the previous incursion of this map used, if any.
    pub last_visited: Option<usize>,
    /// How many entrances of the current map have been spent.
    pub incursion_in_map: u8,
}

/// What one finished temple holds within a reach, for the price table.
#[derive(Debug, Clone, PartialEq)]
pub struct Tally {
    /// Each reached built room of a named line, with its tier, in board order.
    pub reached: Vec<(Line, Tier)>,
    /// Whether the reach holds the Apex.
    pub apex: bool,
    /// Built rooms in the reach, the Entrance aside.
    pub built: usize,
}

/// The reached built rooms of named lines among the first `k` slots.
pub open spec fn tally_rooms(line: [u8; 13], final_tier: [u8; 13], reach: u16, valuation: Valuation, k: int) -> Seq<
    (Line, Tier),
>
    decreases k,
{
    if k <= 0 || k > 13 {
        Seq::empty()
    } else {
        let prev = tally_rooms(line, final_tier, reach, valuation, k - 1);
        let tag = line[k - 1];
        if holds(reach, k - 1) && final_tier[k - 1] != 0 && tag != 0 && tag != Valuation::JUNK && tag
            <= valuation.named().len() {
            prev.push((valuation.named()[tag - 1], tier_of(final_tier[k - 1] as int)))
        } else {
            prev
        }
    }
}

/// How many built rooms other than the Entrance the first `k` slots of the
/// reach hold.
pub open spec fn tally_built(final_tier: [u8; 13], reach: u16, k: int) -> nat
    decreases k,
{
    if k <= 0 || k > 13 {
        0
    } else {
        tally_built(final_tier, reach, k - 1) + if holds(reach, k - 1) && final_tier[k - 1] != 0 && k - 1
            != ENTRANCE {
            1nat
        } else {
            0nat
        }
    }
}

/// The move being priced: the kill and the keys spent this incursion.
#[derive(Debug, Clone, PartialEq)]
pub struct Opening {
    /// Where the player is standing.
    pub slot: usize,
    /// `(line tag, is_upgrade)`, or `None` when no architect block resolved.
    pub kill: Option<(u8, bool)>,
    /// The corridors the keys open, as slot index pairs.
    pub doors: Vec<(usize, usize)>,
}

/// The charges an explosives room at slot `s` grants, counted over slots
/// below `k`: built, connected explosives rooms only.
pub open spec fn charges_below(line: [u8; 13], final_tier: [u8; 13], natural: u16, k: int) -> int
    decreases k,
{
    if k <= 0 || k > 13 {
        0
    } else {
        charges_below(line, final_tier, natural, k - 1) + if line[k - 1] == Valuation::EXPLOSIVE
            && final_tier[k - 1] > 0 && holds(natural, k - 1) {
            charges_at(final_tier[k - 1] as int)
        } else {
            0
        }
    }
}

/// The slots below `k` the next incursion can drop the player into.
pub open spec fn pool_below(sim: Sim, k: int) -> Seq<usize>
    decreases k,
{
    if k <= 0 || k > 13 {
        Seq::empty()
    } else if k - 1 != APEX && k - 1 != ENTRANCE && sim.tier[k - 1] < 3 && sim.last_visited != Some((k - 1) as usize) {
        pool_below(sim, k - 1).push((k - 1) as usize)
    } else {
        pool_below(sim, k - 1)
    }
}

impl Sim {
    /// Every tier is `0..=3`.
    pub open spec fn tiers_valid(self) -> bool {
        forall|i: int| 0 <= i < 13 ==> #[trigger] self.tier[i] <= 3
    }

    /// The simulation state of a board.
    pub fn from_board(board: &BoardState, valuation: &Valuation) -> (r: Sim)
        ensures
            forall|i: int|
                0 <= i < 13 ==> #[trigger] r.line[i] == match board.rooms[i].0 {
                    Some(l) => valuation.tag_of(l),
                    None => 0u8,
                },
            forall|i: int| 0 <= i < 13 ==> #[trigger] r.tier[i] == tier_value(board.rooms[i].1),
            r.open@ == board.open(),
            r.remaining == board.remaining,
            r.last_visited == match board.last_visited {
                Some(s) => Some(slot_index(s) as usize),
                None => None,
            },
            r.incursion_in_map == 0,
            r.tiers_valid(),
    {
        let mut line: [u8; 13] = [0u8; 13];
        let mut tier: [u8; 13] = [0u8; 13];
        let mut i: usize = 0;
        while i < 13
            invariant
                i <= 13,
                forall|k: int|
                    0 <= k < i ==> #[trigger] line[k] == match board.rooms[k].0 {
                        Some(l) => valuation.tag_of(l),
                        None => 0u8,
                    },
                forall|k: int| 0 <= k < i ==> #[trigger] tier[k] == tier_value(board.rooms[k].1),
            decreases 13 - i,
        {
            let (room_line, room_tier) = board.rooms[i];
            tier[i] = room_tier.get();
            line[i] = match room_line {
                Some(l) => valuation.tag(l),
                None => 0,
            };
            i += 1;
        }
        let last_visited = match board.last_visited {
            Some(s) => Some(s.index()),
            None => None,
        };
        Sim {
            line,
            tier,
            open: board.adjacency(),
            remaining: board.remaining,
            last_visited,
            incursion_in_map: 0,
        }
    }

    /// Open the corridor between two slots.
    pub fn open_door(&mut self, a: usize, b: usize)
        requires
            a < 13,
            b < 13,
        ensures
            final(self).open@ == with_door(old(self).open@, a as int, b as int),
            final(self).line == old(self).line,
            final(self).tier == old(self).tier,
            final(self).remaining == old(self).remaining,
            final(self).last_visited == old(self).last_visited,
            final(self).incursion_in_map == old(self).incursion_in_map,
    {
        let bb = mask_bit(b);
        self.open[a] = self.open[a] | bb;
        let ba = mask_bit(a);
        self.open[b] = self.open[b] | ba;
    }

    fn has_door(&self, a: usize, b: usize) -> (r: bool)
        requires
            a < 13,
            b < 13,
        ensures
            r == holds(self.open[a as int], b as int),
    {
        mask_holds(self.open[a], b)
    }

    /// Everything the Entrance reaches through open doors.
    pub fn natural_reach(&self) -> (r: SlotMask)
        ensures
            r == closure(self.open@, single(ENTRANCE as int)),
    {
        component(&self.open, Slot::E1)
    }

    /// The Entrance component relaxed by the explosive charges the temple will
    /// hold: charges count only from a built explosives room the walk reaches.
    pub fn charge_reach(&self, final_tier: &[u8; 13], natural: SlotMask) -> (r: SlotMask)
        requires
            forall|i: int| 0 <= i < 13 ==> #[trigger] final_tier[i] <= 3,
        ensures
            charges_below(self.line, *final_tier, natural, 13) == 0 ==> r == natural,
            charges_below(self.line, *final_tier, natural, 13) > 0 ==> forall|i: int|
                #[trigger] holds(r, i) == (holds(natural, i) || (0 <= i < 13 && exists|d: nat|
                    d <= charges_below(self.line, *final_tier, natural, 13) && is_blast_distance(
                        self.open@,
                        natural,
                        i,
                        d,
                    ))),
            forall|s: int, i: int, d: nat|
                #![trigger self.line[s], is_blast_distance(self.open@, natural, i, d)]
                0 <= s < 13 && 0 <= i < 13 && self.line[s] == Valuation::EXPLOSIVE && 1 <= final_tier[s] && holds(
                    natural,
                    s,
                ) && d <= final_tier[s] && is_blast_distance(self.open@, natural, i, d) ==> holds(r, i),
    {
        let mut charges: u32 = 0;
        let mut s: usize = 0;
        while s < 13
            invariant
                s <= 13,
                forall|i: int| 0 <= i < 13 ==> #[trigger] final_tier[i] <= 3,
                charges == charges_below(self.line, *final_tier, natural, s as int),
                charges <= 3 * s,
            decreases 13 - s,
        {
            if self.line[s] == Valuation::EXPLOSIVE && final_tier[s] > 0 && mask_holds(natural, s) {
                charges = charges + final_tier[s] as u32;
            }
            s += 1;
        }
        proof {
            assert forall|s: int|
                0 <= s < 13 && #[trigger] self.line[s] == Valuation::EXPLOSIVE && 1 <= final_tier[s] && holds(
                    natural,
                    s,
                ) implies charges >= final_tier[s] by {
                lemma_charges_count_tiers(self.line, *final_tier, natural, s);
            }
        }
        if charges == 0 {
            return natural;
        }
        let distance = closed_door_distances(&self.open, natural);
        let mut reach = natural;
        let mut i: usize = 0;
        while i < 13
            invariant
                i <= 13,
                charges == charges_below(self.line, *final_tier, natural, 13),
                forall|k: int|
                    0 <= k < 13 ==> if #[trigger] distance[k] == UNREACHABLE {
                        forall|n: nat| !holds(#[trigger] blast_layer(self.open@, natural, n), k)
                    } else {
                        is_blast_distance(self.open@, natural, k, distance[k] as nat) && distance[k] <= 16
                    },
                forall|k: int|
                    #[trigger] holds(reach, k) == (holds(natural, k) || (0 <= k < i && exists|d: nat|
                        d <= charges && is_blast_distance(self.open@, natural, k, d))),
            decreases 13 - i,
        {
            let ghost prev = reach;
            if distance[i] != UNREACHABLE && distance[i] as u32 <= charges {
                let bit = mask_bit(i);
                proof {
                    lemma_holds_or(reach, bit);
                }
                reach = reach | bit;
            }
            proof {
                assert forall|k: int|
                    #[trigger] holds(reach, k) == (holds(natural, k) || (0 <= k < i + 1 && exists|d: nat|
                        d <= charges && is_blast_distance(self.open@, natural, k, d))) by {
                    if k == i && exists|d: nat| d <= charges && is_blast_distance(self.open@, natural, k, d) {
                        let d = choose|d: nat| d <= charges && is_blast_distance(self.open@, natural, k, d);
                        if distance[i as int] == UNREACHABLE {
                            assert(!holds(blast_layer(self.open@, natural, d), k));
                        } else {
                            let e = distance[i as int] as nat;
                            if d < e {
                                assert(!holds(blast_layer(self.open@, natural, d), k));
                            } else if e < d {
                                assert(!holds(blast_layer(self.open@, natural, e), k));
                            }
                        }
                    }
                    if k == i && distance[i as int] != UNREACHABLE && distance[i as int] as u32 <= charges {
                        assert(is_blast_distance(self.open@, natural, k, distance[i as int] as nat));
                    }
                }
            }
            i += 1;
        }
        proof {
            assert forall|s: int, i: int, d: nat|
                #![trigger self.line[s], is_blast_distance(self.open@, natural, i, d)]
                0 <= s < 13 && 0 <= i < 13 && self.line[s] == Valuation::EXPLOSIVE && 1 <= final_tier[s] && holds(
                    natural,
                    s,
                ) && d <= final_tier[s] && is_blast_distance(self.open@, natural, i, d) implies holds(reach, i) by {
                lemma_charges_count_tiers(self.line, *final_tier, natural, s);
                assert(d <= charges && is_blast_distance(self.open@, natural, i, d));
            }
        }
        reach
    }

    /// What a finished temple holds inside `reach`, for the strategy's price
    /// table: each reached built room of a named line with its tier, in board
    /// order; whether the Apex is reached; and how many built rooms other
    /// than the Entrance the walk covers, whatever their line.
    pub fn tally(&self, valuation: &Valuation, final_tier: &[u8; 13], reach: SlotMask) -> (r: Tally)
        requires
            forall|i: int| 0 <= i < 13 ==> #[trigger] final_tier[i] <= 3,
        ensures
            r.reached@ == tally_rooms(self.line, *final_tier, reach, *valuation, 13),
            r.apex == holds(reach, APEX as int),
            r.built == tally_built(*final_tier, reach, 13),
    {
        let mut reached: Vec<(Line, Tier)> = Vec::new();
        let mut built: usize = 0;
        let mut i: usize = 0;
        while i < 13
            invariant
                i <= 13,
                forall|k: int| 0 <= k < 13 ==> #[trigger] final_tier[k] <= 3,
                reached@ == tally_rooms(self.line, *final_tier, reach, *valuation, i as int),
                built == tally_built(*final_tier, reach, i as int),
                built <= i,
            decreases 13 - i,
        {
            let t = final_tier[i];
            if mask_holds(reach, i) && t != 0 {
                if i != ENTRANCE {
                    built += 1;
                }
                match valuation.line(self.line[i]) {
                    Some(line) => {
                        let tier = match Tier::new(t) {
                            Some(tier) => tier,
                            None => Tier::T3,
                        };
                        reached.push((line, tier));
                    },
                    None => {},
                }
            }
            i += 1;
        }
        Tally { reached, apex: mask_holds(reach, APEX), built }
    }

    /// The walk the finished temple asks of the player: the farthest room,
    /// counted in open corridors from the Entrance, among those of `reach`
    /// worth walking to. The Apex always is; any other slot is when `priced`
    /// says its line pays at its final tier. A slot the walk cannot reach
    /// (one only a blast opens) has no hop count and is left out.
    pub fn route_hops(&self, priced: &[bool; 13], reach: SlotMask) -> (r: usize)
        ensures
            forall|i: int, d: nat|
                0 <= i < 13 && holds(reach, i) && (i == APEX || priced[i]) && is_hop_distance(
                    self.open@,
                    ENTRANCE as int,
                    i,
                    d,
                ) ==> d <= r,
            r == 0 || exists|i: int|
                0 <= i < 13 && holds(reach, i) && (i == APEX || priced[i]) && #[trigger] is_hop_distance(
                    self.open@,
                    ENTRANCE as int,
                    i,
                    r as nat,
                ),
    {
        let distance = hop_distances(&self.open, Slot::E1);
        proof {
            crate::lattice::lemma_slot_index_bijection();
        }
        assert(slot_index(Slot::E1) == ENTRANCE as int);
        let mut worst: usize = 0;
        let mut i: usize = 0;
        while i < 13
            invariant
                i <= 13,
                forall|k: int|
                    0 <= k < 13 ==> match #[trigger] distance[k] {
                        Some(d) => is_hop_distance(self.open@, ENTRANCE as int, k, d as nat),
                        None => !reachable(self.open@, single(ENTRANCE as int), k),
                    },
                forall|k: int, d: nat|
                    0 <= k < i && holds(reach, k) && (k == APEX || priced[k]) && is_hop_distance(
                        self.open@,
                        ENTRANCE as int,
                        k,
                        d,
                    ) ==> d <= worst,
                worst == 0 || exists|k: int|
                    0 <= k < i && holds(reach, k) && (k == APEX || priced[k]) && #[trigger] is_hop_distance(
                        self.open@,
                        ENTRANCE as int,
                        k,
                        worst as nat,
                    ),
            decreases 13 - i,
        {
            if mask_holds(reach, i) && (i == APEX || priced[i]) {
                match distance[i] {
                    Some(h) => {
                        if h > worst {
                            worst = h;
                        }
                    },
                    None => {
                        proof {
                            assert forall|d: nat| !is_hop_distance(self.open@, ENTRANCE as int, i as int, d) by {
                                if is_hop_distance(self.open@, ENTRANCE as int, i as int, d) {
                                    assert(holds(within(self.open@, single(ENTRANCE as int), d), i as int));
                                }
                            }
                        }
                    },
                }
            }
            i += 1;
        }
        worst
    }

    /// The slots the next incursion can drop the player into: never the Apex,
    /// never the Entrance, never a tier-3 room, never the slot the previous
    /// incursion of this map used.
    pub fn drop_pool(&self) -> (r: Vec<usize>)
        ensures
            r@ == pool_below(*self, 13),
    {
        let mut out: Vec<usize> = Vec::new();
        let mut s: usize = 0;
        while s < 13
            invariant
                s <= 13,
                out@ == pool_below(*self, s as int),
            decreases 13 - s,
        {
            if s != APEX && s != ENTRANCE && self.tier[s] < 3 && self.last_visited != Some(s) {
                out.push(s);
            }
            s += 1;
        }
        out
    }

    /// Apply an architect kill: both kinds land one tier up, and an upgrade
    /// from a built room rolls the coin for one more. Tier 3 is the ceiling.
    pub fn apply_kill(&mut self, slot: usize, line: u8, upgrade: bool, rng: &mut Rng)
        requires
            slot < 13,
            old(self).tier[slot as int] <= 3,
        ensures
            final(self).line@ == old(self).line@.update(slot as int, line),
            (upgrade && old(self).tier[slot as int] > 0) ==> final(rng).state() == splitmix_state(old(rng).state()),
            !(upgrade && old(self).tier[slot as int] > 0) ==> final(rng).state() == old(rng).state(),
            final(self).tier@ == old(self).tier@.update(
                slot as int,
                kill_tier(old(self).tier[slot as int], upgrade, old(rng).state()) as u8,
            ),
            final(self).open == old(self).open,
            final(self).remaining == old(self).remaining,
            final(self).last_visited == old(self).last_visited,
            final(self).incursion_in_map == old(self).incursion_in_map,
    {
        let mut t = self.tier[slot] + 1;
        if upgrade && self.tier[slot] > 0 && rng.coin() {
            t += 1;
        }
        self.line[slot] = line;
        self.tier[slot] = if t < 3 { t } else { 3 };
    }

    /// Book one incursion: spend a point of the budget, remember the slot so
    /// the next draw differs, and roll the map over once its entrances are
    /// used up.
    pub fn spend_incursion(&mut self, slot: usize, entrances: u8)
        requires
            old(self).incursion_in_map < 255,
        ensures
            final(self).remaining == if old(self).remaining > 0 { (old(self).remaining - 1) as u8 } else { 0u8 },
            old(self).incursion_in_map + 1 >= entrances ==> final(self).incursion_in_map == 0
                && final(self).last_visited is None,
            old(self).incursion_in_map + 1 < entrances ==> final(self).incursion_in_map == old(self).incursion_in_map + 1
                && final(self).last_visited == Some(slot),
            final(self).line == old(self).line,
            final(self).tier == old(self).tier,
            final(self).open == old(self).open,
    {
        self.remaining = self.remaining.saturating_sub(1);
        self.last_visited = Some(slot);
        self.incursion_in_map += 1;
        if self.incursion_in_map >= entrances {
            self.incursion_in_map = 0;
            self.last_visited = None;
        }
    }
}

/// Whether the fair coin drawn from state `s` comes up heads.
pub open spec fn coin_of(s: u64) -> bool {
    (splitmix_output(s) >> 11u64) < 0x10_0000_0000_0000u64
}

/// A room's tier after a kill from tier `t`: one up, one more when an
/// upgrade of a built room wins the coin drawn from `state`, capped at 3.
pub open spec fn kill_tier(t: u8, upgrade: bool, state: u64) -> int {
    min3(t + 1 + if upgrade && t > 0 && coin_of(state) {
        1int
    } else {
        0int
    })
}

/// The smaller of a value and 3.
pub open spec fn min3(x: int) -> int {
    if x < 3 {
        x
    } else {
        3
    }
}

/// The slot mask of one slot.
pub fn slot_mask(slot: Slot) -> (r: SlotMask)
    ensures
        r == single(slot_index(slot)),
{
    mask_of(slot)
}

/// Whether an upgrade room at tier `t` needs an open corridor to its target.
pub open spec fn needs_door(t: int) -> bool {
    t == 1 || t == 2
}

/// How many targets an upgrade room picks at tier `t`; tier 3 hits everything.
pub open spec fn pick_count(t: int) -> int {
    if t == 1 {
        1
    } else if t == 2 {
        2
    } else {
        13
    }
}

/// Whether slot `s` is a built upgrade room.
pub open spec fn is_upgrader(sim: Sim, s: int) -> bool {
    sim.line[s] == Valuation::UPGRADE && sim.tier[s] != 0
}

/// Whether slot `p` is in the target pool of the upgrade room at `s`: a
/// lattice neighbour other than the Apex, reached by an open corridor when the
/// room's tier needs one.
pub open spec fn in_upgrade_pool(sim: Sim, s: int, p: int) -> bool {
    0 <= s < 13 && 0 <= p < 13 && crate::lattice::lattice_adjacent(s, p) && p != APEX
        && (!needs_door(sim.tier[s] as int) || holds(sim.open[s], p))
}

/// How many of the slots below `k` are in the pool of `s`.
pub open spec fn pool_count(sim: Sim, s: int, k: int) -> nat
    decreases k,
{
    if k <= 0 {
        0
    } else {
        pool_count(sim, s, k - 1) + if in_upgrade_pool(sim, s, k - 1) {
            1nat
        } else {
            0nat
        }
    }
}

/// How many of the pick lists below `n` hold `p`.
pub open spec fn times_picked(picks: Seq<Seq<int>>, p: int, n: int) -> nat
    decreases n,
{
    if n <= 0 {
        0
    } else {
        times_picked(picks, p, n - 1) + if picks[n - 1].contains(p) {
            1nat
        } else {
            0nat
        }
    }
}

/// Whether `picks` is a possible outcome of the upgrade rooms' draws: each
/// room picks distinct slots of its own pool, all of it when the pool is no
/// larger than its pick count and exactly its pick count otherwise; every
/// other slot picks nothing.
pub open spec fn valid_picks(sim: Sim, picks: Seq<Seq<int>>) -> bool {
    &&& picks.len() == 13
    &&& forall|s: int|
        0 <= s < 13 ==> if is_upgrader(sim, s) {
            &&& (#[trigger] picks[s]).no_duplicates()
            &&& forall|k: int| 0 <= k < picks[s].len() ==> in_upgrade_pool(sim, s, #[trigger] picks[s][k])
            &&& pool_count(sim, s, 13) <= pick_count(sim.tier[s] as int) ==> forall|p: int|
                in_upgrade_pool(sim, s, p) ==> #[trigger] picks[s].contains(p)
            &&& pool_count(sim, s, 13) > pick_count(sim.tier[s] as int) ==> picks[s].len() == pick_count(
                sim.tier[s] as int,
            )
        } else {
            picks[s].len() == 0
        }
}

/// A slot's final tier when the upgrade rooms pick `picks`: a tier-0 slot
/// wastes every pick on it, any other rises one tier per pick, up to 3.
pub open spec fn lifted(sim: Sim, picks: Seq<Seq<int>>, p: int) -> int {
    if sim.tier[p] == 0 {
        0
    } else {
        min3(sim.tier[p] + times_picked(picks, p, 13))
    }
}

proof fn lemma_times_picked_update(picks: Seq<Seq<int>>, s: int, x: Seq<int>, p: int, n: int)
    requires
        0 <= s < picks.len(),
        n <= picks.len(),
    ensures
        n <= s ==> times_picked(picks.update(s, x), p, n) == times_picked(picks, p, n),
        n > s ==> times_picked(picks.update(s, x), p, n) + (if picks[s].contains(p) { 1int } else { 0int })
            == times_picked(picks, p, n) + (if x.contains(p) { 1int } else { 0int }),
    decreases n,
{
    if n > 0 {
        lemma_times_picked_update(picks, s, x, p, n - 1);
    }
}

/// The pool of the upgrade room at `s`, ascending.
/// The pool of the upgrade room at `s` among the slots below `n`, in board
/// order.
pub open spec fn pool_seq(sim: Sim, s: int, n: int) -> Seq<usize>
    decreases n,
{
    if n <= 0 {
        Seq::empty()
    } else if in_upgrade_pool(sim, s, n - 1) {
        pool_seq(sim, s, n - 1).push((n - 1) as usize)
    } else {
        pool_seq(sim, s, n - 1)
    }
}

/// Swaps `i..k` of a partial Fisher-Yates shuffle from generator state `s`:
/// entry `i` trades places with a uniform entry at or after it.
pub open spec fn shuffle_spec(v: Seq<usize>, i: int, k: int, s: u64) -> (Seq<usize>, u64)
    decreases k - i,
{
    if i >= k || i >= v.len() {
        (v, s)
    } else {
        let j = i + (splitmix_output(s) % ((v.len() - i) as u64)) as int;
        shuffle_spec(v.update(i, v[j]).update(j, v[i]), i + 1, k, splitmix_state(s))
    }
}

/// `k` entries of `pool` drawn without replacement from generator state `s`,
/// and the state after; a pool no longer than `k` is kept whole, with no draw.
pub open spec fn sample_spec(pool: Seq<usize>, k: int, s: u64) -> (Seq<usize>, u64) {
    if k >= pool.len() {
        (pool, s)
    } else {
        let shuffled = shuffle_spec(pool, 0, k, s);
        (shuffled.0.subrange(0, k), shuffled.1)
    }
}

/// What the upgrade rooms below slot `n` pick, drawn in board order from
/// generator state `s`, and the state after.
pub open spec fn drawn_picks(sim: Sim, n: int, s: u64) -> (Seq<Seq<int>>, u64)
    decreases n,
{
    if n <= 0 {
        (Seq::new(13, |i: int| Seq::<int>::empty()), s)
    } else {
        let prev = drawn_picks(sim, n - 1, s);
        if is_upgrader(sim, n - 1) {
            let drawn = sample_spec(pool_seq(sim, n - 1, 13), pick_count(sim.tier[n - 1] as int), prev.1);
            (prev.0.update(n - 1, Seq::new(drawn.0.len(), |q: int| drawn.0[q] as int)), drawn.1)
        } else {
            prev
        }
    }
}

fn upgrade_pool(sim: &Sim, s: usize, adjacent: u16) -> (r: Vec<usize>)
    requires
        s < 13,
        forall|p: int| #[trigger] holds(adjacent, p) == crate::lattice::lattice_adjacent(s as int, p),
    ensures
        r@.len() == pool_count(*sim, s as int, 13),
        r@.no_duplicates(),
        forall|k: int| 0 <= k < r@.len() ==> #[trigger] r@[k] < 13 && in_upgrade_pool(*sim, s as int, r@[k] as int),
        forall|p: int| in_upgrade_pool(*sim, s as int, p) ==> #[trigger] r@.contains(p as usize),
        r@ == pool_seq(*sim, s as int, 13),
{
    let mut out: Vec<usize> = Vec::new();
    let t = sim.tier[s];
    let needs = t == 1 || t == 2;
    let mut n: usize = 0;
    while n < 13
        invariant
            s < 13,
            n <= 13,
            needs == needs_door(sim.tier[s as int] as int),
            forall|p: int| #[trigger] holds(adjacent, p) == crate::lattice::lattice_adjacent(s as int, p),
            out@.len() == pool_count(*sim, s as int, n as int),
            out@ == pool_seq(*sim, s as int, n as int),
            out@.no_duplicates(),
            forall|k: int| 0 <= k < out@.len() ==> #[trigger] out@[k] < n && in_upgrade_pool(*sim, s as int, out@[k] as int),
            forall|p: int| 0 <= p < n && in_upgrade_pool(*sim, s as int, p) ==> #[trigger] out@.contains(p as usize),
        decreases 13 - n,
    {
        let ghost prev = out@;
        let take = mask_holds(adjacent, n) && n != APEX && (!needs || mask_holds(sim.open[s], n));
        assert(take == in_upgrade_pool(*sim, s as int, n as int));
        if take {
            out.push(n);
            proof {
                assert(out@[out@.len() - 1] == n);
                assert forall|a: int, b: int| 0 <= a < b < out@.len() implies out@[a] != out@[b] by {
                    if b == out@.len() - 1 {
                        assert(prev[a] < n);
                    } else {
                        assert(prev[a] != prev[b]);
                    }
                }
            }
        }
        proof {
            assert forall|k: int| 0 <= k < out@.len() implies #[trigger] out@[k] < n + 1 && in_upgrade_pool(*sim, s as int, out@[k] as int) by {
                if k < prev.len() {
                    assert(out@[k] == prev[k]);
                }
            }
            assert forall|p: int| 0 <= p < n + 1 && in_upgrade_pool(*sim, s as int, p) implies #[trigger] out@.contains(p as usize) by {
                if p == n {
                    assert(out@[out@.len() - 1] == p as usize);
                } else {
                    assert(prev.contains(p as usize));
                    let k = choose|k: int| 0 <= k < prev.len() && prev[k] == p as usize;
                    assert(out@[k] == p as usize);
                }
            }
        }
        n += 1;
    }
    out
}

/// Swap two entries of a list.
fn swap_entries(v: &mut Vec<usize>, i: usize, j: usize)
    requires
        i < old(v)@.len(),
        j < old(v)@.len(),
    ensures
        final(v)@ == old(v)@.update(i as int, old(v)@[j as int]).update(j as int, old(v)@[i as int]),
{
    let a = v[i];
    let b = v[j];
    v[i] = b;
    v[j] = a;
}

/// Draw `k` entries of a list without replacement, by `k` random swaps off
/// the front; a list no longer than `k` is kept whole.
fn sample(pool: Vec<usize>, k: usize, rng: &mut Rng) -> (r: Vec<usize>)
    requires
        pool@.no_duplicates(),
    ensures
        r@.no_duplicates(),
        forall|x: usize| #[trigger] r@.contains(x) ==> pool@.contains(x),
        k >= pool@.len() ==> r@ == pool@,
        k < pool@.len() ==> r@.len() == k,
        (r@, final(rng).state()) == sample_spec(pool@, k as int, old(rng).state()),
{
    if k >= pool.len() {
        return pool;
    }
    let mut v = pool;
    let len = v.len();
    let mut i: usize = 0;
    while i < k
        invariant
            k < len,
            i <= k,
            v@.len() == len,
            v@.no_duplicates(),
            forall|x: usize| #[trigger] v@.contains(x) == pool@.contains(x),
            shuffle_spec(v@, i as int, k as int, rng.state()) == shuffle_spec(pool@, 0, k as int, old(rng).state()),
        decreases k - i,
    {
        let j = i + rng.below(len - i);
        let ghost before = v@;
        swap_entries(&mut v, i, j);
        proof {
            lemma_swap_keeps(before, i as int, j as int, v@);
        }
        i += 1;
    }
    let ghost whole = v@;
    v.truncate(k);
    proof {
        assert(v@ =~= whole.subrange(0, k as int));
        assert forall|x: usize| #[trigger] v@.contains(x) implies pool@.contains(x) by {
            let q = choose|q: int| 0 <= q < v@.len() && v@[q] == x;
            assert(whole[q] == x);
            assert(whole.contains(x));
        }
        assert forall|a: int, b: int| 0 <= a < b < v@.len() implies v@[a] != v@[b] by {
            assert(whole[a] != whole[b]);
        }
    }
    v
}

/// Lift every pick of one upgrade room in the partially resolved table.
fn apply_picks(out: &mut [u8; 13], chosen: &Vec<usize>, sim: Ghost<Sim>, picks: Ghost<Seq<Seq<int>>>, s: Ghost<int>)
    requires
        0 <= s@ < 13,
        picks@.len() == 13,
        picks@[s@].len() == 0,
        chosen@.no_duplicates(),
        forall|q: int| 0 <= q < chosen@.len() ==> #[trigger] chosen@[q] < 13,
        forall|p: int| 0 <= p < 13 ==> #[trigger] old(out)[p] == lifted(sim@, picks@, p),
    ensures
        forall|p: int|
            0 <= p < 13 ==> #[trigger] final(out)[p] == lifted(
                sim@,
                picks@.update(s@, Seq::new(chosen@.len(), |q: int| chosen@[q] as int)),
                p,
            ),
{
    let ghost all: Seq<int> = Seq::new(chosen@.len(), |q: int| chosen@[q] as int);
    let ghost base = picks@;
    proof {
        assert(all.take(0) =~= base[s@]);
        assert(base.update(s@, all.take(0)) =~= base);
    }
    let mut m: usize = 0;
    while m < chosen.len()
        invariant
            0 <= s@ < 13,
            m <= chosen@.len(),
            all.len() == chosen@.len(),
            forall|q: int| 0 <= q < chosen@.len() ==> #[trigger] all[q] == chosen@[q] as int,
            forall|q: int| 0 <= q < chosen@.len() ==> #[trigger] chosen@[q] < 13,
            chosen@.no_duplicates(),
            base.len() == 13,
            base[s@].len() == 0,
            forall|p: int| 0 <= p < 13 ==> #[trigger] out[p] == lifted(sim@, base.update(s@, all.take(m as int)), p),
        decreases chosen@.len() - m,
    {
        let p = chosen[m];
        let ghost now = base.update(s@, all.take(m as int));
        let ghost next = base.update(s@, all.take(m + 1));
        if out[p] != 0 {
            out[p] = if out[p] + 1 < 3 { out[p] + 1 } else { 3 };
        }
        proof {
            let t0 = all.take(m as int);
            let t1 = all.take(m + 1);
            assert(next =~= now.update(s@, t1));
            assert(t1[m as int] == p as int);
            assert(!t0.contains(p as int)) by {
                if t0.contains(p as int) {
                    let q = choose|q: int| 0 <= q < t0.len() && t0[q] == p as int;
                    assert(chosen@[q] == chosen@[m as int]);
                }
            }
            assert forall|x: int| t1.contains(x) == (t0.contains(x) || x == p as int) by {
                if t1.contains(x) {
                    let w = choose|w: int| 0 <= w < t1.len() && t1[w] == x;
                    if w < m {
                        assert(t0[w] == x);
                    }
                }
                if t0.contains(x) {
                    let w = choose|w: int| 0 <= w < t0.len() && t0[w] == x;
                    assert(t1[w] == x);
                }
                if x == p as int {
                    assert(t1[m as int] == x);
                }
            }
            assert forall|q: int| 0 <= q < 13 implies #[trigger] out[q] == lifted(sim@, next, q) by {
                lemma_times_picked_update(now, s@, t1, q, 13);
                assert(now[s@] == t0);
            }
        }
        m += 1;
    }
    proof {
        assert(all.take(chosen@.len() as int) =~= all);
    }
}

impl Sim {
    /// The upgrade line's resolution pass: each built upgrade room lifts the
    /// slots it picks from its pool by one tier, and a pick on a tier-0 slot
    /// is wasted. The rooms at tiers 1 and 2 draw their picks without
    /// replacement; tier 3 takes the whole pool.
    pub fn resolve_upgrades(&self, rng: &mut Rng) -> (r: [u8; 13])
        requires
            self.tiers_valid(),
        ensures
            ({
                let (picks, after) = drawn_picks(*self, 13, old(rng).state());
                &&& valid_picks(*self, picks)
                &&& forall|p: int| 0 <= p < 13 ==> #[trigger] r[p] == lifted(*self, picks, p)
                &&& final(rng).state() == after
            }),
    {
        let table = neighbour_masks();
        let mut out: [u8; 13] = self.tier;
        let ghost mut picks: Seq<Seq<int>> = Seq::new(13, |i: int| Seq::<int>::empty());
        proof {
            lemma_times_picked_zero(picks, 13);
            assert forall|p: int| 0 <= p < 13 implies #[trigger] out[p] == lifted(*self, picks, p) by {
                assert(times_picked(picks, p, 13) == 0);
            }
        }
        let mut s: usize = 0;
        while s < 13
            invariant
                s <= 13,
                self.tiers_valid(),
                is_lattice_table(table@),
                picks.len() == 13,
                (picks, rng.state()) == drawn_picks(*self, s as int, old(rng).state()),
                forall|q: int| s <= q < 13 ==> (#[trigger] picks[q]).len() == 0,
                forall|q: int|
                    0 <= q < s ==> if is_upgrader(*self, q) {
                        &&& (#[trigger] picks[q]).no_duplicates()
                        &&& forall|k: int| 0 <= k < picks[q].len() ==> in_upgrade_pool(*self, q, #[trigger] picks[q][k])
                        &&& pool_count(*self, q, 13) <= pick_count(self.tier[q] as int) ==> forall|p: int|
                            in_upgrade_pool(*self, q, p) ==> #[trigger] picks[q].contains(p)
                        &&& pool_count(*self, q, 13) > pick_count(self.tier[q] as int) ==> picks[q].len()
                            == pick_count(self.tier[q] as int)
                    } else {
                        picks[q].len() == 0
                    },
                forall|p: int| 0 <= p < 13 ==> #[trigger] out[p] == lifted(*self, picks, p),
            decreases 13 - s,
        {
            if self.line[s] == Valuation::UPGRADE && self.tier[s] != 0 {
                let pool = upgrade_pool(self, s, table[s]);
                let ghost whole = pool@;
                let t = self.tier[s];
                let k: usize = if t == 1 { 1 } else if t == 2 { 2 } else { 13 };
                let chosen = sample(pool, k, rng);
                let ghost before = picks;
                let ghost entry: Seq<int> = Seq::new(chosen@.len(), |q: int| chosen@[q] as int);
                proof {
                    assert forall|q: int| 0 <= q < chosen@.len() implies #[trigger] chosen@[q] < 13 by {
                        assert(chosen@.contains(chosen@[q]));
                        assert(whole.contains(chosen@[q]));
                    }
                }
                apply_picks(&mut out, &chosen, Ghost(*self), Ghost(picks), Ghost(s as int));
                proof {
                    picks = before.update(s as int, entry);
                    assert(entry.no_duplicates()) by {
                        assert forall|a: int, b: int| 0 <= a < b < entry.len() implies entry[a] != entry[b] by {
                            assert(chosen@[a] != chosen@[b]);
                        }
                    }
                    assert forall|w: int| 0 <= w < entry.len() implies in_upgrade_pool(*self, s as int, #[trigger] entry[w]) by {
                        assert(chosen@.contains(chosen@[w]));
                        let z = choose|z: int| 0 <= z < whole.len() && whole[z] == chosen@[w];
                    }
                    if pool_count(*self, s as int, 13) <= pick_count(self.tier[s as int] as int) {
                        assert forall|p: int| in_upgrade_pool(*self, s as int, p) implies #[trigger] entry.contains(p) by {
                            assert(whole.contains(p as usize));
                            let z = choose|z: int| 0 <= z < whole.len() && whole[z] == p as usize;
                            assert(entry[z] == p);
                        }
                    }
                }
            }
            s += 1;
        }
        assert(valid_picks(*self, picks));
        out
    }
}

proof fn lemma_times_picked_zero(picks: Seq<Seq<int>>, n: int)
    requires
        n <= picks.len(),
        forall|q: int| 0 <= q < picks.len() ==> (#[trigger] picks[q]).len() == 0,
    ensures
        forall|p: int| #[trigger] times_picked(picks, p, n) == 0,
    decreases n,
{
    if n > 0 {
        lemma_times_picked_zero(picks, n - 1);
        let last = picks[n - 1];
        assert(last.len() == 0);
        assert forall|p: int| #[trigger] times_picked(picks, p, n) == 0 by {
            assert(times_picked(picks, p, n - 1) == 0);
            if last.contains(p) {
                let w = choose|w: int| 0 <= w < last.len() && last[w] == p;
            }
        }
    }
}

proof fn lemma_swap_keeps(before: Seq<usize>, i: int, j: int, after: Seq<usize>)
    requires
        0 <= i < before.len(),
        0 <= j < before.len(),
        before.no_duplicates(),
        after == before.update(i, before[j]).update(j, before[i]),
    ensures
        after.len() == before.len(),
        after.no_duplicates(),
        forall|x: usize| #[trigger] after.contains(x) == before.contains(x),
{
    assert forall|x: usize| #[trigger] after.contains(x) == before.contains(x) by {
        if after.contains(x) {
            let q = choose|q: int| 0 <= q < after.len() && after[q] == x;
            if q == i {
                assert(before[j] == x);
            } else if q == j {
                assert(before[i] == x);
            } else {
                assert(before[q] == x);
            }
        }
        if before.contains(x) {
            let q = choose|q: int| 0 <= q < before.len() && before[q] == x;
            if q == i {
                assert(after[j] == x);
            } else if q == j {
                assert(after[i] == x);
            } else {
                assert(after[q] == x);
            }
        }
    }
}


/// The tag one draw of the change offer names: uniform over the game's
/// [`TOTAL_LINES`] lines, with every line past the `named` ones junk.
pub open spec fn offer_draw(state: u64, named: nat) -> u8 {
    let d = splitmix_output(state) % (TOTAL_LINES as u64);
    if (d as int) < named {
        (d + 1) as u8
    } else {
        Valuation::JUNK
    }
}

/// The change offer for a room whose line is `current`, and the generator's
/// state after it: a draw naming the current line is redrawn, at most `tries`
/// times, and the offer falls back to junk once they run out.
pub open spec fn offered(state: u64, current: u8, named: nat, tries: nat) -> (u8, u64)
    decreases tries,
{
    if tries == 0 {
        (Valuation::JUNK, state)
    } else {
        let t = offer_draw(state, named);
        if t != current || t == Valuation::JUNK {
            (t, splitmix_state(state))
        } else {
            offered(splitmix_state(state), current, named, (tries - 1) as nat)
        }
    }
}

/// Whether the room at `m` is an upgrade room whose picks a new neighbour
/// would dilute: tiers 1 and 2 pick among connected neighbours only.
pub open spec fn dilutes(line: Seq<u8>, tier: Seq<u8>, m: int) -> bool {
    line[m] == Valuation::UPGRADE && (tier[m] == 1 || tier[m] == 2)
}

/// A door the policy may consider from `slot`: a lattice corridor not yet open.
pub open spec fn door_candidate(open: Seq<u16>, slot: int, n: int) -> bool {
    0 <= slot < 13 && 0 <= n < 13 && crate::lattice::lattice_adjacent(slot, n) && !holds(open[slot], n)
}

/// Twice the policy's gain for opening `slot`–`n`: the growth of the Entrance
/// component, less one and a half for each door that dilutes a shrine.
pub open spec fn door_gain(open: Seq<u16>, line: Seq<u8>, tier: Seq<u8>, slot: int, n: int) -> int {
    2 * (popcount(closure(with_door(open, slot, n), single(ENTRANCE as int))) as int - popcount(
        closure(open, single(ENTRANCE as int)),
    ) as int) - if dilutes(line, tier, slot) || dilutes(line, tier, n) {
        3int
    } else {
        0int
    }
}

/// The door the default policy opens from `slot`: the lowest-indexed
/// candidate of greatest gain, when that gain is positive; none otherwise.
pub open spec fn is_policy_door(open: Seq<u16>, line: Seq<u8>, tier: Seq<u8>, slot: int, r: Option<usize>) -> bool {
    match r {
        None => forall|n: int| door_candidate(open, slot, n) ==> #[trigger] door_gain(open, line, tier, slot, n) <= 0,
        Some(d) => {
            &&& door_candidate(open, slot, d as int)
            &&& door_gain(open, line, tier, slot, d as int) > 0
            &&& forall|n: int|
                door_candidate(open, slot, n) ==> #[trigger] door_gain(open, line, tier, slot, n) <= door_gain(
                    open,
                    line,
                    tier,
                    slot,
                    d as int,
                ) && (n < d ==> door_gain(open, line, tier, slot, n) < door_gain(open, line, tier, slot, d as int))
        },
    }
}

/// The door the default policy opens from `slot`.
pub open spec fn policy_door(open: Seq<u16>, line: Seq<u8>, tier: Seq<u8>, slot: int) -> Option<usize> {
    choose|r: Option<usize>| is_policy_door(open, line, tier, slot, r)
}

/// The policy names one answer: the first corridor of the largest positive
/// gain, or none.
pub proof fn lemma_policy_door_unique(
    open: Seq<u16>,
    line: Seq<u8>,
    tier: Seq<u8>,
    slot: int,
    a: Option<usize>,
    b: Option<usize>,
)
    requires
        is_policy_door(open, line, tier, slot, a),
        is_policy_door(open, line, tier, slot, b),
    ensures
        a == b,
{
    match a {
        Some(x) => match b {
            Some(y) => {
                let gx = door_gain(open, line, tier, slot, x as int);
                let gy = door_gain(open, line, tier, slot, y as int);
                assert(gx <= gy);
                assert(gy <= gx);
                if x < y {
                    assert(gx < gy);
                }
                if y < x {
                    assert(gy < gx);
                }
            },
            None => {
                assert(door_gain(open, line, tier, slot, x as int) <= 0);
            },
        },
        None => match b {
            Some(y) => {
                assert(door_gain(open, line, tier, slot, y as int) <= 0);
            },
            None => {},
        },
    }
}

/// A door-mask table with the corridor `a`–`b` opened.
pub open spec fn open_with(open: [u16; 13], a: int, b: int) -> [u16; 13] {
    let first = spec_array_update(open, a, open[a] | single(b));
    spec_array_update(first, b, first[b] | single(a))
}

/// One future turn at `slot` from generator state `s`, as a value: the
/// board after the kill, the policy's door and the booked incursion, and the
/// generator's state after it.
pub open spec fn turn_spec(sim: Sim, slot: int, valuation: Valuation, entrances: u8, s: u64) -> (Sim, u64) {
    let offer = offered(s, sim.line[slot], valuation.named().len(), 8);
    let kill = turn_kill(sim, valuation, slot, offer.0);
    let line = spec_array_update(sim.line, slot, kill.0);
    let tier = spec_array_update(sim.tier, slot, kill_tier(sim.tier[slot], kill.1, offer.1) as u8);
    let open = match policy_door(sim.open@, line@, tier@, slot) {
        Some(d) => open_with(sim.open, slot, d as int),
        None => sim.open,
    };
    let new_map = sim.incursion_in_map + 1 >= entrances;
    let after = Sim {
        line,
        tier,
        open,
        remaining: if sim.remaining > 0 {
            (sim.remaining - 1) as u8
        } else {
            0u8
        },
        last_visited: if new_map {
            None
        } else {
            Some(slot as usize)
        },
        incursion_in_map: if new_map {
            0u8
        } else {
            (sim.incursion_in_map + 1) as u8
        },
    };
    (after, if kill.1 && sim.tier[slot] > 0 {
        splitmix_state(offer.1)
    } else {
        offer.1
    })
}

/// The rest of the temple played out from generator state `s`, as a value:
/// while budget remains and the drop pool is not empty, draw a slot from the
/// pool and play a turn there.
pub open spec fn rollout_spec(sim: Sim, valuation: Valuation, entrances: u8, s: u64) -> (Sim, u64)
    decreases sim.remaining,
{
    let pool = pool_below(sim, 13);
    if sim.remaining == 0 || pool.len() == 0 {
        (sim, s)
    } else {
        let pick = splitmix_output(s) % (pool.len() as u64);
        let next = turn_spec(sim, pool[pick as int] as int, valuation, entrances, splitmix_state(s));
        if next.0.remaining < sim.remaining {
            rollout_spec(next.0, valuation, entrances, next.1)
        } else {
            next
        }
    }
}

/// A door-mask table with the first `k` corridors of `doors` opened, in order.
pub open spec fn opened_all(open: [u16; 13], doors: Seq<(usize, usize)>, k: int) -> [u16; 13]
    decreases k,
{
    if k <= 0 {
        open
    } else {
        open_with(opened_all(open, doors, k - 1), doors[k - 1].0 as int, doors[k - 1].1 as int)
    }
}

/// The option under evaluation played from generator state `s`, then the
/// rest of the temple: the kill (with its coin), the keyed corridors, the
/// incursion booked as the first of its map, and the rollout.
pub open spec fn rollout_from_spec(sim: Sim, opening: Opening, valuation: Valuation, entrances: u8, s: u64) -> (
    Sim,
    u64,
) {
    let slot = opening.slot as int;
    let (line, tier, after_kill) = match opening.kill {
        Some((l, upgrade)) => (
            spec_array_update(sim.line, slot, l),
            spec_array_update(sim.tier, slot, kill_tier(sim.tier[slot], upgrade, s) as u8),
            if upgrade && sim.tier[slot] > 0 {
                splitmix_state(s)
            } else {
                s
            },
        ),
        None => (sim.line, sim.tier, s),
    };
    let new_map = 1 >= entrances;
    let start = Sim {
        line,
        tier,
        open: opened_all(sim.open, opening.doors@, opening.doors@.len() as int),
        remaining: if sim.remaining > 0 {
            (sim.remaining - 1) as u8
        } else {
            0u8
        },
        last_visited: if new_map {
            None
        } else {
            Some(opening.slot)
        },
        incursion_in_map: if new_map {
            0u8
        } else {
            1u8
        },
    };
    rollout_spec(start, valuation, entrances, after_kill)
}

impl Sim {
    /// The change architect's offered line. Uniform over the game's lines;
    /// the ones the table does not name are junk, and a named line equal to
    /// the room's own is redrawn, since the game never offers the room you
    /// are standing in.
    fn offered_change(&self, slot: usize, valuation: &Valuation, rng: &mut Rng) -> (r: u8)
        requires
            slot < 13,
        ensures
            (r, final(rng).state()) == offered(old(rng).state(), self.line[slot as int], valuation.named().len(), 8),
    {
        proof {
            use_type_invariant(valuation);
        }
        let named = valuation.lines.len();
        let mut tries: usize = 0;
        while tries < 8
            invariant
                tries <= 8,
                slot < 13,
                named == valuation.named().len(),
                named <= 254,
                offered(rng.state(), self.line[slot as int], named as nat, (8 - tries) as nat) == offered(
                    old(rng).state(),
                    self.line[slot as int],
                    named as nat,
                    8,
                ),
            decreases 8 - tries,
        {
            let ghost before = rng.state();
            let draw = rng.below(TOTAL_LINES);
            let tag = if draw < named {
                (draw + 1) as u8
            } else {
                Valuation::JUNK
            };
            assert(tag == offer_draw(before, named as nat));
            if tag != self.line[slot] || tag == Valuation::JUNK {
                return tag;
            }
            tries += 1;
        }
        Valuation::JUNK
    }

    /// The stand-in for a human on every future turn: open the door that
    /// grows the Entrance component most, less a penalty for diluting a
    /// shrine; a door that gains nothing is never taken.
    pub fn default_policy_door(&self, slot: usize) -> (r: Option<usize>)
        requires
            slot < 13,
        ensures
            is_policy_door(self.open@, self.line@, self.tier@, slot as int, r),
    {
        let table = neighbour_masks();
        let before = mask_count(self.natural_reach());
        let mut best: Option<usize> = None;
        let mut best_gain: i32 = 0;
        let mut n: usize = 0;
        while n < 13
            invariant
                slot < 13,
                n <= 13,
                is_lattice_table(table@),
                before == popcount(closure(self.open@, single(ENTRANCE as int))),
                before <= 16,
                best_gain >= 0,
                best is None ==> best_gain == 0,
                forall|m: int|
                    0 <= m < n && door_candidate(self.open@, slot as int, m) ==> #[trigger] door_gain(
                        self.open@,
                        self.line@,
                        self.tier@,
                        slot as int,
                        m,
                    ) <= best_gain,
                match best {
                    None => true,
                    Some(d) => {
                        &&& d < n
                        &&& door_candidate(self.open@, slot as int, d as int)
                        &&& door_gain(self.open@, self.line@, self.tier@, slot as int, d as int) == best_gain
                        &&& best_gain > 0
                        &&& forall|m: int|
                            0 <= m < d && door_candidate(self.open@, slot as int, m) ==> #[trigger] door_gain(
                                self.open@,
                                self.line@,
                                self.tier@,
                                slot as int,
                                m,
                            ) < best_gain
                    },
                },
            decreases 13 - n,
        {
            assert(holds(table[slot as int], n as int) == crate::lattice::lattice_adjacent(slot as int, n as int));
            if mask_holds(table[slot], n) && !self.has_door(slot, n) {
                let mut trial = *self;
                trial.open_door(slot, n);
                let after = mask_count(trial.natural_reach());
                let dilute = (self.line[slot] == Valuation::UPGRADE && (self.tier[slot] == 1 || self.tier[slot] == 2))
                    || (self.line[n] == Valuation::UPGRADE && (self.tier[n] == 1 || self.tier[n] == 2));
                let penalty: i32 = if dilute { 3 } else { 0 };
                let gain: i32 = 2 * (after as i32 - before as i32) - penalty;
                assert(gain == door_gain(self.open@, self.line@, self.tier@, slot as int, n as int));
                if gain > best_gain {
                    best = Some(n);
                    best_gain = gain;
                }
            }
            n += 1;
        }
        best
    }
}


/// Whether a built upgrade room sits behind an open corridor next to `slot`.
pub open spec fn near_shrine(sim: Sim, slot: int) -> bool {
    exists|n: int|
        crate::lattice::lattice_adjacent(slot, n) && #[trigger] sim.line[n] == Valuation::UPGRADE && sim.tier[n] > 0
            && holds(sim.open[slot], n)
}

/// What a future turn kills at `slot` when the change offer is `change`:
/// the line and whether it is an upgrade. An offer that advances a target
/// line wins, the upgrade side first; next to a shrine the change is taken
/// so the shrine supplies the tier; otherwise a built room is maxed by its
/// upgrade, and an empty one takes the change.
pub open spec fn turn_kill(sim: Sim, valuation: Valuation, slot: int, change: u8) -> (u8, bool) {
    let built = sim.tier[slot] > 0;
    let own = sim.line[slot];
    if built && valuation.targets_tag(own) {
        (own, true)
    } else if valuation.targets_tag(change) {
        (change, built && change == own)
    } else if near_shrine(sim, slot) {
        (change, false)
    } else if built {
        (own, true)
    } else {
        (change, false)
    }
}

/// The indices of the drop pool below `k` are drop slots below `k`.
pub proof fn lemma_pool_below_members(sim: Sim, k: int)
    ensures
        forall|i: int|
            0 <= i < pool_below(sim, k).len() ==> {
                let s = #[trigger] pool_below(sim, k)[i];
                &&& s < 13
                &&& s < k
                &&& s != APEX
                &&& s != ENTRANCE
                &&& sim.tier[s as int] < 3
            },
    decreases k,
{
    if k > 0 && k <= 13 {
        lemma_pool_below_members(sim, k - 1);
        let prev = pool_below(sim, k - 1);
        let now = pool_below(sim, k);
        assert forall|i: int| 0 <= i < now.len() implies {
            let s = #[trigger] now[i];
            &&& s < 13
            &&& s < k
            &&& s != APEX
            &&& s != ENTRANCE
            &&& sim.tier[s as int] < 3
        } by {
            if i < prev.len() {
                assert(now[i] == prev[i]);
            }
        }
    }
}

impl Sim {
    fn next_to_shrine(&self, slot: usize) -> (r: bool)
        requires
            slot < 13,
        ensures
            r == near_shrine(*self, slot as int),
    {
        let table = neighbour_masks();
        let mut n: usize = 0;
        while n < 13
            invariant
                slot < 13,
                n <= 13,
                is_lattice_table(table@),
                forall|m: int|
                    0 <= m < n ==> !(crate::lattice::lattice_adjacent(slot as int, m) && #[trigger] self.line[m]
                        == Valuation::UPGRADE && self.tier[m] > 0 && holds(self.open[slot as int], m)),
            decreases 13 - n,
        {
            assert(holds(table[slot as int], n as int) == crate::lattice::lattice_adjacent(slot as int, n as int));
            if mask_holds(table[slot], n) && self.line[n] == Valuation::UPGRADE && self.tier[n] > 0 && self.has_door(
                slot,
                n,
            ) {
                return true;
            }
            n += 1;
        }
        assert forall|m: int|
            !(crate::lattice::lattice_adjacent(slot as int, m) && #[trigger] self.line[m] == Valuation::UPGRADE
                && self.tier[m] > 0 && holds(self.open[slot as int], m)) by {
            if crate::lattice::lattice_adjacent(slot as int, m) {
                assert(0 <= m < 13);
            }
        }
        false
    }

    /// One future turn at `slot`: draw the change offer, kill by the turn
    /// rule, open the policy's door, and book the incursion. Returns the door
    /// opened, if any.
    pub fn play_turn(&mut self, slot: usize, valuation: &Valuation, entrances: u8, rng: &mut Rng) -> (door: Option<usize>)
        requires
            slot < 13,
            old(self).tiers_valid(),
            old(self).incursion_in_map < 255,
        ensures
            ({
                let offer = offered(old(rng).state(), old(self).line[slot as int], valuation.named().len(), 8);
                let kill = turn_kill(*old(self), *valuation, slot as int, offer.0);
                &&& final(self).line@ == old(self).line@.update(slot as int, kill.0)
                &&& final(self).tier@ == old(self).tier@.update(
                    slot as int,
                    kill_tier(old(self).tier[slot as int], kill.1, offer.1) as u8,
                )
                &&& (kill.1 && old(self).tier[slot as int] > 0) ==> final(rng).state() == splitmix_state(offer.1)
                &&& !(kill.1 && old(self).tier[slot as int] > 0) ==> final(rng).state() == offer.1
            }),
            is_policy_door(old(self).open@, final(self).line@, final(self).tier@, slot as int, door),
            final(self).open@ == match door {
                Some(d) => with_door(old(self).open@, slot as int, d as int),
                None => old(self).open@,
            },
            final(self).remaining == if old(self).remaining > 0 { (old(self).remaining - 1) as u8 } else { 0u8 },
            old(self).incursion_in_map + 1 >= entrances ==> final(self).incursion_in_map == 0
                && final(self).last_visited is None,
            old(self).incursion_in_map + 1 < entrances ==> final(self).incursion_in_map == old(self).incursion_in_map + 1
                && final(self).last_visited == Some(slot),
            final(self).tiers_valid(),
            *final(self) == turn_spec(*old(self), slot as int, *valuation, entrances, old(rng).state()).0,
            final(rng).state() == turn_spec(*old(self), slot as int, *valuation, entrances, old(rng).state()).1,
    {
        let built = self.tier[slot] > 0;
        let own = self.line[slot];
        let change = self.offered_change(slot, valuation, rng);
        let shrine = self.next_to_shrine(slot);
        if built && valuation.is_target(own) {
            self.apply_kill(slot, own, true, rng);
        } else if valuation.is_target(change) {
            self.apply_kill(slot, change, built && change == own, rng);
        } else if shrine {
            self.apply_kill(slot, change, false, rng);
        } else if built {
            self.apply_kill(slot, own, true, rng);
        } else {
            self.apply_kill(slot, change, false, rng);
        }
        let door = self.default_policy_door(slot);
        match door {
            Some(d) => self.open_door(slot, d),
            None => {},
        }
        self.spend_incursion(slot, entrances);
        proof {
            let t = turn_spec(*old(self), slot as int, *valuation, entrances, old(rng).state());
            let offer = offered(old(rng).state(), old(self).line[slot as int], valuation.named().len(), 8);
            let kill = turn_kill(*old(self), *valuation, slot as int, offer.0);
            assert(self.line =~= t.0.line);
            assert(self.tier =~= t.0.tier);
            let chosen = policy_door(old(self).open@, t.0.line@, t.0.tier@, slot as int);
            assert(is_policy_door(old(self).open@, t.0.line@, t.0.tier@, slot as int, door));
            lemma_policy_door_unique(old(self).open@, t.0.line@, t.0.tier@, slot as int, door, chosen);
            match door {
                Some(d) => {
                    assert(self.open@ =~= open_with(old(self).open, slot as int, d as int)@);
                },
                None => {},
            }
            assert(self.open =~= t.0.open);
            assert(*self == t.0);
        }
        door
    }

    /// Play the rest of the temple out once under the default policy: while
    /// budget remains and the drop pool is not empty, draw a drop slot and
    /// play a turn there. Returns the finished board.
    pub fn rollout(self, valuation: &Valuation, entrances: u8, rng: &mut Rng) -> (r: Sim)
        requires
            self.tiers_valid(),
            self.incursion_in_map < 255,
        ensures
            r.remaining == 0 || pool_below(r, 13).len() == 0,
            r.remaining <= self.remaining,
            r.tiers_valid(),
            forall|i: int| 0 <= i < 13 ==> #[trigger] r.tier[i] >= self.tier[i],
            forall|i: int, j: int| 0 <= i < 13 && #[trigger] holds(self.open[i], j) ==> holds(r.open[i], j),
            forall|i: int, j: int|
                0 <= i < 13 && #[trigger] holds(r.open[i], j) && !holds(self.open[i], j)
                    ==> crate::lattice::lattice_adjacent(i, j),
            r.line[APEX as int] == self.line[APEX as int] && r.tier[APEX as int] == self.tier[APEX as int],
            r.line[ENTRANCE as int] == self.line[ENTRANCE as int] && r.tier[ENTRANCE as int] == self.tier[ENTRANCE as int],
            (r, final(rng).state()) == rollout_spec(self, *valuation, entrances, old(rng).state()),
    {
        let mut sim = self;
        loop
            invariant
                rollout_spec(sim, *valuation, entrances, rng.state()) == rollout_spec(
                    self,
                    *valuation,
                    entrances,
                    old(rng).state(),
                ),
                sim.tiers_valid(),
                sim.incursion_in_map < 255,
                sim.remaining <= self.remaining,
                forall|i: int| 0 <= i < 13 ==> #[trigger] sim.tier[i] >= self.tier[i],
                forall|i: int, j: int| 0 <= i < 13 && #[trigger] holds(self.open[i], j) ==> holds(sim.open[i], j),
                forall|i: int, j: int|
                    0 <= i < 13 && #[trigger] holds(sim.open[i], j) && !holds(self.open[i], j)
                        ==> crate::lattice::lattice_adjacent(i, j),
                sim.line[APEX as int] == self.line[APEX as int] && sim.tier[APEX as int] == self.tier[APEX as int],
                sim.line[ENTRANCE as int] == self.line[ENTRANCE as int] && sim.tier[ENTRANCE as int]
                    == self.tier[ENTRANCE as int],
            ensures
                (sim, rng.state()) == rollout_spec(self, *valuation, entrances, old(rng).state()),
                sim.remaining == 0 || pool_below(sim, 13).len() == 0,
                sim.remaining <= self.remaining,
                sim.tiers_valid(),
                forall|i: int| 0 <= i < 13 ==> #[trigger] sim.tier[i] >= self.tier[i],
                forall|i: int, j: int| 0 <= i < 13 && #[trigger] holds(self.open[i], j) ==> holds(sim.open[i], j),
                forall|i: int, j: int|
                    0 <= i < 13 && #[trigger] holds(sim.open[i], j) && !holds(self.open[i], j)
                        ==> crate::lattice::lattice_adjacent(i, j),
                sim.line[APEX as int] == self.line[APEX as int] && sim.tier[APEX as int] == self.tier[APEX as int],
                sim.line[ENTRANCE as int] == self.line[ENTRANCE as int] && sim.tier[ENTRANCE as int]
                    == self.tier[ENTRANCE as int],
            decreases sim.remaining,
        {
            if sim.remaining == 0 {
                break;
            }
            let pool = sim.drop_pool();
            if pool.len() == 0 {
                break;
            }
            let ghost drawn_from = rng.state();
            let pick = rng.below(pool.len());
            let slot = pool[pick];
            proof {
                lemma_pool_below_members(sim, 13);
            }
            let ghost before = sim;
            let ghost turn_from = rng.state();
            let door = sim.play_turn(slot, valuation, entrances, rng);
            proof {
                assert(turn_spec(before, slot as int, *valuation, entrances, turn_from) == (sim, rng.state()));
                assert(rollout_spec(before, *valuation, entrances, drawn_from) == rollout_spec(
                    sim,
                    *valuation,
                    entrances,
                    rng.state(),
                ));
                assert(before.tier[slot as int] <= 3);
                assert forall|i: int| 0 <= i < 13 implies #[trigger] sim.tier[i] >= self.tier[i] by {
                    assert(sim.tier@[i] == sim.tier[i]);
                    assert(before.tier@[i] == before.tier[i]);
                    if i == slot {
                        assert(sim.tier[i] >= before.tier[i]);
                    }
                }
                match door {
                    Some(d) => {
                        lemma_with_door(before.open@, slot as int, d as int);
                        assert(sim.open@ == with_door(before.open@, slot as int, d as int));
                        assert(crate::lattice::lattice_adjacent(slot as int, d as int));
                        assert(crate::lattice::lattice_adjacent(d as int, slot as int)) by {
                            crate::lattice::lemma_adjacent_symmetric(slot as int, d as int);
                        }
                        assert forall|i: int, j: int| 0 <= i < 13 && #[trigger] holds(self.open[i], j) implies holds(sim.open[i], j) by {
                            assert(sim.open@[i] == sim.open[i]);
                            assert(before.open@[i] == before.open[i]);
                        }
                        assert forall|i: int, j: int|
                            0 <= i < 13 && #[trigger] holds(sim.open[i], j) && !holds(self.open[i], j) implies crate::lattice::lattice_adjacent(i, j) by {
                            assert(sim.open@[i] == sim.open[i]);
                            assert(before.open@[i] == before.open[i]);
                        }
                    },
                    None => {
                        assert(sim.open@ == before.open@);
                        assert(sim.open == before.open);
                    },
                }
            }
        }
        sim
    }
}


impl Sim {
    /// Play the option under evaluation, then the rest of the temple: apply
    /// the current kill (with its coin), open the keyed corridors, book the
    /// incursion as the first of its map, and roll out.
    pub fn rollout_from(self, opening: &Opening, valuation: &Valuation, entrances: u8, rng: &mut Rng) -> (r: Sim)
        requires
            self.tiers_valid(),
            opening.slot < 13,
            forall|k: int| 0 <= k < opening.doors@.len() ==> (#[trigger] opening.doors@[k]).0 < 13 && opening.doors@[k].1 < 13,
        ensures
            r.remaining == 0 || pool_below(r, 13).len() == 0,
            r.remaining <= self.remaining,
            r.tiers_valid(),
            forall|i: int| 0 <= i < 13 ==> #[trigger] r.tier[i] >= self.tier[i],
            forall|i: int, j: int| 0 <= i < 13 && #[trigger] holds(self.open[i], j) ==> holds(r.open[i], j),
            forall|k: int|
                0 <= k < opening.doors@.len() ==> holds(r.open[(#[trigger] opening.doors@[k]).0 as int], opening.doors@[k].1 as int)
                    && holds(r.open[opening.doors@[k].1 as int], opening.doors@[k].0 as int),
            (r, final(rng).state()) == rollout_from_spec(self, *opening, *valuation, entrances, old(rng).state()),
    {
        let mut sim = self;
        match opening.kill {
            Some((line, upgrade)) => sim.apply_kill(opening.slot, line, upgrade, rng),
            None => {},
        }
        let ghost killed = sim;
        proof {
            assert forall|i: int| 0 <= i < 13 implies #[trigger] sim.tier[i] >= self.tier[i] && sim.tier[i] <= 3 by {
                assert(sim.tier@[i] == sim.tier[i]);
                assert(self.tier@[i] == self.tier[i]);
            }
        }
        let mut k: usize = 0;
        while k < opening.doors.len()
            invariant
                k <= opening.doors@.len(),
                forall|q: int| 0 <= q < opening.doors@.len() ==> (#[trigger] opening.doors@[q]).0 < 13 && opening.doors@[q].1 < 13,
                sim.tier == killed.tier,
                sim.line == killed.line,
                sim.open == opened_all(killed.open, opening.doors@, k as int),
                sim.last_visited == killed.last_visited,
                sim.incursion_in_map == killed.incursion_in_map,
                sim.remaining == self.remaining,
                forall|i: int, j: int| 0 <= i < 13 && #[trigger] holds(self.open[i], j) ==> holds(sim.open[i], j),
                forall|q: int|
                    0 <= q < k ==> holds(sim.open[(#[trigger] opening.doors@[q]).0 as int], opening.doors@[q].1 as int)
                        && holds(sim.open[opening.doors@[q].1 as int], opening.doors@[q].0 as int),
            decreases opening.doors@.len() - k,
        {
            let (a, b) = opening.doors[k];
            let ghost before = sim;
            sim.open_door(a, b);
            proof {
                assert(sim.open =~= opened_all(killed.open, opening.doors@, k + 1));
                lemma_with_door(before.open@, a as int, b as int);
                assert forall|i: int, j: int| 0 <= i < 13 && #[trigger] holds(self.open[i], j) implies holds(sim.open[i], j) by {
                    assert(sim.open@[i] == sim.open[i]);
                    assert(before.open@[i] == before.open[i]);
                }
                assert forall|q: int| 0 <= q < k + 1 implies holds(sim.open[(#[trigger] opening.doors@[q]).0 as int], opening.doors@[q].1 as int)
                    && holds(sim.open[opening.doors@[q].1 as int], opening.doors@[q].0 as int) by {
                    let (x, y) = opening.doors@[q];
                    assert(sim.open@[x as int] == sim.open[x as int]);
                    assert(sim.open@[y as int] == sim.open[y as int]);
                    assert(before.open@[x as int] == before.open[x as int]);
                    assert(before.open@[y as int] == before.open[y as int]);
                }
            }
            k += 1;
        }
        sim.incursion_in_map = 0;
        sim.spend_incursion(opening.slot, entrances);
        let ghost played = sim;
        proof {
            let spec_line = match opening.kill {
                Some((l, upgrade)) => spec_array_update(self.line, opening.slot as int, l),
                None => self.line,
            };
            let spec_tier = match opening.kill {
                Some((l, upgrade)) => spec_array_update(
                    self.tier,
                    opening.slot as int,
                    kill_tier(self.tier[opening.slot as int], upgrade, old(rng).state()) as u8,
                ),
                None => self.tier,
            };
            assert(killed.line =~= spec_line);
            assert(killed.tier =~= spec_tier);
            assert(killed.open == self.open);
        }
        let r = sim.rollout(valuation, entrances, rng);
        proof {
            assert forall|q: int| 0 <= q < opening.doors@.len() implies holds(r.open[(#[trigger] opening.doors@[q]).0 as int], opening.doors@[q].1 as int)
                && holds(r.open[opening.doors@[q].1 as int], opening.doors@[q].0 as int) by {
                let (x, y) = opening.doors@[q];
                assert(holds(played.open[x as int], y as int));
                assert(holds(played.open[y as int], x as int));
            }
        }
        r
    }
}


/// The drop pool never holds the Apex, the Entrance, a tier-3 room, or the
/// slot the previous incursion of this map used.
pub proof fn lemma_drop_pool_excludes(sim: Sim)
    ensures
        forall|k: int|
            0 <= k < pool_below(sim, 13).len() ==> {
                let p = #[trigger] pool_below(sim, 13)[k];
                &&& p != APEX
                &&& p != ENTRANCE
                &&& sim.tier[p as int] < 3
                &&& sim.last_visited != Some(p)
            },
{
    lemma_pool_below_members(sim, 13);
    lemma_pool_below_not_last(sim, 13);
}

proof fn lemma_pool_below_not_last(sim: Sim, k: int)
    ensures
        forall|q: int| 0 <= q < pool_below(sim, k).len() ==> sim.last_visited != Some(#[trigger] pool_below(sim, k)[q]),
    decreases k,
{
    if k > 0 && k <= 13 {
        lemma_pool_below_not_last(sim, k - 1);
        let prev = pool_below(sim, k - 1);
        let now = pool_below(sim, k);
        assert forall|q: int| 0 <= q < now.len() implies sim.last_visited != Some(#[trigger] now[q]) by {
            if q < prev.len() {
                assert(now[q] == prev[q]);
            }
        }
    }
}

/// The double-tier roll is an upgrade's alone and never fires from tier 0:
/// a change, or any kill of an empty room, lands exactly one tier up.
pub proof fn lemma_double_tier_only_on_upgrades(t: u8, upgrade: bool, state: u64)
    requires
        !upgrade || t == 0,
    ensures
        kill_tier(t, upgrade, state) == min3(t + 1),
{
}

/// An upgrade room never lifts the Apex: it is in no room's pool.
pub proof fn lemma_upgrades_never_lift_the_apex(sim: Sim, picks: Seq<Seq<int>>)
    requires
        sim.tiers_valid(),
        valid_picks(sim, picks),
    ensures
        lifted(sim, picks, APEX as int) == sim.tier[APEX as int],
{
    lemma_not_picked(sim, picks, APEX as int, 13);
}

/// A slot no room's picks name keeps its tier count at zero.
proof fn lemma_not_picked(sim: Sim, picks: Seq<Seq<int>>, p: int, n: int)
    requires
        valid_picks(sim, picks),
        n <= 13,
        forall|s: int| 0 <= s < 13 ==> !in_upgrade_pool(sim, s, p),
    ensures
        times_picked(picks, p, n) == 0,
    decreases n,
{
    if n > 0 {
        lemma_not_picked(sim, picks, p, n - 1);
        let s = n - 1;
        if picks[s].contains(p) {
            let k = choose|k: int| 0 <= k < picks[s].len() && picks[s][k] == p;
            if is_upgrader(sim, s) {
                assert(in_upgrade_pool(sim, s, picks[s][k]));
            } else {
                assert(picks[s].len() == 0);
            }
        }
    }
}

/// A Shrine or Sanctum only ever picks a neighbour behind an open corridor.
pub proof fn lemma_shrines_pick_through_open_corridors(sim: Sim, picks: Seq<Seq<int>>, s: int, p: int)
    requires
        valid_picks(sim, picks),
        0 <= s < 13,
        picks[s].contains(p),
        needs_door(sim.tier[s] as int),
    ensures
        holds(sim.open[s], p),
        crate::lattice::lattice_adjacent(s, p),
        p != APEX,
{
    let k = choose|k: int| 0 <= k < picks[s].len() && picks[s][k] == p;
    if is_upgrader(sim, s) {
        assert(in_upgrade_pool(sim, s, picks[s][k]));
    } else {
        assert(picks[s].len() == 0);
    }
}

/// An upgrade room with no more pool than picks lifts every room of its pool
/// that is built: its picks are certainties.
pub proof fn lemma_unsaturated_room_lifts_its_whole_pool(sim: Sim, picks: Seq<Seq<int>>, s: int, p: int)
    requires
        sim.tiers_valid(),
        valid_picks(sim, picks),
        0 <= s < 13,
        is_upgrader(sim, s),
        pool_count(sim, s, 13) <= pick_count(sim.tier[s] as int),
        in_upgrade_pool(sim, s, p),
        sim.tier[p] != 0,
    ensures
        lifted(sim, picks, p) >= min3(sim.tier[p] + 1),
{
    assert(picks[s].contains(p));
    lemma_picked_counts(picks, p, s, 13);
}

proof fn lemma_picked_counts(picks: Seq<Seq<int>>, p: int, s: int, n: int)
    requires
        0 <= s < n,
        picks[s].contains(p),
    ensures
        times_picked(picks, p, n) >= 1,
    decreases n,
{
    if n - 1 > s {
        lemma_picked_counts(picks, p, s, n - 1);
    }
}

/// The default policy never opens a door that leaves the Entrance component
/// as it was: a door it picks grows it by at least one room.
pub proof fn lemma_policy_door_grows_the_entrance(open: Seq<u16>, line: Seq<u8>, tier: Seq<u8>, slot: int, d: usize)
    requires
        is_policy_door(open, line, tier, slot, Some(d)),
    ensures
        popcount(closure(with_door(open, slot, d as int), single(ENTRANCE as int))) > popcount(
            closure(open, single(ENTRANCE as int)),
        ),
{
}

// ------------------------------------------------ laws of the future turns --

/// Whether the room at `m` is an upgrade room of tier 1 or 2.
pub open spec fn young_shrine(line: Seq<u8>, tier: Seq<u8>, m: int) -> bool {
    line[m] == Valuation::UPGRADE && 1 <= tier[m] <= 2
}

/// How many slots the Entrance component gains when `slot`–`n` opens.
pub open spec fn entrance_growth(open: Seq<u16>, slot: int, n: int) -> int {
    popcount(closure(with_door(open, slot, n), single(ENTRANCE as int))) as int - popcount(
        closure(open, single(ENTRANCE as int)),
    ) as int
}

/// The default policy spares young shrines at either end of a corridor: it
/// never opens a door that grows the Entrance component by nothing, and a
/// door with a tier-1 or tier-2 upgrade room at either end only when it grows
/// the component by two slots or more. When it opens nothing, every corridor
/// from the slot grows the component by nothing, or by one slot at most when
/// a young shrine stands at either of its ends.
pub proof fn lemma_policy_spares_young_shrines(
    open: Seq<u16>,
    line: Seq<u8>,
    tier: Seq<u8>,
    slot: int,
    r: Option<usize>,
)
    requires
        is_policy_door(open, line, tier, slot, r),
    ensures
        r matches Some(d) ==> entrance_growth(open, slot, d as int) >= 1,
        r matches Some(d) ==> (young_shrine(line, tier, slot) || young_shrine(line, tier, d as int))
            ==> entrance_growth(open, slot, d as int) >= 2,
        r is None ==> forall|n: int|
            door_candidate(open, slot, n) ==> #[trigger] entrance_growth(open, slot, n) <= if young_shrine(
                line,
                tier,
                slot,
            ) || young_shrine(line, tier, n) {
                1int
            } else {
                0int
            },
{
    match r {
        Some(d) => {
            assert(door_gain(open, line, tier, slot, d as int) > 0);
        },
        None => {
            assert forall|n: int| door_candidate(open, slot, n) implies #[trigger] entrance_growth(open, slot, n)
                <= if young_shrine(line, tier, slot) || young_shrine(line, tier, n) {
                1int
            } else {
                0int
            } by {
                assert(door_gain(open, line, tier, slot, n) <= 0);
            }
        },
    }
}

/// Charges count by tier: a built explosives room the Entrance reaches
/// grants as many charges as its tier, so the count is at least that tier,
/// and exactly it when the room is the only one.
/// Whether slot `i` holds a built explosives room the Entrance reaches.
pub open spec fn charging(line: [u8; 13], final_tier: [u8; 13], natural: u16, i: int) -> bool {
    line[i] == Valuation::EXPLOSIVE && final_tier[i] > 0 && holds(natural, i)
}

/// Charges add up: two charging rooms grant at least their tiers together,
/// and with no charging room there are no charges at all.
pub proof fn lemma_charges_add_up(line: [u8; 13], final_tier: [u8; 13], natural: u16, s: int, t: int)
    requires
        forall|i: int| 0 <= i < 13 ==> #[trigger] final_tier[i] <= 3,
    ensures
        0 <= s < t < 13 && charging(line, final_tier, natural, s) && charging(line, final_tier, natural, t)
            ==> charges_below(line, final_tier, natural, 13) >= final_tier[s] + final_tier[t],
        (forall|i: int| 0 <= i < 13 ==> !#[trigger] charging(line, final_tier, natural, i)) ==> charges_below(
            line,
            final_tier,
            natural,
            13,
        ) == 0,
{
    lemma_charges_pair(line, final_tier, natural, s, t, 13);
}

proof fn lemma_charges_pair(line: [u8; 13], final_tier: [u8; 13], natural: u16, s: int, t: int, k: int)
    requires
        forall|i: int| 0 <= i < 13 ==> #[trigger] final_tier[i] <= 3,
        0 <= k <= 13,
    ensures
        charges_below(line, final_tier, natural, k) >= 0,
        0 <= s < t < 13 && charging(line, final_tier, natural, s) && charging(line, final_tier, natural, t)
            ==> charges_below(line, final_tier, natural, k) >= (if s < k { final_tier[s] as int } else { 0 }) + (
        if t < k { final_tier[t] as int } else { 0 }),
        (forall|i: int| 0 <= i < 13 ==> !#[trigger] charging(line, final_tier, natural, i)) ==> charges_below(
            line,
            final_tier,
            natural,
            k,
        ) == 0,
    decreases k,
{
    if k > 0 {
        lemma_charges_pair(line, final_tier, natural, s, t, k - 1);
        if forall|i: int| 0 <= i < 13 ==> !#[trigger] charging(line, final_tier, natural, i) {
            assert(!charging(line, final_tier, natural, k - 1));
            assert(charges_below(line, final_tier, natural, k - 1) == 0);
        }
    }
}

pub proof fn lemma_charges_count_tiers(line: [u8; 13], final_tier: [u8; 13], natural: u16, s: int)
    requires
        0 <= s < 13,
        line[s] == Valuation::EXPLOSIVE,
        1 <= final_tier[s] <= 3,
        holds(natural, s),
    ensures
        charges_below(line, final_tier, natural, 13) >= final_tier[s],
        (forall|i: int|
            0 <= i < 13 && i != s ==> !(line[i] == Valuation::EXPLOSIVE && #[trigger] final_tier[i] > 0 && holds(
                natural,
                i,
            ))) ==> charges_below(line, final_tier, natural, 13) == final_tier[s],
{
    lemma_charges_below_from(line, final_tier, natural, s, 13);
}

proof fn lemma_charges_below_from(line: [u8; 13], final_tier: [u8; 13], natural: u16, s: int, k: int)
    requires
        0 <= s < 13,
        0 <= k <= 13,
        line[s] == Valuation::EXPLOSIVE,
        1 <= final_tier[s] <= 3,
        holds(natural, s),
    ensures
        charges_below(line, final_tier, natural, k) >= if s < k { final_tier[s] as int } else { 0 },
        (forall|i: int|
            0 <= i < 13 && i != s ==> !(line[i] == Valuation::EXPLOSIVE && #[trigger] final_tier[i] > 0 && holds(
                natural,
                i,
            ))) ==> charges_below(line, final_tier, natural, k) == if s < k { final_tier[s] as int } else { 0 },
    decreases k,
{
    if k > 0 {
        lemma_charges_below_from(line, final_tier, natural, s, k - 1);
        let t = final_tier[k - 1];
        assert(charges_at(t as int) >= 0);
    }
}

/// Next to a shrine the future turn takes the change: when the room's own
/// line is no built target and the change offer advances no target, a built
/// upgrade room behind an open corridor next to the slot makes the kill the
/// change offer with no upgrade, so the shrine supplies the tier.
pub proof fn lemma_shrine_takes_the_change(sim: Sim, valuation: Valuation, slot: int, change: u8, n: int)
    requires
        0 <= slot < 13,
        crate::lattice::lattice_adjacent(slot, n),
        sim.line[n] == Valuation::UPGRADE,
        sim.tier[n] > 0,
        holds(sim.open[slot], n),
        !(sim.tier[slot] > 0 && valuation.targets_tag(sim.line[slot])),
        !valuation.targets_tag(change),
    ensures
        turn_kill(sim, valuation, slot, change) == (change, false),
{
    assert(near_shrine(sim, slot));
}

/// The same law over a whole turn: the slot ends on the drawn change offer's
/// line, one tier up, with no double-tier coin.
pub proof fn lemma_turn_beside_a_shrine(sim: Sim, valuation: Valuation, slot: int, entrances: u8, state: u64, n: int)
    requires
        0 <= slot < 13,
        crate::lattice::lattice_adjacent(slot, n),
        sim.line[n] == Valuation::UPGRADE,
        sim.tier[n] > 0,
        holds(sim.open[slot], n),
        !(sim.tier[slot] > 0 && valuation.targets_tag(sim.line[slot])),
        !valuation.targets_tag(offered(state, sim.line[slot], valuation.named().len(), 8).0),
    ensures
        turn_spec(sim, slot, valuation, entrances, state).0.line[slot] == offered(
            state,
            sim.line[slot],
            valuation.named().len(),
            8,
        ).0,
        turn_spec(sim, slot, valuation, entrances, state).0.tier[slot] == min3(sim.tier[slot] + 1),
{
    let offer = offered(state, sim.line[slot], valuation.named().len(), 8);
    lemma_shrine_takes_the_change(sim, valuation, slot, offer.0, n);
}

} // verus!
