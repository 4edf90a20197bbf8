//! What the advice tells the player besides the ranking: whether to leave the
//! map (R5), what was unreadable, and the one-line labels of a decision.

use vstd::prelude::*;

use crate::doorset::{edge_list, DoorSet};
use crate::lattice::{Edge, Slot};
use crate::rollout::Valuation;
use crate::rules::{
    arch_bytes, arch_reasons, decimal, door_key_spec, door_reasons, door_sets, door_sets_spec, evaluate_rules,
    holds_exactly, lemma_rv_leaves_a_safe_passage, opens_nothing, push_decimal, rv_connectable, rv_connectable_spec, rv_spec, rv_verdict,
    ArchKey, ArchitectChoice, Decision, DoorKey, Reason, RuleFlags, RvVerdict,
};
use crate::strategy::Line;
use crate::convenience::edge_text;
use crate::state::{rooms_reached, BoardState, Room};
use crate::strategy::{OfferKind, Tier};

verus! {

/// Whether to spend the rest of this map's incursions.
#[derive(Debug, Clone, Copy, PartialEq, Eq, Structural)]
pub enum MapAction {
    /// Run the map's remaining entrances.
    Continue,
    /// R5: leave. The next incursion of this map cannot be the room just used,
    /// so running it burns budget for a zero chance at the target.
    LeaveMap,
}

/// Whether to leave the map: only in chase mode, when the temple's setup
/// leaves the player that choice, and the recommended kill took a target line
/// short of tier 3 that the Entrance does not already reach at tier 3.
pub open spec fn map_action_spec(
    board: BoardState,
    architect: Option<&ArchitectChoice>,
    chasing: bool,
    r5_applies: bool,
    valuation: Valuation,
) -> MapAction {
    match architect {
        Some(a) => if chasing && r5_applies && valuation.targets_line(a.line) && a.built_tier != Tier::T3
            && !rooms_reached(board.rooms, board.reach(), 13).contains((a.line, Tier::T3)) {
            MapAction::LeaveMap
        } else {
            MapAction::Continue
        },
        None => MapAction::Continue,
    }
}

/// R5 for the top recommendation's kill. `chasing` is whether the strategy is
/// in its chase mode; `r5_applies` whether the temple's setup leaves the
/// player the choice to leave.
pub fn map_action(
    board: &BoardState,
    architect: Option<&ArchitectChoice>,
    chasing: bool,
    r5_applies: bool,
    valuation: &Valuation,
) -> (r: MapAction)
    ensures
        r == map_action_spec(*board, architect, chasing, r5_applies, *valuation),
{
    if !chasing || !r5_applies {
        return MapAction::Continue;
    }
    let a = match architect {
        Some(a) => a,
        None => {
            return MapAction::Continue;
        },
    };
    if !valuation.is_target(valuation.tag(a.line)) {
        return MapAction::Continue;
    }
    if a.built_tier == Tier::T3 {
        return MapAction::Continue;
    }
    let connected = board.connected_rooms();
    let mut k: usize = 0;
    while k < connected.len()
        invariant
            k <= connected@.len(),
            connected@ == rooms_reached(board.rooms, board.reach(), 13),
            architect == Some(a),
            chasing && r5_applies,
            valuation.targets_line(a.line),
            a.built_tier != Tier::T3,
            forall|q: int| 0 <= q < k ==> #[trigger] connected@[q] != (a.line, Tier::T3),
        decreases connected@.len() - k,
    {
        let (line, tier) = connected[k];
        if line == a.line && tier == Tier::T3 {
            proof {
                assert(connected@[k as int] == (a.line, Tier::T3));
                assert(rooms_reached(board.rooms, board.reach(), 13).contains((a.line, Tier::T3)));
            }
            return MapAction::Continue;
        }
        k += 1;
    }
    MapAction::LeaveMap
}

/// A text the standard library's `Debug` formatting of a string gives: the
/// string quoted, with its special characters escaped.
pub uninterp spec fn debug_text(s: Seq<char>) -> Seq<char>;

/// `format!("{:?}", s)`: the standard library's `Debug` spelling of a string.
#[verifier::external_body]
fn debug_quoted(s: &str) -> (r: String)
    ensures
        r@ == debug_text(s@),
{
    format!("{:?}", s)
}

/// Something the caller should know about the read behind the advice.
#[derive(Debug, Clone, PartialEq)]
pub enum Warning {
    /// The panel was open between rooms: nothing to decide.
    NoPosition,
    /// No architect block resolved: only the door half is modelled.
    UnresolvedArchitects,
    /// Fewer architect blocks were read than the panel prints.
    PartialArchitects { read: usize, expected: usize },
    /// One architect's printed target did not resolve.
    UnresolvedOffer { printed: String },
    /// More keys than corridors worth opening.
    KeysUnspendable { keys: u8, usable: usize },
    /// The incursion budget was not legible.
    NoBudget,
    /// Nothing on screen named the current room's tier.
    UnknownCurrentTier,
    /// The side-panel title and the current plate named different rooms.
    CurrentRoomDisagreement { title: &'static str, plate: &'static str },
}

/// The one line the overlay prints for a warning.
pub open spec fn warning_text(w: Warning) -> Seq<char> {
    match w {
        Warning::NoPosition => "no current room on the panel — nothing to decide"@,
        Warning::UnresolvedArchitects =>
            "neither architect's target was readable; only the door advice is modelled"@,
        Warning::PartialArchitects { read, expected } => if read == 0 {
            "no architect block was read — the panel prints "@ + decimal(expected as nat)
                + ", so only the door advice is modelled"@
        } else {
            decimal(read as nat) + " of "@ + decimal(expected as nat) + " architects read — the kill shown is forced, not chosen"@
        },
        Warning::UnresolvedOffer { printed } => "architect target "@ + debug_text(printed@) + " is not a known room"@,
        Warning::KeysUnspendable { keys, usable } => decimal(keys as nat) + " keys but only "@ + decimal(usable as nat)
            + " corridors worth opening"@,
        Warning::NoBudget => "incursions remaining was not legible; scores reflect the board as it stands"@,
        Warning::UnknownCurrentTier => "current room tier unknown — cannot resolve a 'change' offer"@,
        Warning::CurrentRoomDisagreement { title, plate } => "the side panel says "@ + debug_text(title@)
            + " but the current plate says "@ + debug_text(plate@) + "; the plate is used"@,
    }
}

impl Warning {
    /// One line for the overlay.
    pub fn describe(&self) -> (r: String)
        ensures
            r@ == warning_text(*self),
    {
        match self {
            Warning::NoPosition => String::from_str("no current room on the panel — nothing to decide"),
            Warning::UnresolvedArchitects => String::from_str(
                "neither architect's target was readable; only the door advice is modelled",
            ),
            Warning::PartialArchitects { read, expected } => {
                if *read == 0 {
                    let mut out = String::from_str("no architect block was read — the panel prints ");
                    push_decimal(&mut out, *expected as u64);
                    out.append(", so only the door advice is modelled");
                    out
                } else {
                    let mut out = String::new();
                    push_decimal(&mut out, *read as u64);
                    out.append(" of ");
                    push_decimal(&mut out, *expected as u64);
                    out.append(" architects read — the kill shown is forced, not chosen");
                    proof {
                        assert(out@ =~= warning_text(*self));
                    }
                    out
                }
            },
            Warning::UnresolvedOffer { printed } => {
                let mut out = String::from_str("architect target ");
                out.append(debug_quoted(printed.as_str()).as_str());
                out.append(" is not a known room");
                out
            },
            Warning::KeysUnspendable { keys, usable } => {
                let mut out = String::new();
                push_decimal(&mut out, *keys as u64);
                out.append(" keys but only ");
                push_decimal(&mut out, *usable as u64);
                out.append(" corridors worth opening");
                proof {
                    assert(out@ =~= warning_text(*self));
                }
                out
            },
            Warning::NoBudget => String::from_str(
                "incursions remaining was not legible; scores reflect the board as it stands",
            ),
            Warning::UnknownCurrentTier => String::from_str(
                "current room tier unknown — cannot resolve a 'change' offer",
            ),
            Warning::CurrentRoomDisagreement { title, plate } => {
                let mut out = String::from_str("the side panel says ");
                out.append(debug_quoted(title).as_str());
                out.append(" but the current plate says ");
                out.append(debug_quoted(plate).as_str());
                out.append("; the plate is used");
                out
            },
        }
    }
}

/// The word for an offer kind.
pub open spec fn kind_text(kind: OfferKind) -> Seq<char> {
    match kind {
        OfferKind::Change => "change"@,
        OfferKind::Upgrade => "upgrade"@,
    }
}

/// The corridors of `es` as the page lists them, `", "` between.
pub open spec fn edges_text(es: Seq<Edge>) -> Seq<char>
    decreases es.len(),
{
    if es.len() == 0 {
        Seq::empty()
    } else if es.len() == 1 {
        edge_text(es[0])
    } else {
        edges_text(es.drop_last()) + ", "@ + edge_text(es.last())
    }
}

impl Decision {
    /// `"upgrade → Locus of Corruption"`, or `"kill either"` when no architect
    /// resolved.
    pub fn headline(&self) -> (r: String)
        ensures
            r@ == match self.architect {
                Some(a) => kind_text(a.kind) + " → "@ + a.display_name@,
                None => "kill either"@,
            },
    {
        match &self.architect {
            Some(a) => {
                let mut out = match a.kind {
                    OfferKind::Change => String::from_str("change"),
                    OfferKind::Upgrade => String::from_str("upgrade"),
                };
                out.append(" → ");
                out.append(a.display_name);
                out
            },
            None => String::from_str("kill either"),
        }
    }

    /// The corridors, `", "` between, or `"no door"`.
    pub fn doors_label(&self) -> (r: String)
        ensures
            r@ == if opens_nothing(self.doors) {
                "no door"@
            } else {
                edges_text(edge_list(self.doors))
            },
    {
        if self.doors.is_empty() {
            return String::from_str("no door");
        }
        let es = self.doors.edges();
        let mut out = String::new();
        let mut k: usize = 0;
        while k < es.len()
            invariant
                k <= es@.len(),
                out@ == edges_text(es@.take(k as int)),
            decreases es@.len() - k,
        {
            if k > 0 {
                out.append(", ");
            }
            out.append(es[k].to_string().as_str());
            proof {
                let t = es@.take(k + 1);
                assert(t.drop_last() =~= es@.take(k as int));
                assert(t.last() == es@[k as int]);
                if k == 0 {
                    assert(es@.take(0) =~= Seq::<Edge>::empty());
                }
            }
            k += 1;
        }
        proof {
            assert(es@.take(es@.len() as int) =~= es@);
        }
        out
    }
}


/// One option the rule layer has judged, before the rollout prices it: the
/// move, its two keys, every rule that fired with RV's own reason first, and
/// which side of RV it falls on.
#[derive(Debug)]
pub struct Judged {
    /// The move.
    pub option: Decision,
    /// How the door set ranks.
    pub door: DoorKey,
    /// How the kill ranks.
    pub architect_key: ArchKey,
    /// Every rule that fired, RV's first.
    pub reasons: Vec<Reason>,
    /// RV excluded it: a labelled gamble rather than a recommendation.
    pub gamble: bool,
}

/// Every legal move for the current room, judged by the rule chain.
#[derive(Debug)]
pub struct Judgement {
    /// The legal door sets; the same for every kill.
    pub door_sets: Vec<DoorSet>,
    /// Whether RV has an opinion on this board at all.
    pub connectable: bool,
    /// The most corridors any legal set opens.
    pub usable: usize,
    /// One row per kill, one entry per door set, both in order.
    pub options: Vec<Vec<Judged>>,
}

/// The kills the ranking weighs: each resolved architect, or one unnamed kill
/// when none resolved, so the door half is still advised.
pub open spec fn kill_choices(architects: Seq<ArchitectChoice>) -> Seq<Option<ArchitectChoice>> {
    if architects.len() == 0 {
        seq![None]
    } else {
        architects.map_values(|a: ArchitectChoice| Some(a))
    }
}

/// A kill, borrowed the way the rule chain reads it.
pub open spec fn chosen<'a>(c: &'a Option<ArchitectChoice>) -> Option<&'a ArchitectChoice> {
    match c {
        Some(a) => Some(a),
        None => None,
    }
}

/// The line a kill builds, if any.
pub open spec fn built_line(c: Option<ArchitectChoice>) -> Option<Line> {
    match c {
        Some(a) => Some(a.line),
        None => None,
    }
}

/// RV's own reason, which leads the option's list.
pub open spec fn rv_reasons(v: RvVerdict) -> Seq<Reason> {
    match v {
        RvVerdict::Allowed(Some(r)) => seq![r],
        RvVerdict::Allowed(None) => Seq::empty(),
        RvVerdict::Gamble(r) => seq![r],
    }
}

/// What the rule chain says of the kill `c` with the door set `d`.
pub open spec fn judged_as(
    board: BoardState,
    position: Slot,
    keys: u8,
    flags: RuleFlags,
    valuation: Valuation,
    connectable: bool,
    c: Option<ArchitectChoice>,
    d: DoorSet,
    o: Judged,
) -> bool {
    let rv = rv_spec(board, position, built_line(c), d, valuation, connectable);
    &&& o.option.architect == c
    &&& o.option.doors == d
    &&& o.door == door_key_spec(board, position, chosen(&c), d, valuation)
    &&& o.architect_key.0@ == arch_bytes(board, position, chosen(&c), valuation, flags)
    &&& o.gamble == (rv is Gamble)
    &&& o.reasons@ == rv_reasons(rv) + door_reasons(board, position, chosen(&c), d, keys, valuation) + arch_reasons(
        board,
        position,
        chosen(&c),
        valuation,
        flags,
    )
}

/// A kill, duplicated field by field.
pub(crate) fn copy_choice(a: &ArchitectChoice) -> (r: ArchitectChoice)
    ensures
        r == *a,
{
    ArchitectChoice {
        offer_index: a.offer_index,
        architect_name: a.architect_name.clone(),
        kind: a.kind,
        line: a.line,
        built_tier: a.built_tier,
        display_name: a.display_name,
    }
}

/// Judge one kill against every legal door set.
fn judge_kill(
    board: &BoardState,
    position: Slot,
    architect: Option<&ArchitectChoice>,
    sets: &Vec<DoorSet>,
    connectable: bool,
    keys: u8,
    flags: &RuleFlags,
    valuation: &Valuation,
) -> (r: Vec<Judged>)
    ensures
        r@.len() == sets@.len(),
        forall|j: int|
            0 <= j < sets@.len() ==> judged_as(
                *board,
                position,
                keys,
                *flags,
                *valuation,
                connectable,
                match architect {
                    Some(a) => Some(*a),
                    None => None,
                },
                sets@[j],
                #[trigger] r@[j],
            ),
{
    let ghost c = match architect {
        Some(a) => Some(*a),
        None => None::<ArchitectChoice>,
    };
    assert(chosen(&c) == architect);
    let mut row: Vec<Judged> = Vec::new();
    let mut j: usize = 0;
    while j < sets.len()
        invariant
            j <= sets@.len(),
            row@.len() == j,
            c == match architect {
                Some(a) => Some(*a),
                None => None,
            },
            chosen(&c) == architect,
            forall|q: int|
                0 <= q < j ==> judged_as(
                    *board,
                    position,
                    keys,
                    *flags,
                    *valuation,
                    connectable,
                    c,
                    sets@[q],
                    #[trigger] row@[q],
                ),
        decreases sets@.len() - j,
    {
        let doors = sets[j];
        let verdict = evaluate_rules(board, position, architect, &doors, keys, flags, valuation);
        let becomes = match architect {
            Some(a) => Some(a.line),
            None => None,
        };
        let rv = rv_verdict(board, position, becomes, &doors, valuation, connectable);
        let mut reasons: Vec<Reason> = Vec::new();
        let gamble = match rv {
            RvVerdict::Allowed(Some(reason)) => {
                reasons.push(reason);
                false
            },
            RvVerdict::Allowed(None) => false,
            RvVerdict::Gamble(reason) => {
                reasons.push(reason);
                true
            },
        };
        let ghost lead = reasons@;
        let mut rest = verdict.reasons;
        reasons.append(&mut rest);
        let kill = match architect {
            Some(a) => Some(copy_choice(a)),
            None => None,
        };
        let judged = Judged {
            option: Decision { architect: kill, doors },
            door: verdict.door,
            architect_key: verdict.architect,
            reasons,
            gamble,
        };
        proof {
            assert(lead =~= rv_reasons(rv));
            assert(judged.reasons@ =~= rv_reasons(rv) + door_reasons(*board, position, chosen(&c), doors, keys, *valuation)
                + arch_reasons(*board, position, chosen(&c), *valuation, *flags));
            assert(judged_as(*board, position, keys, *flags, *valuation, connectable, c, sets@[j as int], judged));
        }
        row.push(judged);
        j += 1;
    }
    row
}

/// The most corridors any of `sets` opens, and the first set that opens as
/// many.
fn most_opened(sets: &Vec<DoorSet>) -> (r: (usize, usize))
    requires
        sets@.len() >= 1,
    ensures
        r.1 < sets@.len(),
        sets@[r.1 as int].size() == r.0,
        forall|j: int| 0 <= j < sets@.len() ==> (#[trigger] sets@[j]).size() <= r.0,
{
    let mut n: usize = sets[0].len();
    let mut at: usize = 0;
    let mut j: usize = 1;
    while j < sets.len()
        invariant
            1 <= j <= sets@.len(),
            at < j,
            sets@[at as int].size() == n,
            forall|q: int| 0 <= q < j ==> (#[trigger] sets@[q]).size() <= n,
        decreases sets@.len() - j,
    {
        let m = sets[j].len();
        if m > n {
            n = m;
            at = j;
        }
        j += 1;
    }
    (n, at)
}

/// Judge every legal move for the room the player is standing in: each kill
/// (or one unnamed kill when no architect resolved) against each legal door
/// set, with RV's verdict settled once for the board.
pub fn judge_options(
    board: &BoardState,
    position: Slot,
    architects: &Vec<ArchitectChoice>,
    keys: u8,
    flags: &RuleFlags,
    valuation: &Valuation,
) -> (r: Judgement)
    ensures
        r.door_sets@.len() == door_sets_spec(*board, position, keys).len(),
        forall|j: int|
            0 <= j < r.door_sets@.len() ==> holds_exactly(
                #[trigger] r.door_sets@[j],
                door_sets_spec(*board, position, keys)[j],
            ),
        r.connectable == rv_connectable_spec(*board, position, r.door_sets@),
        forall|j: int| 0 <= j < r.door_sets@.len() ==> (#[trigger] r.door_sets@[j]).size() <= r.usable,
        exists|j: int| 0 <= j < r.door_sets@.len() && (#[trigger] r.door_sets@[j]).size() == r.usable,
        exists|j: int|
            #![trigger r.door_sets@[j]]
            0 <= j < r.door_sets@.len() && forall|i: int|
                0 <= i < r.options@.len() ==> !(#[trigger] r.options@[i])@[j].gamble,
        r.options@.len() == kill_choices(architects@).len(),
        forall|i: int| 0 <= i < r.options@.len() ==> (#[trigger] r.options@[i])@.len() == r.door_sets@.len(),
        forall|i: int, j: int|
            0 <= i < r.options@.len() && 0 <= j < r.door_sets@.len() ==> judged_as(
                *board,
                position,
                keys,
                *flags,
                *valuation,
                r.connectable,
                kill_choices(architects@)[i],
                r.door_sets@[j],
                #[trigger] r.options@[i]@[j],
            ),
{
    let sets = door_sets(board, position, keys);
    let connectable = rv_connectable(board, position, &sets);
    assert(sets@.len() >= 1) by {
        crate::rules::lemma_door_sets_shape(*board, position, keys);
    }
    let (usable, widest) = most_opened(&sets);
    let ghost choices = kill_choices(architects@);
    let mut options: Vec<Vec<Judged>> = Vec::new();
    if architects.len() == 0 {
        let row = judge_kill(board, position, None, &sets, connectable, keys, flags, valuation);
        options.push(row);
        assert(options@[0]@ == row@);
    } else {
        let mut i: usize = 0;
        while i < architects.len()
            invariant
                i <= architects@.len(),
                architects@.len() > 0,
                choices == kill_choices(architects@),
                options@.len() == i,
                forall|p: int| 0 <= p < i ==> (#[trigger] options@[p])@.len() == sets@.len(),
                forall|p: int, q: int|
                    0 <= p < i && 0 <= q < sets@.len() ==> judged_as(
                        *board,
                        position,
                        keys,
                        *flags,
                        *valuation,
                        connectable,
                        choices[p],
                        sets@[q],
                        #[trigger] options@[p]@[q],
                    ),
            decreases architects@.len() - i,
        {
            let row = judge_kill(board, position, Some(&architects[i]), &sets, connectable, keys, flags, valuation);
            assert(choices[i as int] == Some(architects@[i as int]));
            options.push(row);
            assert(options@[i as int]@ == row@);
            i += 1;
        }
    }
    let judged = Judgement { door_sets: sets, connectable, usable, options };
    assert(judged.door_sets@[widest as int].size() == judged.usable);
    proof {
        lemma_rv_leaves_a_safe_passage(*board, position, sets@, *valuation);
        let k = choose|k: int|
            #![trigger sets@[k]]
            0 <= k < sets@.len() && forall|becomes: Option<Line>|
                !(#[trigger] rv_spec(*board, position, becomes, sets@[k], *valuation, connectable) is Gamble);
        assert forall|i: int| 0 <= i < judged.options@.len() implies !(#[trigger] judged.options@[i])@[k].gamble by {
            assert(judged_as(
                *board,
                position,
                keys,
                *flags,
                *valuation,
                connectable,
                choices[i],
                sets@[k],
                judged.options@[i]@[k],
            ));
            assert(!(rv_spec(*board, position, built_line(choices[i]), sets@[k], *valuation, connectable) is Gamble));
        }
        assert(judged.door_sets@[k] == sets@[k]);
    }
    judged
}

/// A built room of line `l` at tier `t` is among the rooms `reach` holds
/// below index `k` exactly when some slot of `reach` below `k` holds it.
proof fn lemma_rooms_reached_holds(rooms: [Room; 13], reach: u16, k: int, l: Line, t: Tier)
    requires
        0 <= k <= 13,
        t != Tier::T0,
    ensures
        rooms_reached(rooms, reach, k).contains((l, t)) <==> exists|s: int|
            0 <= s < k && crate::masks::holds(reach, s) && #[trigger] rooms[s] == (Some(l), t),
    decreases k,
{
    if k > 0 {
        lemma_rooms_reached_holds(rooms, reach, k - 1, l, t);
        let prev = rooms_reached(rooms, reach, k - 1);
        let now = rooms_reached(rooms, reach, k);
        let (line, tier) = rooms[k - 1];
        let kept = crate::masks::holds(reach, k - 1) && line is Some && tier != Tier::T0;
        if kept {
            assert(now == prev.push((line.unwrap(), tier)));
        } else {
            assert(now == prev);
        }
        if now.contains((l, t)) {
            let q = choose|q: int| 0 <= q < now.len() && now[q] == (l, t);
            if q < prev.len() {
                assert(now[q] == prev[q]);
                assert(prev.contains((l, t)));
            } else {
                assert(rooms[k - 1] == (Some(l), t));
            }
        }
        if exists|s: int| 0 <= s < k && crate::masks::holds(reach, s) && #[trigger] rooms[s] == (Some(l), t) {
            let s = choose|s: int| 0 <= s < k && crate::masks::holds(reach, s) && #[trigger] rooms[s] == (Some(l), t);
            if s < k - 1 {
                assert(prev.contains((l, t)));
                let q = choose|q: int| 0 <= q < prev.len() && prev[q] == (l, t);
                if kept {
                    assert(now[q] == prev[q]);
                }
                assert(now.contains((l, t)));
            } else {
                assert(now[now.len() - 1] == (l, t));
                assert(now.contains((l, t)));
            }
        }
    }
}

/// R5 leaves the map until the line is banked: chasing, with R5 in play and
/// a target line built short of tier 3, the map is left exactly when no slot
/// the Entrance reaches holds a tier-3 room of that line; a reached room of
/// the line at tier 1 or 2 banks nothing.
pub proof fn lemma_r5_leaves_until_banked(board: BoardState, a: ArchitectChoice, valuation: Valuation)
    requires
        valuation.targets_line(a.line),
        a.built_tier != Tier::T3,
    ensures
        (map_action_spec(board, Some(&a), true, true, valuation) == MapAction::LeaveMap) <==> !exists|s: int|
            0 <= s < 13 && crate::masks::holds(board.reach(), s) && #[trigger] board.rooms[s] == (
                Some(a.line),
                Tier::T3,
            ),
{
    lemma_rooms_reached_holds(board.rooms, board.reach(), 13, a.line, Tier::T3);
}


/// How many architect blocks the side panel always prints.
pub const ARCHITECTS_PER_PANEL: usize = 2;

/// `w` when `c` holds, nothing otherwise.
pub open spec fn warn_if(c: bool, w: Warning) -> Seq<Warning> {
    if c {
        seq![w]
    } else {
        Seq::empty()
    }
}

/// How one architect block's printed target resolved against the room
/// vocabulary.
#[derive(Debug, Clone, PartialEq)]
pub enum OfferOutcome {
    /// It names a room: the kill is modelled.
    Built,
    /// The printed target is no room the vocabulary knows.
    UnknownName { printed: String },
    /// A `change` whose built room depends on the current room's tier, which
    /// nothing on screen named.
    UnknownCurrentTier,
}

/// Whether any of the first `k` blocks failed on the current room's tier.
pub open spec fn tier_unknown_upto(offers: Seq<OfferOutcome>, k: int) -> bool
    decreases k,
{
    if k <= 0 {
        false
    } else {
        tier_unknown_upto(offers, k - 1) || offers[k - 1] is UnknownCurrentTier
    }
}

/// How many of the first `k` blocks resolved.
pub open spec fn resolved_upto(offers: Seq<OfferOutcome>, k: int) -> nat
    decreases k,
{
    if k <= 0 {
        0
    } else {
        resolved_upto(offers, k - 1) + if offers[k - 1] is Built {
            1nat
        } else {
            0nat
        }
    }
}

/// What resolving the first `k` blocks reports, in block order: each target
/// that names no room, and the unknown current tier once, where it first
/// comes.
pub open spec fn offer_warnings(offers: Seq<OfferOutcome>, k: int) -> Seq<Warning>
    decreases k,
{
    if k <= 0 {
        Seq::empty()
    } else {
        let before = offer_warnings(offers, k - 1);
        match offers[k - 1] {
            OfferOutcome::Built => before,
            OfferOutcome::UnknownName { printed } => before.push(Warning::UnresolvedOffer { printed }),
            OfferOutcome::UnknownCurrentTier => if tier_unknown_upto(offers, k - 1) {
                before
            } else {
                before.push(Warning::UnknownCurrentTier)
            },
        }
    }
}

/// What the read behind one decision leaves the player to know, in the order
/// the advice reports it: the budget; a disagreement between the panel title
/// and the current plate; then either the missing current room, which ends
/// the list, or a partial architect read, what resolving each block
/// reported, no resolved architect, and keys beyond the usable corridors.
pub open spec fn warnings_spec(
    remaining: u8,
    disagreement: Option<(&'static str, &'static str)>,
    position_known: bool,
    offers: Seq<OfferOutcome>,
    title_read: bool,
    keys: u8,
    usable: usize,
) -> Seq<Warning> {
    let head = warn_if(remaining == 0, Warning::NoBudget) + match disagreement {
        Some((title, plate)) => seq![Warning::CurrentRoomDisagreement { title, plate }],
        None => Seq::empty(),
    };
    let blocks = offers.len();
    let n = blocks as int;
    if !position_known {
        head + seq![Warning::NoPosition]
    } else {
        head + warn_if(
            blocks < ARCHITECTS_PER_PANEL && (blocks > 0 || title_read),
            Warning::PartialArchitects { read: blocks as usize, expected: ARCHITECTS_PER_PANEL },
        ) + offer_warnings(offers, n) + warn_if(
            resolved_upto(offers, n) == 0 && blocks > 0 && !tier_unknown_upto(offers, n),
            Warning::UnresolvedArchitects,
        ) + warn_if((usable as int) < (keys as int), Warning::KeysUnspendable { keys, usable })
    }
}

/// The warnings of one decision. `offers` holds how each architect block the
/// read produced resolved, in panel order, and `title_read` whether the panel
/// title read at all (the evidence the panel was on screen); `usable` is the
/// most corridors any legal door set opens (`Judgement::usable`).
pub fn read_warnings(
    board: &BoardState,
    disagreement: Option<(&'static str, &'static str)>,
    offers: &Vec<OfferOutcome>,
    title_read: bool,
    keys: u8,
    usable: usize,
) -> (r: Vec<Warning>)
    ensures
        r@ == warnings_spec(board.remaining, disagreement, board.position is Some, offers@, title_read, keys, usable),
{
    let mut out: Vec<Warning> = Vec::new();
    if board.remaining == 0 {
        out.push(Warning::NoBudget);
    }
    match disagreement {
        Some((title, plate)) => out.push(Warning::CurrentRoomDisagreement { title, plate }),
        None => {},
    }
    let ghost head = out@;
    assert(head =~= warn_if(board.remaining == 0, Warning::NoBudget) + match disagreement {
        Some((title, plate)) => seq![Warning::CurrentRoomDisagreement { title, plate }],
        None => Seq::<Warning>::empty(),
    });
    if board.position.is_none() {
        out.push(Warning::NoPosition);
        assert(out@ =~= head + seq![Warning::NoPosition]);
        return out;
    }
    let blocks = offers.len();
    let partial = blocks < ARCHITECTS_PER_PANEL && (blocks > 0 || title_read);
    if partial {
        out.push(Warning::PartialArchitects { read: blocks, expected: ARCHITECTS_PER_PANEL });
    }
    let ghost a = out@;
    let mut tier_unknown = false;
    let mut resolved: usize = 0;
    let mut k: usize = 0;
    while k < blocks
        invariant
            blocks == offers@.len(),
            k <= blocks,
            resolved <= k,
            out@ == a + offer_warnings(offers@, k as int),
            tier_unknown == tier_unknown_upto(offers@, k as int),
            resolved == resolved_upto(offers@, k as int),
        decreases blocks - k,
    {
        let ghost before = out@;
        match &offers[k] {
            OfferOutcome::Built => {
                resolved += 1;
            },
            OfferOutcome::UnknownName { printed } => {
                out.push(Warning::UnresolvedOffer { printed: printed.clone() });
            },
            OfferOutcome::UnknownCurrentTier => {
                if !tier_unknown {
                    out.push(Warning::UnknownCurrentTier);
                }
                tier_unknown = true;
            },
        }
        proof {
            assert(out@ =~= a + offer_warnings(offers@, k + 1));
        }
        k += 1;
    }
    let ghost b = out@;
    if resolved == 0 && blocks > 0 && !tier_unknown {
        out.push(Warning::UnresolvedArchitects);
    }
    let ghost c = out@;
    if usable < keys as usize {
        out.push(Warning::KeysUnspendable { keys, usable });
    }
    assert(a =~= head + warn_if(partial, Warning::PartialArchitects { read: blocks, expected: ARCHITECTS_PER_PANEL }));
    assert(c =~= b + warn_if(
        resolved_upto(offers@, blocks as int) == 0 && blocks > 0 && !tier_unknown_upto(offers@, blocks as int),
        Warning::UnresolvedArchitects,
    ));
    assert(out@ =~= c + warn_if((usable as int) < (keys as int), Warning::KeysUnspendable { keys, usable }));
    out
}

} // verus!
