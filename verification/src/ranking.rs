//! The order of the recommendations, in two stages that do not cross.
//!
//! 1. **The kill.** Each kill is priced by its best door set. A kill R4's
//!    carve-out vetoed sorts below every un-vetoed one whatever the expected
//!    value says; the rest go by expected value, and those within the noise
//!    margin of the leader are reordered by the architect rules.
//! 2. **The door set**, within each kill, by [`DoorKey`] with expected value
//!    breaking its ties.
//!
//! Expected values are floating point and are measured elsewhere; each option
//! comes in with two counts taken from them. Its *place* is how many options
//! have a strictly higher mean. Its *reach* is how many have a mean at or
//! above its own noise cutoff, its mean less the noise margin of its standard
//! error. Every decision of the ranking is made from those counts here.

use vstd::prelude::*;

use crate::advice::{copy_choice, Judged};
use crate::rules::{Decision, DoorKey, Reason};

verus! {

/// One recommendation, best first: the move, its position among the options
/// handed in, and the rules that put it where it is.
#[derive(Debug)]
pub struct Ranked {
    /// The move.
    pub option: Decision,
    /// Where the option stood in the list that was ranked.
    pub index: usize,
    /// Which rules put it here; `ExpectedValue` first where the expected value
    /// alone decided its kill's place.
    pub reasons: Vec<Reason>,
}

// ------------------------------------------------------------ the kills --

/// The kill an option spends: the index of its architect block, if any.
pub open spec fn kill_of(j: Judged) -> Option<usize> {
    match j.option.architect {
        Some(a) => Some(a.offer_index),
        None => None,
    }
}

/// The first option at or after `j` that spends kill `k`; `o.len()` if none.
pub open spec fn first_with(o: Seq<Judged>, k: Option<usize>, j: int) -> int
    decreases o.len() - j,
{
    if j >= o.len() {
        o.len() as int
    } else if kill_of(o[j]) == k {
        j
    } else {
        first_with(o, k, j + 1)
    }
}

/// The first option that spends kill `k`: kills are taken in first-seen
/// order.
pub open spec fn kill_rep(o: Seq<Judged>, k: Option<usize>) -> int {
    first_with(o, k, 0)
}

/// Among the first `m` options, the one that prices kill `k`: the best
/// place, the later one on a tie; `-1` if none spends it.
pub open spec fn best_upto(o: Seq<Judged>, place: Seq<u32>, k: Option<usize>, m: int) -> int
    decreases m,
{
    if m <= 0 {
        -1
    } else {
        let b = best_upto(o, place, k, m - 1);
        if kill_of(o[m - 1]) == k && (b < 0 || place[m - 1] <= place[b]) {
            m - 1
        } else {
            b
        }
    }
}

/// The option that prices kill `k`.
pub open spec fn kill_best(o: Seq<Judged>, place: Seq<u32>, k: Option<usize>) -> int {
    best_upto(o, place, k, o.len() as int)
}

/// Kill `k`'s place in expected-value order: its best option's.
pub open spec fn kill_place(o: Seq<Judged>, place: Seq<u32>, k: Option<usize>) -> int {
    place[kill_best(o, place, k)] as int
}

/// Kill `k`'s architect key: its best option's.
pub open spec fn kill_arch(o: Seq<Judged>, place: Seq<u32>, k: Option<usize>) -> Seq<u8> {
    o[kill_best(o, place, k)].architect_key.0@
}

/// Whether R4's carve-out vetoed kill `k`.
pub open spec fn kill_vetoed(o: Seq<Judged>, place: Seq<u32>, k: Option<usize>) -> bool {
    kill_arch(o, place, k)[0] == 0
}

/// Stage one's order on `(vetoed, place, first seen)`: un-vetoed first, then
/// the better place, then the kill seen first.
pub open spec fn stage_one_lt(v1: bool, p1: int, r1: int, v2: bool, p2: int, r2: int) -> bool {
    ||| !v1 && v2
    ||| v1 == v2 && p1 < p2
    ||| v1 == v2 && p1 == p2 && r1 < r2
}

/// Whether stage one puts kill `k1` before kill `k2`.
pub open spec fn kill_before(o: Seq<Judged>, place: Seq<u32>, k1: Option<usize>, k2: Option<usize>) -> bool {
    stage_one_lt(
        kill_vetoed(o, place, k1),
        kill_place(o, place, k1),
        kill_rep(o, k1),
        kill_vetoed(o, place, k2),
        kill_place(o, place, k2),
        kill_rep(o, k2),
    )
}

/// Among the first `m` options, one whose kill stage one puts first.
pub open spec fn leader_upto(o: Seq<Judged>, place: Seq<u32>, m: int) -> int
    decreases m,
{
    if m <= 1 {
        0
    } else {
        let l = leader_upto(o, place, m - 1);
        if kill_before(o, place, kill_of(o[m - 1]), kill_of(o[l])) {
            m - 1
        } else {
            l
        }
    }
}

/// The leading kill: the one stage one puts first.
pub open spec fn leader(o: Seq<Judged>, place: Seq<u32>) -> Option<usize> {
    kill_of(o[leader_upto(o, place, o.len() as int)])
}

/// Kill `k` clears the band's bar: vetoed exactly when the leader is, and
/// priced at or above the leader's noise cutoff.
pub open spec fn clears_bar(o: Seq<Judged>, place: Seq<u32>, reach: Seq<u32>, k: Option<usize>) -> bool {
    let l = leader(o, place);
    &&& kill_vetoed(o, place, k) == kill_vetoed(o, place, l)
    &&& kill_place(o, place, k) < reach[kill_best(o, place, l)]
}

/// Kill `k` lies in the noise band: it, and every kill stage one puts before
/// it, clears the bar.
pub open spec fn in_band(o: Seq<Judged>, place: Seq<u32>, reach: Seq<u32>, k: Option<usize>) -> bool {
    forall|h: int|
        0 <= h < o.len() && !kill_before(o, place, k, kill_of(o[h])) ==> #[trigger] clears_bar(
            o,
            place,
            reach,
            kill_of(o[h]),
        )
}

/// Whether option `i` is the first of its kill.
pub open spec fn heads_kill(o: Seq<Judged>, i: int) -> bool {
    kill_rep(o, kill_of(o[i])) == i
}

/// How many kills the first `m` options spend.
pub open spec fn kills_upto(o: Seq<Judged>, m: int) -> nat
    decreases m,
{
    if m <= 0 {
        0
    } else {
        kills_upto(o, m - 1) + if heads_kill(o, m - 1) {
            1nat
        } else {
            0nat
        }
    }
}

/// How many kills first seen among the first `m` options lie in the band.
pub open spec fn band_upto(o: Seq<Judged>, place: Seq<u32>, reach: Seq<u32>, m: int) -> nat
    decreases m,
{
    if m <= 0 {
        0
    } else {
        band_upto(o, place, reach, m - 1) + if heads_kill(o, m - 1) && in_band(o, place, reach, kill_of(o[m - 1])) {
            1nat
        } else {
            0nat
        }
    }
}

/// Whether the expected value alone decided where kill `k` stands: it lies
/// outside the band, or it is the band's only kill among several. A band
/// that holds every kill says the rollout had no opinion.
pub open spec fn ev_decided(o: Seq<Judged>, place: Seq<u32>, reach: Seq<u32>, k: Option<usize>) -> bool {
    let n = o.len() as int;
    ||| !in_band(o, place, reach, k)
    ||| band_upto(o, place, reach, n) == 1 && kills_upto(o, n) > 1
}

// -------------------------------------------------------------- the keys --

/// Stage one's key for kill `k`, least first: the band before the rest, the
/// band by architect key descending, then vetoed, place and first seen.
pub open spec fn kill_key(o: Seq<Judged>, place: Seq<u32>, reach: Seq<u32>, k: Option<usize>) -> Seq<int> {
    let band = in_band(o, place, reach, k);
    let a = kill_arch(o, place, k);
    seq![
        if band { 0int } else { 1int },
        if band { 255 - a[0] } else { 0int },
        if band { 255 - a[1] } else { 0int },
        if band { 255 - a[2] } else { 0int },
        if band { 255 - a[3] } else { 0int },
        if band { 255 - a[4] } else { 0int },
        if kill_vetoed(o, place, k) { 1int } else { 0int },
        kill_place(o, place, k),
        kill_rep(o, k),
    ]
}

/// Stage two's key for option `i`, least first: the door key descending field
/// by field, then the option's own place, then its position.
pub open spec fn option_key(o: Seq<Judged>, place: Seq<u32>, i: int) -> Seq<int> {
    let d = o[i].door;
    seq![
        255 - d.connects_value,
        255 - d.ru_ok,
        255 - d.r1_apex,
        255 - d.opens,
        0x7fff_ffff - d.r2,
        0x7fff_ffff - d.r1_gradient,
        0x7fff_ffff - d.rs,
        place[i] as int,
        i,
    ]
}

/// Option `i`'s whole key: its kill's, then its own.
pub open spec fn rank_key(o: Seq<Judged>, place: Seq<u32>, reach: Seq<u32>, i: int) -> Seq<int> {
    kill_key(o, place, reach, kill_of(o[i])) + option_key(o, place, i)
}

/// Lexicographic order on equally long keys, from component `t` on.
pub open spec fn lex_from(a: Seq<int>, b: Seq<int>, t: int) -> bool
    decreases a.len() - t,
{
    if t >= a.len() || t < 0 {
        false
    } else if a[t] < b[t] {
        true
    } else if a[t] > b[t] {
        false
    } else {
        lex_from(a, b, t + 1)
    }
}

/// Whether the ranking puts option `i` before option `j`.
pub open spec fn rank_before(o: Seq<Judged>, place: Seq<u32>, reach: Seq<u32>, i: int, j: int) -> bool {
    lex_from(rank_key(o, place, reach, i), rank_key(o, place, reach, j), 0)
}

/// Option `i`'s reasons as ranked: `ExpectedValue` first where the expected
/// value alone decided its kill's place.
pub open spec fn ranked_reasons(o: Seq<Judged>, place: Seq<u32>, reach: Seq<u32>, i: int) -> Seq<Reason> {
    if ev_decided(o, place, reach, kill_of(o[i])) {
        seq![Reason::ExpectedValue] + o[i].reasons@
    } else {
        o[i].reasons@
    }
}

// ---------------------------------------------------------- the lemmas --

/// Past the end of equally long heads, two concatenations compare as their tails.
proof fn lemma_lex_shift(x: Seq<int>, y: Seq<int>, x2: Seq<int>, y2: Seq<int>, s: int)
    requires
        x.len() == x2.len(),
        y.len() == y2.len(),
        0 <= s <= y.len(),
    ensures
        lex_from(x + y, x2 + y2, x.len() + s) == lex_from(y, y2, s),
    decreases y.len() - s,
{
    if s < y.len() {
        lemma_lex_shift(x, y, x2, y2, s + 1);
    }
}

/// Concatenations compare by their heads where those differ, else by their tails.
proof fn lemma_lex_concat(a: Seq<int>, b: Seq<int>, a2: Seq<int>, b2: Seq<int>, t: int)
    requires
        a.len() == a2.len(),
        b.len() == b2.len(),
        0 <= t <= a.len(),
    ensures
        (forall|s: int| t <= s < a.len() ==> a[s] == a2[s]) ==> lex_from(a + b, a2 + b2, t) == lex_from(b, b2, 0),
        (exists|s: int| t <= s < a.len() && a[s] != a2[s]) ==> lex_from(a + b, a2 + b2, t) == lex_from(a, a2, t),
    decreases a.len() - t,
{
    if t == a.len() {
        lemma_lex_shift(a, b, a2, b2, 0);
    } else {
        lemma_lex_concat(a, b, a2, b2, t + 1);
        assert((a + b)[t] == a[t] && (a2 + b2)[t] == a2[t]);
        if a[t] == a2[t] {
            assert((exists|s: int| t <= s < a.len() && a[s] != a2[s]) ==> (exists|s: int|
                t + 1 <= s < a.len() && a[s] != a2[s]));
        }
    }
}

/// The lexicographic order is transitive.
proof fn lemma_lex_trans(a: Seq<int>, b: Seq<int>, c: Seq<int>, t: int)
    requires
        a.len() == b.len() == c.len(),
        lex_from(a, b, t),
        lex_from(b, c, t),
    ensures
        lex_from(a, c, t),
    decreases a.len() - t,
{
    if 0 <= t < a.len() && a[t] == b[t] && b[t] == c[t] {
        lemma_lex_trans(a, b, c, t + 1);
    }
}

/// The lexicographic order is asymmetric.
proof fn lemma_lex_asym(a: Seq<int>, b: Seq<int>, t: int)
    requires
        a.len() == b.len(),
        lex_from(a, b, t),
    ensures
        !lex_from(b, a, t),
    decreases a.len() - t,
{
    if 0 <= t < a.len() && a[t] == b[t] {
        lemma_lex_asym(a, b, t + 1);
    }
}

/// Keys that differ in their last component are ordered one way or the other.
proof fn lemma_lex_total(a: Seq<int>, b: Seq<int>, t: int)
    requires
        a.len() == b.len(),
        0 <= t < a.len(),
        a[a.len() - 1] != b[a.len() - 1],
    ensures
        lex_from(a, b, t) || lex_from(b, a, t),
    decreases a.len() - t,
{
    if a[t] == b[t] {
        lemma_lex_total(a, b, t + 1);
    }
}

/// Between `a` and `c` in the order, `b` agrees with both wherever they agree
/// from `t` up to `m`.
proof fn lemma_lex_between(a: Seq<int>, b: Seq<int>, c: Seq<int>, t: int, m: int)
    requires
        a.len() == b.len() == c.len(),
        0 <= t <= m <= a.len(),
        lex_from(a, b, t),
        lex_from(b, c, t),
        forall|s: int| t <= s < m ==> a[s] == c[s],
    ensures
        forall|s: int| t <= s < m ==> b[s] == a[s],
    decreases m - t,
{
    if t < m {
        assert(a[t] == c[t]);
        assert(b[t] == a[t]);
        lemma_lex_between(a, b, c, t + 1, m);
    }
}

/// The first option spending `k` at or after `j` exists once option `i` spends it.
proof fn lemma_first_with(o: Seq<Judged>, k: Option<usize>, j: int, i: int)
    requires
        0 <= j <= i < o.len(),
        kill_of(o[i]) == k,
    ensures
        j <= first_with(o, k, j) <= i,
        kill_of(o[first_with(o, k, j)]) == k,
    decreases i - j,
{
    if kill_of(o[j]) != k {
        lemma_first_with(o, k, j + 1, i);
    }
}

/// The pricing option is one of the kill's own, found once the kill is spent.
proof fn lemma_best_upto(o: Seq<Judged>, place: Seq<u32>, k: Option<usize>, m: int)
    requires
        0 <= m <= o.len(),
    ensures
        best_upto(o, place, k, m) < m,
        best_upto(o, place, k, m) >= 0 ==> kill_of(o[best_upto(o, place, k, m)]) == k,
        best_upto(o, place, k, m) >= -1,
        (exists|i: int| 0 <= i < m && kill_of(o[i]) == k) ==> best_upto(o, place, k, m) >= 0,
    decreases m,
{
    if m > 0 {
        lemma_best_upto(o, place, k, m - 1);
        if exists|i: int| 0 <= i < m && kill_of(o[i]) == k {
            let i = choose|i: int| 0 <= i < m && kill_of(o[i]) == k;
            if i < m - 1 {
                assert(exists|i: int| 0 <= i < m - 1 && kill_of(o[i]) == k);
            }
        }
    }
}

/// Every spent kill is priced by one of its own options, and heads its list
/// at its first one.
proof fn lemma_kill_members(o: Seq<Judged>, place: Seq<u32>, i: int)
    requires
        0 <= i < o.len(),
    ensures
        0 <= kill_best(o, place, kill_of(o[i])) < o.len(),
        kill_of(o[kill_best(o, place, kill_of(o[i]))]) == kill_of(o[i]),
        0 <= kill_rep(o, kill_of(o[i])) <= i,
        kill_of(o[kill_rep(o, kill_of(o[i]))]) == kill_of(o[i]),
{
    lemma_first_with(o, kill_of(o[i]), 0, i);
    lemma_best_upto(o, place, kill_of(o[i]), o.len() as int);
}

/// No option among the first `m` has a kill stage one puts before the leader's.
proof fn lemma_leader_upto(o: Seq<Judged>, place: Seq<u32>, m: int)
    requires
        1 <= m <= o.len(),
    ensures
        0 <= leader_upto(o, place, m) < m,
        forall|j: int| 0 <= j < m ==> !kill_before(o, place, #[trigger] kill_of(o[j]), kill_of(o[leader_upto(o, place, m)])),
    decreases m,
{
    if m > 1 {
        lemma_leader_upto(o, place, m - 1);
        let l = leader_upto(o, place, m - 1);
        if kill_before(o, place, kill_of(o[m - 1]), kill_of(o[l])) {
            assert forall|j: int| 0 <= j < m implies !kill_before(o, place, #[trigger] kill_of(o[j]), kill_of(o[m - 1])) by {
                if j < m - 1 {
                    assert(!kill_before(o, place, kill_of(o[j]), kill_of(o[l])));
                }
            }
        }
    }
}

// ------------------------------------------------------------ the ranking --

/// Whether option `i` stands somewhere in `r`.
pub open spec fn lists(r: Seq<Ranked>, i: int) -> bool {
    exists|p: int| 0 <= p < r.len() && (#[trigger] r[p]).index == i
}

/// Whether `r` lists the options `o`, each once, in the ranking's order, each
/// with its move and its reasons as ranked.
pub open spec fn ranked_list(o: Seq<Judged>, place: Seq<u32>, reach: Seq<u32>, r: Seq<Ranked>) -> bool {
    &&& r.len() == o.len()
    &&& forall|p: int| 0 <= p < r.len() ==> (#[trigger] r[p]).index < o.len()
    &&& forall|i: int| 0 <= i < o.len() ==> #[trigger] lists(r, i)
    &&& forall|p: int| 0 <= p < r.len() ==> (#[trigger] r[p]).option == o[r[p].index as int].option
    &&& forall|p: int| 0 <= p < r.len() ==> (#[trigger] r[p]).reasons@ == ranked_reasons(o, place, reach, r[p].index as int)
    &&& forall|p: int, q: int|
        0 <= p < q < r.len() ==> rank_before(o, place, reach, #[trigger] r[p].index as int, #[trigger] r[q].index as int)
}

/// Whether each kill's options stand together in `r`.
pub open spec fn kills_together(o: Seq<Judged>, r: Seq<Ranked>) -> bool {
    forall|p: int, q: int, s: int|
        0 <= p < q < s < r.len() && kill_of(o[#[trigger] r[p].index as int]) == kill_of(o[#[trigger] r[s].index as int])
            ==> kill_of(o[#[trigger] r[q].index as int]) == kill_of(o[r[p].index as int])
}

/// Whether no option of a vetoed kill stands before one of an un-vetoed kill
/// in `r`.
pub open spec fn vetoed_after(o: Seq<Judged>, place: Seq<u32>, r: Seq<Ranked>) -> bool {
    forall|p: int, q: int|
        0 <= p < q < r.len() && kill_vetoed(o, place, kill_of(o[#[trigger] r[p].index as int])) ==> kill_vetoed(
            o,
            place,
            kill_of(o[#[trigger] r[q].index as int]),
        )
}

/// A key as integers.
spec fn ints(s: Seq<u64>) -> Seq<int> {
    s.map_values(|v: u64| v as int)
}

/// What stage one reads of each option's kill.
struct KillTable {
    rep: Vec<usize>,
    best: Vec<usize>,
    vetoed: Vec<bool>,
    place: Vec<u32>,
}

/// Whether `t` holds, for each option, its kill's first option, pricing option,
/// veto and place.
spec fn tabulates(t: KillTable, o: Seq<Judged>, place: Seq<u32>) -> bool {
    &&& t.rep@.len() == o.len()
    &&& t.best@.len() == o.len()
    &&& t.vetoed@.len() == o.len()
    &&& t.place@.len() == o.len()
    &&& forall|i: int| 0 <= i < o.len() ==> #[trigger] t.rep@[i] == kill_rep(o, kill_of(o[i]))
    &&& forall|i: int| 0 <= i < o.len() ==> #[trigger] t.best@[i] == kill_best(o, place, kill_of(o[i]))
    &&& forall|i: int| 0 <= i < o.len() ==> #[trigger] t.vetoed@[i] == kill_vetoed(o, place, kill_of(o[i]))
    &&& forall|i: int| 0 <= i < o.len() ==> #[trigger] t.place@[i] == kill_place(o, place, kill_of(o[i]))
}

/// Whether two options spend the same kill.
fn same_kill(a: &Judged, b: &Judged) -> (r: bool)
    ensures
        r == (kill_of(*a) == kill_of(*b)),
{
    match (&a.option.architect, &b.option.architect) {
        (Some(x), Some(y)) => x.offer_index == y.offer_index,
        (None, None) => true,
        _ => false,
    }
}

/// Stage one's order on two kills' `(vetoed, place, first seen)`.
fn stage_one(v1: bool, p1: u32, r1: usize, v2: bool, p2: u32, r2: usize) -> (r: bool)
    ensures
        r == stage_one_lt(v1, p1 as int, r1 as int, v2, p2 as int, r2 as int),
{
    (!v1 && v2) || (v1 == v2 && p1 < p2) || (v1 == v2 && p1 == p2 && r1 < r2)
}

/// The first option of option `i`'s kill.
fn rep_of(o: &Vec<Judged>, i: usize) -> (r: usize)
    requires
        i < o@.len(),
    ensures
        r == kill_rep(o@, kill_of(o@[i as int])),
{
    let ghost k = kill_of(o@[i as int]);
    let mut j: usize = 0;
    while j < i && !same_kill(&o[j], &o[i])
        invariant
            j <= i < o@.len(),
            k == kill_of(o@[i as int]),
            first_with(o@, k, j as int) == first_with(o@, k, 0),
        decreases i - j,
    {
        j += 1;
    }
    j
}

/// The option that prices option `i`'s kill.
fn best_of(o: &Vec<Judged>, place: &Vec<u32>, i: usize) -> (r: usize)
    requires
        i < o@.len(),
        place@.len() == o@.len(),
    ensures
        r == kill_best(o@, place@, kill_of(o@[i as int])),
{
    let ghost k = kill_of(o@[i as int]);
    let mut b: usize = 0;
    let mut found = false;
    let mut m: usize = 0;
    while m < o.len()
        invariant
            m <= o@.len(),
            i < o@.len(),
            place@.len() == o@.len(),
            k == kill_of(o@[i as int]),
            (if found { b as int } else { -1 }) == best_upto(o@, place@, k, m as int),
            found ==> b < m,
            i < m ==> found,
        decreases o@.len() - m,
    {
        proof {
            lemma_best_upto(o@, place@, k, m as int);
        }
        if same_kill(&o[m], &o[i]) && (!found || place[m] <= place[b]) {
            b = m;
            found = true;
        }
        m += 1;
    }
    b
}

/// What stage one reads of every option's kill.
fn tabulate(o: &Vec<Judged>, place: &Vec<u32>) -> (t: KillTable)
    requires
        place@.len() == o@.len(),
    ensures
        tabulates(t, o@, place@),
{
    let mut t = KillTable { rep: Vec::new(), best: Vec::new(), vetoed: Vec::new(), place: Vec::new() };
    let mut i: usize = 0;
    while i < o.len()
        invariant
            i <= o@.len(),
            place@.len() == o@.len(),
            t.rep@.len() == i,
            t.best@.len() == i,
            t.vetoed@.len() == i,
            t.place@.len() == i,
            forall|j: int| 0 <= j < i ==> #[trigger] t.rep@[j] == kill_rep(o@, kill_of(o@[j])),
            forall|j: int| 0 <= j < i ==> #[trigger] t.best@[j] == kill_best(o@, place@, kill_of(o@[j])),
            forall|j: int| 0 <= j < i ==> #[trigger] t.vetoed@[j] == kill_vetoed(o@, place@, kill_of(o@[j])),
            forall|j: int| 0 <= j < i ==> #[trigger] t.place@[j] == kill_place(o@, place@, kill_of(o@[j])),
        decreases o@.len() - i,
    {
        proof {
            lemma_kill_members(o@, place@, i as int);
        }
        let b = best_of(o, place, i);
        t.rep.push(rep_of(o, i));
        t.best.push(b);
        t.vetoed.push(o[b].architect_key.0[0] == 0);
        t.place.push(place[b]);
        i += 1;
    }
    t
}

/// The first option of the kill stage one puts first.
fn leader_of(o: &Vec<Judged>, place: &Vec<u32>, t: &KillTable) -> (l: usize)
    requires
        o@.len() >= 1,
        place@.len() == o@.len(),
        tabulates(*t, o@, place@),
    ensures
        l == leader_upto(o@, place@, o@.len() as int),
        l < o@.len(),
{
    let mut l: usize = 0;
    let mut m: usize = 1;
    while m < o.len()
        invariant
            1 <= m <= o@.len(),
            place@.len() == o@.len(),
            tabulates(*t, o@, place@),
            l == leader_upto(o@, place@, m as int),
            l < m,
        decreases o@.len() - m,
    {
        if stage_one(t.vetoed[m], t.place[m], t.rep[m], t.vetoed[l], t.place[l], t.rep[l]) {
            l = m;
        }
        m += 1;
    }
    l
}

/// Whether option `i`'s kill lies in the band led by option `l`'s kill.
fn band_of(o: &Vec<Judged>, place: &Vec<u32>, reach: &Vec<u32>, t: &KillTable, l: usize, i: usize) -> (r: bool)
    requires
        i < o@.len(),
        place@.len() == o@.len(),
        reach@.len() == o@.len(),
        tabulates(*t, o@, place@),
        l == leader_upto(o@, place@, o@.len() as int),
        l < o@.len(),
    ensures
        r == in_band(o@, place@, reach@, kill_of(o@[i as int])),
{
    let ghost k = kill_of(o@[i as int]);
    proof {
        lemma_kill_members(o@, place@, l as int);
    }
    let cutoff = reach[t.best[l]];
    let lv = t.vetoed[l];
    let mut ok = true;
    let mut h: usize = 0;
    while h < o.len()
        invariant
            h <= o@.len(),
            i < o@.len(),
            l < o@.len(),
            place@.len() == o@.len(),
            reach@.len() == o@.len(),
            tabulates(*t, o@, place@),
            l == leader_upto(o@, place@, o@.len() as int),
            k == kill_of(o@[i as int]),
            cutoff == reach@[kill_best(o@, place@, leader(o@, place@))],
            lv == kill_vetoed(o@, place@, leader(o@, place@)),
            ok == forall|g: int|
                0 <= g < h && !kill_before(o@, place@, k, kill_of(o@[g])) ==> #[trigger] clears_bar(
                    o@,
                    place@,
                    reach@,
                    kill_of(o@[g]),
                ),
        decreases o@.len() - h,
    {
        let before = stage_one(t.vetoed[i], t.place[i], t.rep[i], t.vetoed[h], t.place[h], t.rep[h]);
        let clears = t.vetoed[h] == lv && t.place[h] < cutoff;
        proof {
            assert(clears == clears_bar(o@, place@, reach@, kill_of(o@[h as int])));
            assert(before == kill_before(o@, place@, k, kill_of(o@[h as int])));
        }
        ok = ok && (before || clears);
        h += 1;
    }
    ok
}

/// The key of option `i`, component by component.
fn key_of(o: &Vec<Judged>, place: &Vec<u32>, reach: &Vec<u32>, t: &KillTable, band: bool, i: usize) -> (r: Vec<u64>)
    requires
        i < o@.len(),
        place@.len() == o@.len(),
        tabulates(*t, o@, place@),
        band == in_band(o@, place@, reach@, kill_of(o@[i as int])),
    ensures
        ints(r@) == rank_key(o@, place@, reach@, i as int),
{
    proof {
        lemma_kill_members(o@, place@, i as int);
    }
    let a = o[t.best[i]].architect_key.0;
    let d = o[i].door;
    let mut r: Vec<u64> = Vec::new();
    r.push(if band { 0 } else { 1 });
    let mut c: usize = 0;
    while c < 5
        invariant
            c <= 5,
            r@.len() == c + 1,
            r@[0] == (if band { 0u64 } else { 1u64 }),
            forall|s: int| 0 <= s < c ==> #[trigger] r@[s + 1] == (if band { 255 - a@[s] } else { 0 }),
        decreases 5 - c,
    {
        r.push(if band { 255 - a[c] as u64 } else { 0 });
        c += 1;
    }
    r.push(if t.vetoed[i] { 1 } else { 0 });
    r.push(t.place[i] as u64);
    r.push(t.rep[i] as u64);
    r.push(255 - d.connects_value as u64);
    r.push(255 - d.ru_ok as u64);
    r.push(255 - d.r1_apex as u64);
    r.push(255 - d.opens as u64);
    r.push((0x7fff_ffff - d.r2 as i64) as u64);
    r.push((0x7fff_ffff - d.r1_gradient as i64) as u64);
    r.push((0x7fff_ffff - d.rs as i64) as u64);
    r.push(place[i] as u64);
    r.push(i as u64);
    proof {
        let want = rank_key(o@, place@, reach@, i as int);
        assert(ints(r@).len() == 18);
        assert forall|s: int| 0 <= s < 18 implies #[trigger] ints(r@)[s] == want[s] by {
            if 1 <= s < 6 {
                assert(r@[(s - 1) + 1] == (if band { 255 - a@[s - 1] } else { 0 }));
            }
        }
        assert(ints(r@) =~= want);
    }
    r
}

/// Whether key `a` comes before key `b`.
fn key_lt(a: &Vec<u64>, b: &Vec<u64>) -> (r: bool)
    requires
        a@.len() == b@.len(),
    ensures
        r == lex_from(ints(a@), ints(b@), 0),
{
    let mut t: usize = 0;
    while t < a.len()
        invariant
            t <= a@.len(),
            a@.len() == b@.len(),
            lex_from(ints(a@), ints(b@), 0) == lex_from(ints(a@), ints(b@), t as int),
        decreases a@.len() - t,
    {
        if a[t] < b[t] {
            return true;
        }
        if a[t] > b[t] {
            return false;
        }
        t += 1;
    }
    false
}

/// A key has eighteen components and ends with the option's position.
proof fn lemma_rank_key_shape(o: Seq<Judged>, place: Seq<u32>, reach: Seq<u32>, i: int)
    ensures
        rank_key(o, place, reach, i).len() == 18,
        rank_key(o, place, reach, i)[17] == i,
{
}

/// The options' positions in the ranking's order.
fn rank_order(o: &Vec<Judged>, place: &Vec<u32>, reach: &Vec<u32>, keys: &Vec<Vec<u64>>) -> (r: Vec<usize>)
    requires
        keys@.len() == o@.len(),
        forall|i: int| 0 <= i < o@.len() ==> ints(#[trigger] keys@[i]@) == rank_key(o@, place@, reach@, i),
    ensures
        r@.len() == o@.len(),
        forall|p: int| 0 <= p < r@.len() ==> #[trigger] r@[p] < o@.len(),
        forall|i: int| 0 <= i < o@.len() ==> #[trigger] r@.contains(i as usize),
        forall|p: int, q: int| 0 <= p < q < r@.len() ==> rank_before(o@, place@, reach@, #[trigger] r@[p] as int, #[trigger] r@[q] as int),
{
    let mut order: Vec<usize> = Vec::new();
    let mut i: usize = 0;
    while i < keys.len()
        invariant
            i <= keys@.len(),
            keys@.len() == o@.len(),
            forall|j: int| 0 <= j < o@.len() ==> ints(#[trigger] keys@[j]@) == rank_key(o@, place@, reach@, j),
            order@.len() == i,
            forall|p: int| 0 <= p < order@.len() ==> #[trigger] order@[p] < i,
            forall|j: int| 0 <= j < i ==> #[trigger] order@.contains(j as usize),
            forall|p: int, q: int| 0 <= p < q < order@.len() ==> rank_before(o@, place@, reach@, #[trigger] order@[p] as int, #[trigger] order@[q] as int),
        decreases keys@.len() - i,
    {
        let ghost ki = rank_key(o@, place@, reach@, i as int);
        proof {
            lemma_rank_key_shape(o@, place@, reach@, i as int);
        }
        let mut p: usize = 0;
        while p < order.len()
            invariant
                p <= order@.len(),
                i < keys@.len(),
                keys@.len() == o@.len(),
                forall|j: int| 0 <= j < o@.len() ==> ints(#[trigger] keys@[j]@) == rank_key(o@, place@, reach@, j),
                forall|q: int| 0 <= q < order@.len() ==> #[trigger] order@[q] < i,
                forall|q: int| 0 <= q < p ==> rank_before(o@, place@, reach@, #[trigger] order@[q] as int, i as int),
            ensures
                p <= order@.len(),
                forall|q: int| 0 <= q < p ==> rank_before(o@, place@, reach@, #[trigger] order@[q] as int, i as int),
                p < order@.len() ==> !rank_before(o@, place@, reach@, order@[p as int] as int, i as int),
            decreases order@.len() - p,
        {
            let j = order[p];
            proof {
                lemma_rank_key_shape(o@, place@, reach@, j as int);
            }
            if !key_lt(&keys[j], &keys[i]) {
                break;
            }
            p += 1;
        }
        let ghost before = order@;
        proof {
            if p < before.len() {
                let j = before[p as int] as int;
                let kj = rank_key(o@, place@, reach@, j);
                lemma_rank_key_shape(o@, place@, reach@, j);
                assert(!rank_before(o@, place@, reach@, j, i as int));
                lemma_lex_total(kj, ki, 0);
                assert(rank_before(o@, place@, reach@, i as int, j));
                assert forall|q: int| p <= q < before.len() implies rank_before(o@, place@, reach@, i as int, #[trigger] before[q] as int) by {
                    if q > p {
                        lemma_lex_trans(ki, kj, rank_key(o@, place@, reach@, before[q] as int), 0);
                    }
                }
            }
        }
        order.insert(p, i);
        proof {
            assert forall|x: int, y: int| 0 <= x < y < order@.len() implies rank_before(o@, place@, reach@, #[trigger] order@[x] as int, #[trigger] order@[y] as int) by {
                if y < p {
                    assert(order@[x] == before[x] && order@[y] == before[y]);
                } else if y == p {
                    assert(order@[x] == before[x]);
                } else if x < p {
                    assert(order@[x] == before[x] && order@[y] == before[y - 1]);
                } else if x == p {
                    assert(order@[y] == before[y - 1]);
                } else {
                    assert(order@[x] == before[x - 1] && order@[y] == before[y - 1]);
                }
            }
            assert forall|j: int| 0 <= j < i + 1 implies #[trigger] order@.contains(j as usize) by {
                if j == i {
                    assert(order@[p as int] == i);
                } else {
                    assert(before.contains(j as usize));
                    let w = choose|w: int| 0 <= w < before.len() && before[w] == j as usize;
                    if w < p {
                        assert(order@[w] == j as usize);
                    } else {
                        assert(order@[w + 1] == j as usize);
                    }
                }
            }
        }
        i += 1;
    }
    order
}

/// Rank the options: the kill by expected value, the door set by the rule
/// chain, the two stages never crossing (see the module header). Option `i`
/// comes in with `ev_place[i]`, how many options have a strictly higher mean,
/// and `ev_reach[i]`, how many have a mean at or above its noise cutoff.
/// Every option comes back once, with its position in `options`, and
/// `Reason::ExpectedValue` leads its reasons where the expected value alone
/// decided its kill's place.
pub fn rank(options: Vec<Judged>, ev_place: &Vec<u32>, ev_reach: &Vec<u32>) -> (r: Vec<Ranked>)
    requires
        ev_place@.len() == options@.len(),
        ev_reach@.len() == options@.len(),
    ensures
        ranked_list(options@, ev_place@, ev_reach@, r@),
        kills_together(options@, r@),
        vetoed_after(options@, ev_place@, r@),
{
    let n = options.len();
    let mut out: Vec<Ranked> = Vec::new();
    if n == 0 {
        return out;
    }
    let o = &options;
    let t = tabulate(o, ev_place);
    let l = leader_of(o, ev_place, &t);
    let mut band: Vec<bool> = Vec::new();
    let mut kills: usize = 0;
    let mut in_band_kills: usize = 0;
    let mut i: usize = 0;
    while i < n
        invariant
            n == o@.len(),
            i <= n,
            ev_place@.len() == n,
            ev_reach@.len() == n,
            tabulates(t, o@, ev_place@),
            l == leader_upto(o@, ev_place@, n as int),
            l < n,
            band@.len() == i,
            forall|j: int| 0 <= j < i ==> #[trigger] band@[j] == in_band(o@, ev_place@, ev_reach@, kill_of(o@[j])),
            kills == kills_upto(o@, i as int),
            in_band_kills == band_upto(o@, ev_place@, ev_reach@, i as int),
            kills <= i,
            in_band_kills <= i,
        decreases n - i,
    {
        let b = band_of(o, ev_place, ev_reach, &t, l, i);
        if t.rep[i] == i {
            kills += 1;
            if b {
                in_band_kills += 1;
            }
        }
        band.push(b);
        i += 1;
    }
    let lone = in_band_kills == 1 && kills > 1;
    let mut keys: Vec<Vec<u64>> = Vec::new();
    let mut i: usize = 0;
    while i < n
        invariant
            n == o@.len(),
            i <= n,
            ev_place@.len() == n,
            tabulates(t, o@, ev_place@),
            band@.len() == n,
            forall|j: int| 0 <= j < n ==> #[trigger] band@[j] == in_band(o@, ev_place@, ev_reach@, kill_of(o@[j])),
            keys@.len() == i,
            forall|j: int| 0 <= j < i ==> ints(#[trigger] keys@[j]@) == rank_key(o@, ev_place@, ev_reach@, j),
        decreases n - i,
    {
        keys.push(key_of(o, ev_place, ev_reach, &t, band[i], i));
        i += 1;
    }
    let order = rank_order(o, ev_place, ev_reach, &keys);
    let mut p: usize = 0;
    while p < n
        invariant
            n == o@.len(),
            p <= n,
            order@.len() == n,
            band@.len() == n,
            forall|j: int| 0 <= j < n ==> #[trigger] band@[j] == in_band(o@, ev_place@, ev_reach@, kill_of(o@[j])),
            lone == (band_upto(o@, ev_place@, ev_reach@, n as int) == 1 && kills_upto(o@, n as int) > 1),
            forall|q: int| 0 <= q < n ==> #[trigger] order@[q] < n,
            out@.len() == p,
            forall|q: int| 0 <= q < p ==> (#[trigger] out@[q]).index == order@[q],
            forall|q: int| 0 <= q < p ==> (#[trigger] out@[q]).option == o@[order@[q] as int].option,
            forall|q: int| 0 <= q < p ==> (#[trigger] out@[q]).reasons@ == ranked_reasons(o@, ev_place@, ev_reach@, order@[q] as int),
        decreases n - p,
    {
        let idx = order[p];
        let src = &o[idx];
        let option = Decision {
            architect: match &src.option.architect {
                Some(a) => Some(copy_choice(a)),
                None => None,
            },
            doors: src.option.doors,
        };
        let mut reasons: Vec<Reason> = Vec::new();
        let ev = !band[idx] || lone;
        if ev {
            reasons.push(Reason::ExpectedValue);
        }
        let lead = reasons.len();
        let mut q: usize = 0;
        while q < src.reasons.len()
            invariant
                q <= src.reasons@.len(),
                lead <= 1,
                reasons@.len() == lead + q,
                reasons@.take(lead as int) == (if ev { seq![Reason::ExpectedValue] } else { Seq::<Reason>::empty() }),
                reasons@.skip(lead as int) == src.reasons@.take(q as int),
            decreases src.reasons@.len() - q,
        {
            let ghost before = reasons@;
            reasons.push(src.reasons[q]);
            proof {
                assert(reasons@.take(lead as int) =~= before.take(lead as int));
                assert(reasons@.skip(lead as int) =~= src.reasons@.take(q + 1));
            }
            q += 1;
        }
        proof {
            let want = ranked_reasons(o@, ev_place@, ev_reach@, idx as int);
            assert(src.reasons@.take(q as int) =~= src.reasons@);
            assert(reasons@ =~= reasons@.take(lead as int) + reasons@.skip(lead as int));
            assert(reasons@ =~= want);
        }
        out.push(Ranked { option, index: idx, reasons });
        p += 1;
    }
    proof {
        let r = out@;
        assert forall|i: int| 0 <= i < n implies #[trigger] lists(r, i) by {
            assert(order@.contains(i as usize));
            let w = choose|w: int| 0 <= w < order@.len() && order@[w] == i as usize;
            assert(r[w].index == i);
        }
        assert forall|p: int, q: int| 0 <= p < q < r.len() implies rank_before(o@, ev_place@, ev_reach@, #[trigger] r[p].index as int, #[trigger] r[q].index as int) by {
            assert(r[p].index == order@[p] && r[q].index == order@[q]);
        }
        assert(ranked_list(o@, ev_place@, ev_reach@, r));
        assert forall|p: int, q: int, s: int|
            0 <= p < q < s < r.len() && kill_of(o@[#[trigger] r[p].index as int]) == kill_of(o@[#[trigger] r[s].index as int])
            implies kill_of(o@[#[trigger] r[q].index as int]) == kill_of(o@[r[p].index as int]) by {
            assert(rank_before(o@, ev_place@, ev_reach@, r[p].index as int, r[q].index as int));
            assert(rank_before(o@, ev_place@, ev_reach@, r[q].index as int, r[s].index as int));
            lemma_kills_come_together(o@, ev_place@, ev_reach@, r[p].index as int, r[q].index as int, r[s].index as int);
        }
        assert forall|p: int, q: int|
            0 <= p < q < r.len() && kill_vetoed(o@, ev_place@, kill_of(o@[#[trigger] r[p].index as int]))
            implies kill_vetoed(o@, ev_place@, kill_of(o@[#[trigger] r[q].index as int])) by {
            let (ip, iq) = (r[p].index as int, r[q].index as int);
            assert(rank_before(o@, ev_place@, ev_reach@, ip, iq));
            if !kill_vetoed(o@, ev_place@, kill_of(o@[iq])) {
                lemma_vetoed_kills_come_last(o@, ev_place@, ev_reach@, iq, ip);
                lemma_rank_key_shape(o@, ev_place@, ev_reach@, ip);
                lemma_rank_key_shape(o@, ev_place@, ev_reach@, iq);
                lemma_lex_asym(rank_key(o@, ev_place@, ev_reach@, iq), rank_key(o@, ev_place@, ev_reach@, ip), 0);
            }
        }
    }
    out
}

// ------------------------------------------------------------- the laws --

/// The stages do not cross: between two options of different kills the
/// ranking is stage one's verdict on the kills, whichever door sets they
/// carry; within one kill it is stage two's verdict on the door sets.
pub proof fn lemma_stages_do_not_cross(o: Seq<Judged>, place: Seq<u32>, reach: Seq<u32>, i: int, j: int)
    requires
        0 <= i < o.len(),
        0 <= j < o.len(),
    ensures
        kill_of(o[i]) != kill_of(o[j]) ==> rank_before(o, place, reach, i, j) == lex_from(
            kill_key(o, place, reach, kill_of(o[i])),
            kill_key(o, place, reach, kill_of(o[j])),
            0,
        ),
        kill_of(o[i]) == kill_of(o[j]) ==> rank_before(o, place, reach, i, j) == lex_from(
            option_key(o, place, i),
            option_key(o, place, j),
            0,
        ),
{
    let (a, a2) = (kill_key(o, place, reach, kill_of(o[i])), kill_key(o, place, reach, kill_of(o[j])));
    lemma_lex_concat(a, option_key(o, place, i), a2, option_key(o, place, j), 0);
    if kill_of(o[i]) != kill_of(o[j]) {
        lemma_kill_members(o, place, i);
        lemma_kill_members(o, place, j);
        assert(a[8] != a2[8]);
    }
}

/// Between two options of one kill, the ranking puts only options of that
/// kill: each kill's options come together.
pub proof fn lemma_kills_come_together(o: Seq<Judged>, place: Seq<u32>, reach: Seq<u32>, i: int, m: int, j: int)
    requires
        0 <= i < o.len(),
        0 <= m < o.len(),
        0 <= j < o.len(),
        rank_before(o, place, reach, i, m),
        rank_before(o, place, reach, m, j),
        kill_of(o[i]) == kill_of(o[j]),
    ensures
        kill_of(o[m]) == kill_of(o[i]),
{
    let (a, b, c) = (rank_key(o, place, reach, i), rank_key(o, place, reach, m), rank_key(o, place, reach, j));
    lemma_lex_between(a, b, c, 0, 9);
    lemma_kill_members(o, place, i);
    lemma_kill_members(o, place, m);
    assert(b[8] == a[8]);
}

/// R4's carve-out outranks the rollout: every option of an un-vetoed kill
/// comes before every option of a vetoed one.
pub proof fn lemma_vetoed_kills_come_last(o: Seq<Judged>, place: Seq<u32>, reach: Seq<u32>, i: int, j: int)
    requires
        0 <= i < o.len(),
        0 <= j < o.len(),
        !kill_vetoed(o, place, kill_of(o[i])),
        kill_vetoed(o, place, kill_of(o[j])),
    ensures
        rank_before(o, place, reach, i, j),
{
    let n = o.len() as int;
    lemma_leader_upto(o, place, n);
    let l = leader(o, place);
    assert(!kill_before(o, place, kill_of(o[i]), l));
    assert(!kill_vetoed(o, place, l));
    let (ki, kj) = (kill_of(o[i]), kill_of(o[j]));
    assert(!in_band(o, place, reach, kj)) by {
        lemma_kill_members(o, place, j);
        let h = kill_rep(o, kj);
        assert(kill_of(o[h]) == kj);
        assert(!clears_bar(o, place, reach, kill_of(o[h])));
    }
    lemma_stages_do_not_cross(o, place, reach, i, j);
    let (a, b) = (kill_key(o, place, reach, ki), kill_key(o, place, reach, kj));
    reveal_with_fuel(lex_from, 8);
    assert(lex_from(a, b, 0));
}

/// Door key `a` ranks above `b`: field by field in the chain's order,
/// greater is better.
pub open spec fn door_above(a: DoorKey, b: DoorKey) -> bool {
    ||| a.connects_value > b.connects_value
    ||| a.connects_value == b.connects_value && a.ru_ok > b.ru_ok
    ||| a.connects_value == b.connects_value && a.ru_ok == b.ru_ok && a.r1_apex > b.r1_apex
    ||| a.connects_value == b.connects_value && a.ru_ok == b.ru_ok && a.r1_apex == b.r1_apex && a.opens > b.opens
    ||| a.connects_value == b.connects_value && a.ru_ok == b.ru_ok && a.r1_apex == b.r1_apex && a.opens == b.opens
        && a.r2 > b.r2
    ||| a.connects_value == b.connects_value && a.ru_ok == b.ru_ok && a.r1_apex == b.r1_apex && a.opens == b.opens
        && a.r2 == b.r2 && a.r1_gradient > b.r1_gradient
    ||| a.connects_value == b.connects_value && a.ru_ok == b.ru_ok && a.r1_apex == b.r1_apex && a.opens == b.opens
        && a.r2 == b.r2 && a.r1_gradient == b.r1_gradient && a.rs > b.rs
}

/// Architect key `a` ranks above `b`: byte by byte, greater is better.
pub open spec fn arch_above(a: Seq<u8>, b: Seq<u8>) -> bool {
    ||| a[0] > b[0]
    ||| a[0] == b[0] && a[1] > b[1]
    ||| a[0] == b[0] && a[1] == b[1] && a[2] > b[2]
    ||| a[0] == b[0] && a[1] == b[1] && a[2] == b[2] && a[3] > b[3]
    ||| a[0] == b[0] && a[1] == b[1] && a[2] == b[2] && a[3] == b[3] && a[4] > b[4]
}

/// Stage two: within one kill, the better door key comes first, and on equal
/// door keys the better place in expected-value order.
pub proof fn lemma_doors_rank_within_a_kill(o: Seq<Judged>, place: Seq<u32>, reach: Seq<u32>, i: int, j: int)
    requires
        0 <= i < o.len(),
        0 <= j < o.len(),
        kill_of(o[i]) == kill_of(o[j]),
    ensures
        door_above(o[i].door, o[j].door) ==> rank_before(o, place, reach, i, j),
        o[i].door == o[j].door && place[i] < place[j] ==> rank_before(o, place, reach, i, j),
{
    lemma_stages_do_not_cross(o, place, reach, i, j);
    reveal_with_fuel(lex_from, 9);
}

/// Stage one: a kill inside the noise band comes before every kill outside
/// it.
pub proof fn lemma_band_comes_first(o: Seq<Judged>, place: Seq<u32>, reach: Seq<u32>, i: int, j: int)
    requires
        0 <= i < o.len(),
        0 <= j < o.len(),
        in_band(o, place, reach, kill_of(o[i])),
        !in_band(o, place, reach, kill_of(o[j])),
    ensures
        rank_before(o, place, reach, i, j),
{
    lemma_stages_do_not_cross(o, place, reach, i, j);
    reveal_with_fuel(lex_from, 2);
}

/// Stage one: inside the noise band the architect rules order the kills, by
/// architect key descending.
pub proof fn lemma_band_goes_by_architect(o: Seq<Judged>, place: Seq<u32>, reach: Seq<u32>, i: int, j: int)
    requires
        0 <= i < o.len(),
        0 <= j < o.len(),
        in_band(o, place, reach, kill_of(o[i])),
        in_band(o, place, reach, kill_of(o[j])),
        arch_above(kill_arch(o, place, kill_of(o[i])), kill_arch(o, place, kill_of(o[j]))),
    ensures
        rank_before(o, place, reach, i, j),
{
    lemma_stages_do_not_cross(o, place, reach, i, j);
    reveal_with_fuel(lex_from, 7);
}

/// Stage one: outside the noise band the kills keep stage one's order,
/// un-vetoed first, then by expected value.
pub proof fn lemma_outside_the_band_ev_decides(o: Seq<Judged>, place: Seq<u32>, reach: Seq<u32>, i: int, j: int)
    requires
        0 <= i < o.len(),
        0 <= j < o.len(),
        kill_of(o[i]) != kill_of(o[j]),
        !in_band(o, place, reach, kill_of(o[i])),
        !in_band(o, place, reach, kill_of(o[j])),
    ensures
        rank_before(o, place, reach, i, j) == kill_before(o, place, kill_of(o[i]), kill_of(o[j])),
{
    lemma_stages_do_not_cross(o, place, reach, i, j);
    lemma_kill_members(o, place, i);
    lemma_kill_members(o, place, j);
    reveal_with_fuel(lex_from, 10);
}

} // verus!
