//! Slot sets as 16-bit masks, one bit per board index, and the bit-level
//! facts the graph code rests on.

use vstd::prelude::*;

verus! {

/// A set of slots, one bit per board index.
pub type SlotMask = u16;

/// Bit `i` of `m`.
pub open spec fn bit(m: u16, i: u16) -> bool {
    (m >> i) & 1u16 == 1u16
}

/// Whether the mask holds index `i`; false outside `0..16`.
pub open spec fn holds(m: u16, i: int) -> bool {
    0 <= i < 16 && bit(m, i as u16)
}

/// The mask as a predicate on board indices.
pub open spec fn mask_pred(m: u16) -> spec_fn(int) -> bool {
    |i: int| holds(m, i)
}

/// How many of the indices `0..k` the mask holds.
pub open spec fn count_below(m: u16, k: int) -> nat
    decreases k,
{
    if k <= 0 {
        0
    } else {
        count_below(m, k - 1) + if holds(m, k - 1) {
            1nat
        } else {
            0nat
        }
    }
}

/// How many slots the mask holds.
pub open spec fn popcount(m: u16) -> nat {
    count_below(m, 16)
}

proof fn lemma_bit_test(m: u16, i: u16)
    by (bit_vector)
    requires
        i < 16,
    ensures
        ((m & (1u16 << i)) != 0u16) == bit(m, i),
{
}

proof fn lemma_bit_or(a: u16, b: u16, i: u16)
    by (bit_vector)
    requires
        i < 16,
    ensures
        bit(a | b, i) == (bit(a, i) || bit(b, i)),
{
}

proof fn lemma_bit_and(a: u16, b: u16, i: u16)
    by (bit_vector)
    requires
        i < 16,
    ensures
        bit(a & b, i) == (bit(a, i) && bit(b, i)),
{
}

proof fn lemma_bit_not(a: u16, i: u16)
    by (bit_vector)
    requires
        i < 16,
    ensures
        bit(!a, i) == !bit(a, i),
{
}

proof fn lemma_bit_single(j: u16, i: u16)
    by (bit_vector)
    requires
        i < 16,
        j < 16,
    ensures
        bit(1u16 << j, i) == (i == j),
{
}

proof fn lemma_bit_zero(i: u16)
    by (bit_vector)
    requires
        i < 16,
    ensures
        !bit(0u16, i),
{
}

proof fn lemma_bits_determine(a: u16, b: u16)
    by (bit_vector)
    requires
        bit(a, 0) == bit(b, 0),
        bit(a, 1) == bit(b, 1),
        bit(a, 2) == bit(b, 2),
        bit(a, 3) == bit(b, 3),
        bit(a, 4) == bit(b, 4),
        bit(a, 5) == bit(b, 5),
        bit(a, 6) == bit(b, 6),
        bit(a, 7) == bit(b, 7),
        bit(a, 8) == bit(b, 8),
        bit(a, 9) == bit(b, 9),
        bit(a, 10) == bit(b, 10),
        bit(a, 11) == bit(b, 11),
        bit(a, 12) == bit(b, 12),
        bit(a, 13) == bit(b, 13),
        bit(a, 14) == bit(b, 14),
        bit(a, 15) == bit(b, 15),
    ensures
        a == b,
{
}

proof fn lemma_proper_superset_smaller_complement(small: u16, big: u16)
    by (bit_vector)
    requires
        small | big == big,
        small != big,
    ensures
        (!big) < (!small),
{
}

/// `m & (1 << i) != 0` tests index `i`.
pub proof fn lemma_holds_test(m: u16, i: u16)
    requires
        i < 16,
    ensures
        ((m & (1u16 << i)) != 0u16) == holds(m, i as int),
{
    lemma_bit_test(m, i);
}

/// Union of masks is union of slot sets.
pub proof fn lemma_holds_or(a: u16, b: u16)
    ensures
        forall|i: int| #[trigger] holds(a | b, i) == (holds(a, i) || holds(b, i)),
{
    assert forall|i: int| #[trigger] holds(a | b, i) == (holds(a, i) || holds(b, i)) by {
        if 0 <= i < 16 {
            lemma_bit_or(a, b, i as u16);
        }
    }
}

/// Intersection of masks is intersection of slot sets.
pub proof fn lemma_holds_and(a: u16, b: u16)
    ensures
        forall|i: int| #[trigger] holds(a & b, i) == (holds(a, i) && holds(b, i)),
{
    assert forall|i: int| #[trigger] holds(a & b, i) == (holds(a, i) && holds(b, i)) by {
        if 0 <= i < 16 {
            lemma_bit_and(a, b, i as u16);
        }
    }
}

/// Complement of a mask is complement of its slot set, within `0..16`.
pub proof fn lemma_holds_not(a: u16)
    ensures
        forall|i: int| 0 <= i < 16 ==> #[trigger] holds(!a, i) == !holds(a, i),
{
    assert forall|i: int| 0 <= i < 16 implies #[trigger] holds(!a, i) == !holds(a, i) by {
        lemma_bit_not(a, i as u16);
    }
}

/// `1 << j` holds exactly `j`.
pub proof fn lemma_holds_single(j: u16)
    requires
        j < 16,
    ensures
        forall|i: int| #[trigger] holds(1u16 << j, i) == (i == j),
{
    assert forall|i: int| #[trigger] holds(1u16 << j, i) == (i == j) by {
        if 0 <= i < 16 {
            lemma_bit_single(j, i as u16);
        }
    }
}

/// The empty mask holds nothing.
pub proof fn lemma_holds_zero()
    ensures
        forall|i: int| !#[trigger] holds(0u16, i),
{
    assert forall|i: int| !#[trigger] holds(0u16, i) by {
        if 0 <= i < 16 {
            lemma_bit_zero(i as u16);
        }
    }
}

/// Two masks that hold the same slots are equal.
pub proof fn lemma_holds_ext(a: u16, b: u16)
    requires
        forall|i: int| 0 <= i < 16 ==> #[trigger] holds(a, i) == holds(b, i),
    ensures
        a == b,
{
    assert(holds(a, 0) == holds(b, 0));
    assert(holds(a, 1) == holds(b, 1));
    assert(holds(a, 2) == holds(b, 2));
    assert(holds(a, 3) == holds(b, 3));
    assert(holds(a, 4) == holds(b, 4));
    assert(holds(a, 5) == holds(b, 5));
    assert(holds(a, 6) == holds(b, 6));
    assert(holds(a, 7) == holds(b, 7));
    assert(holds(a, 8) == holds(b, 8));
    assert(holds(a, 9) == holds(b, 9));
    assert(holds(a, 10) == holds(b, 10));
    assert(holds(a, 11) == holds(b, 11));
    assert(holds(a, 12) == holds(b, 12));
    assert(holds(a, 13) == holds(b, 13));
    assert(holds(a, 14) == holds(b, 14));
    assert(holds(a, 15) == holds(b, 15));
    lemma_bits_determine(a, b);
}

/// A nonzero mask holds something.
pub proof fn lemma_holds_nonzero(a: u16)
    requires
        a != 0,
    ensures
        exists|i: int| 0 <= i < 16 && #[trigger] holds(a, i),
{
    lemma_holds_zero();
    if forall|i: int| 0 <= i < 16 ==> !#[trigger] holds(a, i) {
        lemma_holds_ext(a, 0u16);
    }
}

/// Growing a mask by at least one slot shrinks its complement as a number.
pub proof fn lemma_growth_measure(small: u16, big: u16)
    requires
        forall|i: int| #[trigger] holds(small, i) ==> holds(big, i),
        small != big,
    ensures
        (!big) < (!small),
{
    lemma_holds_or(small, big);
    lemma_holds_ext(small | big, big);
    lemma_proper_superset_smaller_complement(small, big);
}

/// `count_below` never exceeds the range it counts over.
pub proof fn lemma_count_below_bound(m: u16, k: int)
    requires
        0 <= k,
    ensures
        count_below(m, k) <= k,
    decreases k,
{
    if k > 0 {
        lemma_count_below_bound(m, k - 1);
    }
}

/// Setting a bit that was clear adds one to the count.
pub proof fn lemma_count_add_bit(m: u16, bit: u16, b: int)
    requires
        0 <= b < 16,
        !holds(m, b),
        forall|i: int| #[trigger] holds(bit, i) == (i == b),
    ensures
        popcount(m | bit) == popcount(m) + 1,
{
    lemma_holds_or(m, bit);
    lemma_count_add_bit_below(m, bit, b, 16);
}

proof fn lemma_count_add_bit_below(m: u16, bit: u16, b: int, k: int)
    requires
        0 <= b < 16,
        0 <= k <= 16,
        !holds(m, b),
        forall|i: int| #[trigger] holds(bit, i) == (i == b),
        forall|i: int| #[trigger] holds(m | bit, i) == (holds(m, i) || holds(bit, i)),
    ensures
        k <= b ==> count_below(m | bit, k) == count_below(m, k),
        k > b ==> count_below(m | bit, k) == count_below(m, k) + 1,
    decreases k,
{
    if k > 0 {
        lemma_count_add_bit_below(m, bit, b, k - 1);
    }
}

/// The single-bit mask of board index `index`.
pub fn mask_bit(index: usize) -> (r: u16)
    requires
        index < 16,
    ensures
        r == (1u16 << (index as u16)),
        forall|i: int| #[trigger] holds(r, i) == (i == index),
{
    let r = 1u16 << (index as u16);
    proof {
        lemma_holds_single(index as u16);
    }
    r
}

/// Whether a mask holds a board index.
pub fn mask_holds(mask: SlotMask, index: usize) -> (r: bool)
    requires
        index < 16,
    ensures
        r == holds(mask, index as int),
{
    proof {
        lemma_holds_test(mask, index as u16);
    }
    mask & (1u16 << (index as u16)) != 0
}

/// Union of two masks.
pub fn mask_union(a: u16, b: u16) -> (r: u16)
    ensures
        r == a | b,
        forall|i: int| #[trigger] holds(r, i) == (holds(a, i) || holds(b, i)),
{
    proof {
        lemma_holds_or(a, b);
    }
    a | b
}

/// Intersection of two masks.
pub fn mask_intersect(a: u16, b: u16) -> (r: u16)
    ensures
        r == a & b,
        forall|i: int| #[trigger] holds(r, i) == (holds(a, i) && holds(b, i)),
{
    proof {
        lemma_holds_and(a, b);
    }
    a & b
}

/// The slots of `a` that are not in `b`.
pub fn mask_minus(a: u16, b: u16) -> (r: u16)
    ensures
        r == a & !b,
        forall|i: int| #[trigger] holds(r, i) == (holds(a, i) && !holds(b, i)),
{
    proof {
        lemma_holds_not(b);
        lemma_holds_and(a, !b);
    }
    a & !b
}

/// How many slots a mask holds.
pub fn mask_count(m: u16) -> (r: u32)
    ensures
        r == popcount(m),
        r <= 16,
{
    let mut n: u32 = 0;
    let mut k: usize = 0;
    while k < 16
        invariant
            k <= 16,
            n == count_below(m, k as int),
            n <= k,
        decreases 16 - k,
    {
        if mask_holds(m, k) {
            n += 1;
        }
        k += 1;
    }
    n
}

/// The board indices below 13 a mask holds, ascending.
pub fn bits(mask: SlotMask) -> (r: Vec<usize>)
    ensures
        forall|k: int| 0 <= k < r@.len() ==> #[trigger] r@[k] < 13 && holds(mask, r@[k] as int),
        forall|k1: int, k2: int| 0 <= k1 < k2 < r@.len() ==> #[trigger] r@[k1] < #[trigger] r@[k2],
        forall|i: int|
            0 <= i < 13 && holds(mask, i) ==> exists|k: int| 0 <= k < r@.len() && #[trigger] r@[k] == i,
{
    let mut out: Vec<usize> = Vec::new();
    let mut i: usize = 0;
    while i < 13
        invariant
            i <= 13,
            forall|k: int| 0 <= k < out@.len() ==> #[trigger] out@[k] < i && holds(mask, out@[k] as int),
            forall|k1: int, k2: int|
                0 <= k1 < k2 < out@.len() ==> #[trigger] out@[k1] < #[trigger] out@[k2],
            forall|j: int|
                0 <= j < i && holds(mask, j) ==> exists|k: int| 0 <= k < out@.len() && #[trigger] out@[k] == j,
        decreases 13 - i,
    {
        let ghost prev = out@;
        if mask_holds(mask, i) {
            out.push(i);
        }
        proof {
            assert forall|j: int| 0 <= j < i + 1 && holds(mask, j) implies exists|k: int|
                0 <= k < out@.len() && #[trigger] out@[k] == j by {
                if j == i {
                    assert(out@[out@.len() - 1] == j);
                } else {
                    let k = choose|k: int| 0 <= k < prev.len() && #[trigger] prev[k] == j;
                    assert(out@[k] == prev[k]);
                }
            }
        }
        i += 1;
    }
    out
}

} // verus!
