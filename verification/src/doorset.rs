//! A set of corridors, stored as one upper-triangular row mask per slot so it
//! iterates in board order.

use vstd::prelude::*;

use crate::lattice::{lemma_slot_index_bijection, slot_at, slot_index, slot_of, Edge, Slot};
use crate::masks::{
    count_below, holds, lemma_count_below_bound, lemma_holds_ext, lemma_holds_not, lemma_holds_or,
    lemma_holds_and, lemma_holds_zero, mask_bit, mask_count, mask_holds, popcount,
};

verus! {

/// A set of corridors.
#[derive(Debug, Clone, Copy)]
pub struct DoorSet {
    rows: [u16; 13],
}

impl PartialEq for DoorSet {
    fn eq(&self, other: &DoorSet) -> (r: bool) {
        let mut k: usize = 0;
        while k < 13
            invariant
                k <= 13,
                forall|i: int| 0 <= i < k ==> self.rows[i] == other.rows[i],
            decreases 13 - k,
        {
            if self.rows[k] != other.rows[k] {
                return false;
            }
            k += 1;
        }
        assert(self.rows =~= other.rows);
        true
    }
}

impl Eq for DoorSet {}

impl vstd::std_specs::cmp::PartialEqSpecImpl for DoorSet {
    open spec fn obeys_eq_spec() -> bool {
        true
    }

    open spec fn eq_spec(&self, other: &DoorSet) -> bool {
        *self == *other
    }
}

/// The board-index pair `(lower, higher)` of a corridor.
pub open spec fn edge_pair(e: Edge) -> (int, int) {
    (slot_index(e.lo_end()), slot_index(e.hi_end()))
}

/// The corridors of row `i` below column `j`, in column order.
pub open spec fn row_scan(d: DoorSet, i: int, j: int) -> Seq<Edge>
    decreases j,
{
    if j <= 0 {
        Seq::empty()
    } else if d.holds_pair(i, j - 1) {
        row_scan(d, i, j - 1).push(Edge::spec_between(i, j - 1))
    } else {
        row_scan(d, i, j - 1)
    }
}

/// The corridors of rows `0..i`, in board order.
pub open spec fn rows_scan(d: DoorSet, i: int) -> Seq<Edge>
    decreases i,
{
    if i <= 0 {
        Seq::empty()
    } else {
        rows_scan(d, i - 1) + row_scan(d, i - 1, 13)
    }
}

/// A door set's corridors, in board order: lower endpoint first, then higher.
pub open spec fn edge_list(d: DoorSet) -> Seq<Edge> {
    rows_scan(d, 13)
}

/// How many corridors rows `0..k` hold.
pub open spec fn rows_count(rows: [u16; 13], k: int) -> nat
    decreases k,
{
    if k <= 0 || k > 13 {
        0
    } else {
        rows_count(rows, k - 1) + popcount(rows[k - 1])
    }
}

impl DoorSet {
    #[verifier::type_invariant]
    spec fn upper(self) -> bool {
        forall|i: int, j: int| 0 <= i < 13 && #[trigger] holds(self.rows[i], j) ==> i < j < 13
    }

    /// Whether the set holds the corridor between board indices `i < j`.
    pub closed spec fn holds_pair(self, i: int, j: int) -> bool {
        0 <= i < j < 13 && holds(self.rows[i], j)
    }

    /// Whether the set holds the corridor `e`.
    pub open spec fn has(self, e: Edge) -> bool {
        self.holds_pair(edge_pair(e).0, edge_pair(e).1)
    }

    /// How many corridors the set holds.
    pub closed spec fn size(self) -> nat {
        rows_count(self.rows, 13)
    }

    /// Only pairs `i < j` on the board are ever held.
    pub proof fn lemma_pairs_in_range(self)
        ensures
            forall|i: int, j: int| #[trigger] self.holds_pair(i, j) ==> 0 <= i < j < 13,
    {
    }

    /// The empty door set.
    pub fn new() -> (r: DoorSet)
        ensures
            forall|i: int, j: int| !#[trigger] r.holds_pair(i, j),
            r.size() == 0,
    {
        proof {
            lemma_holds_zero();
        }
        let r = DoorSet { rows: [0u16; 13] };
        proof {
            assert(rows_count(r.rows, 13) == 0) by {
                lemma_rows_count_zero(r.rows, 13);
            }
        }
        r
    }

    /// Whether the set holds `e`.
    pub fn contains(&self, e: Edge) -> (r: bool)
        ensures
            r == self.has(e),
    {
        let (a, b) = e.ends();
        mask_holds(self.rows[a.index()], b.index())
    }

    /// Whether the set holds the corridor between `a` and `b`, in either order.
    pub fn holds_slots(&self, a: usize, b: usize) -> (r: bool)
        requires
            a < 13,
            b < 13,
        ensures
            r == (self.holds_pair(a as int, b as int) || self.holds_pair(b as int, a as int)),
    {
        proof {
            use_type_invariant(self);
        }
        mask_holds(self.rows[a], b) || mask_holds(self.rows[b], a)
    }

    /// Add `e`.
    pub fn insert(&mut self, e: Edge)
        ensures
            forall|i: int, j: int| #[trigger] final(self).holds_pair(i, j) == (old(self).holds_pair(i, j)
                || (i, j) == edge_pair(e)),
            !old(self).has(e) ==> final(self).size() == old(self).size() + 1,
            old(self).has(e) ==> final(self).size() == old(self).size(),
    {
        proof {
            use_type_invariant(&*self);
        }
        let (a, b) = e.ends();
        let ai = a.index();
        let bit = mask_bit(b.index());
        proof {
            lemma_holds_or(self.rows[ai as int], bit);
        }
        let row = self.rows[ai] | bit;
        let ghost old_rows = self.rows;
        let mut rows = self.rows;
        rows[ai] = row;
        assert forall|i: int, j: int| 0 <= i < 13 && #[trigger] holds(rows[i], j) implies i < j < 13 by {
            if i != slot_index(a) {
                assert(rows[i] == old_rows[i]);
            }
        }
        proof {
            let ai = slot_index(a);
            let bi = slot_index(b);
            if !holds(old_rows[ai], bi) {
                crate::masks::lemma_count_add_bit(old_rows[ai], bit, bi);
            } else {
                assert forall|j: int| 0 <= j < 16 implies #[trigger] holds(row, j) == holds(old_rows[ai], j) by {}
                lemma_holds_ext(row, old_rows[ai]);
            }
            lemma_rows_count_update(old_rows, rows, ai, 13);
        }
        *self = DoorSet { rows };
    }

    /// Every corridor of `self` or of `other`.
    pub fn union(&self, other: &DoorSet) -> (r: DoorSet)
        ensures
            forall|i: int, j: int| #[trigger] r.holds_pair(i, j) == (self.holds_pair(i, j) || other.holds_pair(i, j)),
    {
        proof {
            use_type_invariant(self);
            use_type_invariant(other);
        }
        let mut rows: [u16; 13] = [0u16; 13];
        let mut k: usize = 0;
        proof {
            lemma_holds_zero();
        }
        while k < 13
            invariant
                k <= 13,
                forall|i: int, j: int|
                    0 <= i < k ==> #[trigger] holds(rows[i], j) == (holds(self.rows[i], j) || holds(other.rows[i], j)),
                forall|i: int, j: int| k <= i < 13 ==> !#[trigger] holds(rows[i], j),
                forall|i: int, j: int| 0 <= i < 13 && #[trigger] holds(self.rows[i], j) ==> i < j < 13,
                forall|i: int, j: int| 0 <= i < 13 && #[trigger] holds(other.rows[i], j) ==> i < j < 13,
            decreases 13 - k,
        {
            proof {
                lemma_holds_or(self.rows[k as int], other.rows[k as int]);
            }
            rows[k] = self.rows[k] | other.rows[k];
            k += 1;
        }
        DoorSet { rows }
    }

    /// The corridors of `self` that are not in `other`.
    pub fn minus(&self, other: &DoorSet) -> (r: DoorSet)
        ensures
            forall|i: int, j: int| #[trigger] r.holds_pair(i, j) == (self.holds_pair(i, j) && !other.holds_pair(i, j)),
    {
        proof {
            use_type_invariant(self);
        }
        let mut rows: [u16; 13] = [0u16; 13];
        let mut k: usize = 0;
        proof {
            lemma_holds_zero();
        }
        while k < 13
            invariant
                k <= 13,
                forall|i: int, j: int|
                    0 <= i < k ==> #[trigger] holds(rows[i], j) == (holds(self.rows[i], j) && !holds(other.rows[i], j)),
                forall|i: int, j: int| k <= i < 13 ==> !#[trigger] holds(rows[i], j),
                forall|i: int, j: int| 0 <= i < 13 && #[trigger] holds(self.rows[i], j) ==> i < j < 13,
            decreases 13 - k,
        {
            proof {
                lemma_holds_not(other.rows[k as int]);
                lemma_holds_and(self.rows[k as int], !other.rows[k as int]);
            }
            rows[k] = self.rows[k] & !other.rows[k];
            k += 1;
        }
        DoorSet { rows }
    }

    /// How many corridors the set holds.
    pub fn len(&self) -> (r: usize)
        ensures
            r == self.size(),
            r <= 208,
    {
        let mut n: usize = 0;
        let mut k: usize = 0;
        while k < 13
            invariant
                k <= 13,
                n == rows_count(self.rows, k as int),
                n <= 16 * k,
            decreases 13 - k,
        {
            proof {
                lemma_count_below_bound(self.rows[k as int], 16);
            }
            n = n + mask_count(self.rows[k]) as usize;
            k += 1;
        }
        n
    }

    /// Whether the set holds nothing.
    pub fn is_empty(&self) -> (r: bool)
        ensures
            r == forall|i: int, j: int| !#[trigger] self.holds_pair(i, j),
    {
        let mut k: usize = 0;
        proof {
            use_type_invariant(self);
        }
        while k < 13
            invariant
                k <= 13,
                forall|i: int, j: int| 0 <= i < k ==> !#[trigger] holds(self.rows[i], j),
                forall|i: int, j: int| 0 <= i < 13 && #[trigger] holds(self.rows[i], j) ==> i < j < 13,
            decreases 13 - k,
        {
            proof {
                lemma_holds_zero();
            }
            if self.rows[k] != 0 {
                proof {
                    crate::masks::lemma_holds_nonzero(self.rows[k as int]);
                    let j = choose|j: int| 0 <= j < 16 && #[trigger] holds(self.rows[k as int], j);
                    assert(self.holds_pair(k as int, j));
                }
                return false;
            }
            k += 1;
        }
        true
    }

    /// The corridors, in board order.
    pub fn edges(&self) -> (r: Vec<Edge>)
        ensures
            r@ == edge_list(*self),
            r@.len() <= 169,
    {
        let mut out: Vec<Edge> = Vec::new();
        let mut i: usize = 0;
        while i < 13
            invariant
                i <= 13,
                out@ == rows_scan(*self, i as int),
                out@.len() <= 13 * i,
            decreases 13 - i,
        {
            let mut j: usize = 0;
            while j < 13
                invariant
                    i < 13,
                    j <= 13,
                    out@ == rows_scan(*self, i as int) + row_scan(*self, i as int, j as int),
                    out@.len() <= 13 * i + j,
                decreases 13 - j,
            {
                if i < j && mask_holds(self.rows[i], j) {
                    let e = Edge::new(slot_at(i), slot_at(j));
                    proof {
                        lemma_slot_index_bijection();
                    }
                    out.push(e);
                    proof {
                        assert(row_scan(*self, i as int, j + 1) == row_scan(*self, i as int, j as int).push(e));
                        assert(out@ =~= rows_scan(*self, i as int) + row_scan(*self, i as int, j + 1));
                    }
                }
                j += 1;
            }
            i += 1;
        }
        out
    }
}

proof fn lemma_rows_count_update(old_rows: [u16; 13], rows: [u16; 13], a: int, k: int)
    requires
        0 <= a < 13,
        forall|i: int| 0 <= i < 13 && i != a ==> rows[i] == old_rows[i],
        0 <= k <= 13,
    ensures
        k <= a ==> rows_count(rows, k) == rows_count(old_rows, k),
        k > a ==> rows_count(rows, k) + popcount(old_rows[a]) == rows_count(old_rows, k) + popcount(rows[a]),
    decreases k,
{
    if k > 0 {
        lemma_rows_count_update(old_rows, rows, a, k - 1);
    }
}

proof fn lemma_rows_count_zero(rows: [u16; 13], k: int)
    requires
        forall|i: int| 0 <= i < 13 ==> rows[i] == 0u16,
        k <= 13,
    ensures
        rows_count(rows, k) == 0,
    decreases k,
{
    if k > 0 {
        lemma_rows_count_zero(rows, k - 1);
        lemma_holds_zero();
        lemma_count_zero(k - 1);
    }
}

proof fn lemma_count_zero(k: int)
    ensures
        count_below(0u16, 16) == 0,
{
    lemma_holds_zero();
    lemma_count_zero_below(16);
}

proof fn lemma_count_zero_below(k: int)
    ensures
        count_below(0u16, k) == 0,
    decreases k,
{
    lemma_holds_zero();
    if k > 0 {
        lemma_count_zero_below(k - 1);
    }
}


/// Row `i` of the scan below column `j` holds exactly the set's corridors
/// whose lower end is `i` and whose higher end is below `j`.
proof fn lemma_row_scan_contains(d: DoorSet, i: int, j: int, e: Edge)
    requires
        0 <= i < 13,
        j <= 13,
    ensures
        row_scan(d, i, j).contains(e) == (edge_pair(e).0 == i && edge_pair(e).1 < j && d.has(e)),
    decreases j,
{
    lemma_slot_index_bijection();
    if j > 0 {
        lemma_row_scan_contains(d, i, j - 1, e);
        let prev = row_scan(d, i, j - 1);
        if d.holds_pair(i, j - 1) {
            let x = Edge::spec_between(i, j - 1);
            Edge::lemma_between(i, j - 1);
            assert(edge_pair(x) == (i, j - 1));
            let now = prev.push(x);
            assert(now[now.len() - 1] == x);
            if now.contains(e) {
                let k = choose|k: int| 0 <= k < now.len() && now[k] == e;
                if k < prev.len() {
                    assert(prev[k] == e);
                }
            }
            if prev.contains(e) {
                let k = choose|k: int| 0 <= k < prev.len() && prev[k] == e;
                assert(now[k] == e);
            }
            if edge_pair(e) == (i, j - 1) {
                Edge::lemma_eq(e, x);
            }
        }
    }
}

/// The scan of rows below `i` holds exactly the set's corridors whose lower
/// end is below `i`.
proof fn lemma_rows_scan_contains(d: DoorSet, i: int, e: Edge)
    requires
        0 <= i <= 13,
    ensures
        rows_scan(d, i).contains(e) == (edge_pair(e).0 < i && d.has(e)),
    decreases i,
{
    lemma_slot_index_bijection();
    if i > 0 {
        lemma_rows_scan_contains(d, i - 1, e);
        lemma_row_scan_contains(d, i - 1, 13, e);
        let a = rows_scan(d, i - 1);
        let b = row_scan(d, i - 1, 13);
        let c = a + b;
        if c.contains(e) {
            let k = choose|k: int| 0 <= k < c.len() && c[k] == e;
            if k < a.len() {
                assert(a[k] == e);
            } else {
                assert(b[k - a.len()] == e);
            }
        }
        if a.contains(e) {
            let k = choose|k: int| 0 <= k < a.len() && a[k] == e;
            assert(c[k] == e);
        }
        if b.contains(e) {
            let k = choose|k: int| 0 <= k < b.len() && b[k] == e;
            assert(c[a.len() + k] == e);
        }
    }
}

impl DoorSet {
    /// The corridor list holds exactly the set's corridors; it is empty
    /// exactly when the set is.
    pub proof fn lemma_edge_list_exact(self)
        ensures
            forall|e: Edge| #[trigger] edge_list(self).contains(e) == self.has(e),
            (edge_list(self).len() == 0) == forall|i: int, j: int| !#[trigger] self.holds_pair(i, j),
    {
        lemma_slot_index_bijection();
        assert forall|e: Edge| #[trigger] edge_list(self).contains(e) == self.has(e) by {
            lemma_rows_scan_contains(self, 13, e);
        }
        if edge_list(self).len() > 0 {
            let e = edge_list(self)[0];
            assert(edge_list(self).contains(e));
            assert(self.holds_pair(edge_pair(e).0, edge_pair(e).1));
        }
        if exists|i: int, j: int| #[trigger] self.holds_pair(i, j) {
            let (i, j) = choose|i: int, j: int| #[trigger] self.holds_pair(i, j);
            let e = Edge::spec_between(i, j);
            Edge::lemma_between(i, j);
            assert(0 <= i < j < 13);
            assert(edge_pair(e) == (i, j));
            assert(self.has(e));
            assert(edge_list(self).contains(e));
        }
    }
}

} // verus!
