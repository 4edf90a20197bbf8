//! The seal ink of the side panel's diamond as a pixel graph: two ink pixels
//! are linked when they touch, diagonals included, and share a colour. A
//! blob is one connected component, summarised by its pixel count, its
//! coordinate sums and centroid, and its bounding box.

use vstd::prelude::*;

verus! {

/// The most pixels a diamond crop can hold: its count `w * h` is an `i32`.
pub const PIXEL_LIMIT: usize = 0x7fff_ffff;

/// Capture coordinates are `i32`s, and so is a rect's far edge `x0 + w`:
/// every coordinate stays below this.
pub const COORD_LIMIT: i32 = 0x7fff_ffff;

/// One run of same-coloured ink, as the seal reader summarises it.
#[derive(Debug, Clone, Copy, PartialEq, Eq, Structural)]
pub struct InkBlob {
    /// How many pixels.
    pub n: u64,
    /// Sum of their capture x coordinates.
    pub sx: i128,
    /// Sum of their capture y coordinates.
    pub sy: i128,
    /// Centroid x, the sum over the count.
    pub cx: i32,
    /// Centroid y.
    pub cy: i32,
    /// Bounding box, inclusive.
    pub x0: i32,
    pub x1: i32,
    pub y0: i32,
    pub y1: i32,
    /// Green (`true`) or red.
    pub open: bool,
}

/// Whether ink pixels `i` and `j` of a `w`-wide mask touch and share a colour.
pub open spec fn ink_link(ink: Seq<Option<bool>>, w: int, i: int, j: int) -> bool {
    &&& 0 <= i < ink.len()
    &&& 0 <= j < ink.len()
    &&& ink[i] is Some
    &&& ink[j] == ink[i]
    &&& -1 <= i % w - j % w <= 1
    &&& -1 <= i / w - j / w <= 1
}

/// `s` and every ink pixel linked to one of its pixels.
pub open spec fn grown(ink: Seq<Option<bool>>, w: int, s: Set<int>) -> Set<int> {
    Set::new(|j: int| s.contains(j) || exists|i: int| s.contains(i) && ink_link(ink, w, i, j))
}

/// The pixels at most `n` links away from `a`.
pub open spec fn reach_set(ink: Seq<Option<bool>>, w: int, a: int, n: int) -> Set<int>
    decreases n,
{
    if n <= 0 {
        set![a]
    } else {
        grown(ink, w, reach_set(ink, w, a, n - 1))
    }
}

/// Whether `j` is at most `n` links away from `a`.
pub open spec fn ink_within(ink: Seq<Option<bool>>, w: int, a: int, j: int, n: int) -> bool {
    reach_set(ink, w, a, n).contains(j)
}

/// Whether a chain of links joins `a` to `j`.
pub open spec fn ink_reach(ink: Seq<Option<bool>>, w: int, a: int, j: int) -> bool {
    exists|n: int| n >= 0 && #[trigger] ink_within(ink, w, a, j, n)
}

/// The pixels of `a`'s blob.
pub open spec fn component(ink: Seq<Option<bool>>, w: int, a: int) -> Set<int> {
    Set::new(|i: int| 0 <= i < ink.len() && ink_reach(ink, w, a, i))
}

/// Whether pixel `a` is the first pixel, in scan order, of its blob.
pub open spec fn is_first_of_blob(ink: Seq<Option<bool>>, w: int, a: int) -> bool {
    &&& 0 <= a < ink.len()
    &&& ink[a] is Some
    &&& forall|t: int| 0 <= t < a ==> !#[trigger] ink_reach(ink, w, a, t)
}

/// How many pixels below `k` the set holds.
pub open spec fn set_count(s: Set<int>, k: int) -> nat
    decreases k,
{
    if k <= 0 {
        0
    } else {
        set_count(s, k - 1) + if s.contains(k - 1) {
            1nat
        } else {
            0nat
        }
    }
}

/// Sum of the capture x coordinates of the set's pixels below `k`.
pub open spec fn set_sum_x(s: Set<int>, w: int, x0: int, k: int) -> int
    decreases k,
{
    if k <= 0 {
        0
    } else {
        set_sum_x(s, w, x0, k - 1) + if s.contains(k - 1) {
            x0 + (k - 1) % w
        } else {
            0
        }
    }
}

/// Sum of the capture y coordinates of the set's pixels below `k`.
pub open spec fn set_sum_y(s: Set<int>, w: int, y0: int, k: int) -> int
    decreases k,
{
    if k <= 0 {
        0
    } else {
        set_sum_y(s, w, y0, k - 1) + if s.contains(k - 1) {
            y0 + (k - 1) / w
        } else {
            0
        }
    }
}

/// The smaller of two numbers.
pub open spec fn min_int(a: int, b: int) -> int {
    if a <= b {
        a
    } else {
        b
    }
}

/// The larger of two numbers.
pub open spec fn max_int(a: int, b: int) -> int {
    if a >= b {
        a
    } else {
        b
    }
}

/// Smallest capture x among the set's pixels below `k`; `COORD_LIMIT` when
/// there are none.
pub open spec fn set_min_x(s: Set<int>, w: int, x0: int, k: int) -> int
    decreases k,
{
    if k <= 0 {
        COORD_LIMIT as int
    } else if s.contains(k - 1) {
        min_int(set_min_x(s, w, x0, k - 1), x0 + (k - 1) % w)
    } else {
        set_min_x(s, w, x0, k - 1)
    }
}

/// Largest capture x among the set's pixels below `k`; `-1` when none.
pub open spec fn set_max_x(s: Set<int>, w: int, x0: int, k: int) -> int
    decreases k,
{
    if k <= 0 {
        -1
    } else if s.contains(k - 1) {
        max_int(set_max_x(s, w, x0, k - 1), x0 + (k - 1) % w)
    } else {
        set_max_x(s, w, x0, k - 1)
    }
}

/// Smallest capture y among the set's pixels below `k`.
pub open spec fn set_min_y(s: Set<int>, w: int, y0: int, k: int) -> int
    decreases k,
{
    if k <= 0 {
        COORD_LIMIT as int
    } else if s.contains(k - 1) {
        min_int(set_min_y(s, w, y0, k - 1), y0 + (k - 1) / w)
    } else {
        set_min_y(s, w, y0, k - 1)
    }
}

/// Largest capture y among the set's pixels below `k`.
pub open spec fn set_max_y(s: Set<int>, w: int, y0: int, k: int) -> int
    decreases k,
{
    if k <= 0 {
        -1
    } else if s.contains(k - 1) {
        max_int(set_max_y(s, w, y0, k - 1), y0 + (k - 1) / w)
    } else {
        set_max_y(s, w, y0, k - 1)
    }
}

/// The summary of the pixel set `s` of colour `open`.
pub open spec fn summary(s: Set<int>, w: int, x0: int, y0: int, k: int, open: bool) -> InkBlob {
    let n = set_count(s, k);
    let sx = set_sum_x(s, w, x0, k);
    let sy = set_sum_y(s, w, y0, k);
    InkBlob {
        n: n as u64,
        sx: sx as i128,
        sy: sy as i128,
        cx: (sx / n as int) as i32,
        cy: (sy / n as int) as i32,
        x0: set_min_x(s, w, x0, k) as i32,
        x1: set_max_x(s, w, x0, k) as i32,
        y0: set_min_y(s, w, y0, k) as i32,
        y1: set_max_y(s, w, y0, k) as i32,
        open,
    }
}

/// The blob whose first pixel is `a`.
pub open spec fn blob_of(ink: Seq<Option<bool>>, w: int, x0: int, y0: int, a: int) -> InkBlob {
    summary(component(ink, w, a), w, x0, y0, ink.len() as int, ink[a].unwrap())
}

/// The blobs whose first pixel lies below `k`, in scan order.
pub open spec fn blobs_below(ink: Seq<Option<bool>>, w: int, x0: int, y0: int, k: int) -> Seq<InkBlob>
    decreases k,
{
    if k <= 0 {
        Seq::empty()
    } else if is_first_of_blob(ink, w, k - 1) {
        blobs_below(ink, w, x0, y0, k - 1).push(blob_of(ink, w, x0, y0, k - 1))
    } else {
        blobs_below(ink, w, x0, y0, k - 1)
    }
}

/// A blob whose numbers stay in range: at least one and at most `cap`
/// pixels, every coordinate below `COORD_LIMIT`.
pub open spec fn sane(b: InkBlob, cap: int) -> bool {
    let lim = COORD_LIMIT - 1;
    &&& 1 <= b.n <= cap
    &&& 0 <= b.sx <= b.n * lim
    &&& 0 <= b.sy <= b.n * lim
    &&& 0 <= b.x0 <= b.x1 <= lim
    &&& 0 <= b.y0 <= b.y1 <= lim
    &&& 0 <= b.cx <= lim
    &&& 0 <= b.cy <= lim
}

// ------------------------------------------------------------- the links --

proof fn lemma_within_colour(ink: Seq<Option<bool>>, w: int, a: int, j: int, n: int)
    requires
        0 <= a < ink.len(),
        ink[a] is Some,
        ink_within(ink, w, a, j, n),
    ensures
        0 <= j < ink.len(),
        ink[j] == ink[a],
    decreases n,
{
    if n > 0 {
        if ink_within(ink, w, a, j, n - 1) {
            lemma_within_colour(ink, w, a, j, n - 1);
        } else {
            let i = choose|i: int| reach_set(ink, w, a, n - 1).contains(i) && ink_link(ink, w, i, j);
            lemma_within_colour(ink, w, a, i, n - 1);
        }
    }
}

proof fn lemma_within_step(ink: Seq<Option<bool>>, w: int, a: int, i: int, j: int, n: int)
    requires
        n >= 0,
        ink_within(ink, w, a, i, n),
        ink_link(ink, w, i, j),
    ensures
        ink_within(ink, w, a, j, n + 1),
{
    assert(reach_set(ink, w, a, n).contains(i));
    assert(grown(ink, w, reach_set(ink, w, a, n)).contains(j));
}

proof fn lemma_within_trans(ink: Seq<Option<bool>>, w: int, a: int, b: int, c: int, m: int, n: int)
    requires
        m >= 0,
        n >= 0,
        ink_within(ink, w, a, b, m),
        ink_within(ink, w, b, c, n),
    ensures
        ink_within(ink, w, a, c, m + n),
    decreases n,
{
    if n > 0 {
        if ink_within(ink, w, b, c, n - 1) {
            lemma_within_trans(ink, w, a, b, c, m, n - 1);
            assert(ink_within(ink, w, a, c, m + n - 1));
        } else {
            let i = choose|i: int| reach_set(ink, w, b, n - 1).contains(i) && ink_link(ink, w, i, c);
            lemma_within_trans(ink, w, a, b, i, m, n - 1);
            lemma_within_step(ink, w, a, i, c, m + n - 1);
        }
    }
}

/// Blobs are undirected: what `a` reaches reaches `a`.
proof fn lemma_reach_symmetric(ink: Seq<Option<bool>>, w: int, a: int, b: int, n: int)
    requires
        n >= 0,
        ink_within(ink, w, a, b, n),
    ensures
        ink_reach(ink, w, b, a),
    decreases n,
{
    if n == 0 {
        assert(ink_within(ink, w, b, a, 0));
    } else if ink_within(ink, w, a, b, n - 1) {
        lemma_reach_symmetric(ink, w, a, b, n - 1);
    } else {
        let i = choose|i: int| reach_set(ink, w, a, n - 1).contains(i) && ink_link(ink, w, i, b);
        lemma_reach_symmetric(ink, w, a, i, n - 1);
        let m = choose|m: int| m >= 0 && #[trigger] ink_within(ink, w, i, a, m);
        assert(ink_within(ink, w, b, b, 0));
        assert(ink_link(ink, w, b, i));
        lemma_within_step(ink, w, b, b, i, 0);
        lemma_within_trans(ink, w, b, i, a, 1, m);
    }
}

// --------------------------------------------------------------- the sums --

proof fn lemma_set_insert(s: Set<int>, p: int, w: int, x0: int, y0: int, k: int)
    requires
        !s.contains(p),
        0 <= p,
    ensures
        set_count(s.insert(p), k) == set_count(s, k) + if p < k { 1int } else { 0int },
        set_sum_x(s.insert(p), w, x0, k) == set_sum_x(s, w, x0, k) + if p < k { x0 + p % w } else { 0 },
        set_sum_y(s.insert(p), w, y0, k) == set_sum_y(s, w, y0, k) + if p < k { y0 + p / w } else { 0 },
        set_min_x(s.insert(p), w, x0, k) == if p < k {
            min_int(set_min_x(s, w, x0, k), x0 + p % w)
        } else {
            set_min_x(s, w, x0, k)
        },
        set_max_x(s.insert(p), w, x0, k) == if p < k {
            max_int(set_max_x(s, w, x0, k), x0 + p % w)
        } else {
            set_max_x(s, w, x0, k)
        },
        set_min_y(s.insert(p), w, y0, k) == if p < k {
            min_int(set_min_y(s, w, y0, k), y0 + p / w)
        } else {
            set_min_y(s, w, y0, k)
        },
        set_max_y(s.insert(p), w, y0, k) == if p < k {
            max_int(set_max_y(s, w, y0, k), y0 + p / w)
        } else {
            set_max_y(s, w, y0, k)
        },
    decreases k,
{
    if k > 0 {
        lemma_set_insert(s, p, w, x0, y0, k - 1);
    }
}

proof fn lemma_set_empty(w: int, x0: int, y0: int, k: int)
    ensures
        set_count(Set::empty(), k) == 0,
        set_sum_x(Set::empty(), w, x0, k) == 0,
        set_sum_y(Set::empty(), w, y0, k) == 0,
        set_min_x(Set::empty(), w, x0, k) == COORD_LIMIT,
        set_max_x(Set::empty(), w, x0, k) == -1,
        set_min_y(Set::empty(), w, y0, k) == COORD_LIMIT,
        set_max_y(Set::empty(), w, y0, k) == -1,
    decreases k,
{
    if k > 0 {
        lemma_set_empty(w, x0, y0, k - 1);
    }
}

proof fn lemma_set_count_le(s: Set<int>, k: int)
    requires
        k >= 0,
    ensures
        set_count(s, k) <= k,
    decreases k,
{
    if k > 0 {
        lemma_set_count_le(s, k - 1);
    }
}

proof fn lemma_set_extremes(s: Set<int>, w: int, x0: int, y0: int, p: int, k: int)
    requires
        s.contains(p),
        0 <= p < k,
    ensures
        set_min_x(s, w, x0, k) <= x0 + p % w <= set_max_x(s, w, x0, k),
        set_min_y(s, w, y0, k) <= y0 + p / w <= set_max_y(s, w, y0, k),
    decreases k,
{
    if p < k - 1 {
        lemma_set_extremes(s, w, x0, y0, p, k - 1);
    }
}

proof fn lemma_set_ext(s: Set<int>, t: Set<int>, w: int, x0: int, y0: int, k: int)
    requires
        forall|i: int| 0 <= i < k ==> (s.contains(i) <==> t.contains(i)),
    ensures
        set_count(s, k) == set_count(t, k),
        set_sum_x(s, w, x0, k) == set_sum_x(t, w, x0, k),
        set_sum_y(s, w, y0, k) == set_sum_y(t, w, y0, k),
        set_min_x(s, w, x0, k) == set_min_x(t, w, x0, k),
        set_max_x(s, w, x0, k) == set_max_x(t, w, x0, k),
        set_min_y(s, w, y0, k) == set_min_y(t, w, y0, k),
        set_max_y(s, w, y0, k) == set_max_y(t, w, y0, k),
    decreases k,
{
    if k > 0 {
        lemma_set_ext(s, t, w, x0, y0, k - 1);
    }
}

/// There are no more blobs than pixels scanned.
pub proof fn lemma_blobs_below_len(ink: Seq<Option<bool>>, w: int, x0: int, y0: int, k: int)
    requires
        k >= 0,
    ensures
        blobs_below(ink, w, x0, y0, k).len() <= k,
    decreases k,
{
    if k > 0 {
        lemma_blobs_below_len(ink, w, x0, y0, k - 1);
    }
}


proof fn lemma_set_nonempty(s: Set<int>, p: int, k: int)
    requires
        s.contains(p),
        0 <= p < k,
    ensures
        set_count(s, k) >= 1,
    decreases k,
{
    if p < k - 1 {
        lemma_set_nonempty(s, p, k - 1);
    }
}

/// The pixel at column `nx` of row `ny` of a `w`-wide mask.
proof fn lemma_pixel(w: int, ny: int, nx: int)
    requires
        w > 0,
        ny >= 0,
        0 <= nx < w,
    ensures
        (ny * w + nx) % w == nx,
        (ny * w + nx) / w == ny,
{
    vstd::arithmetic::div_mod::lemma_fundamental_div_mod_converse(ny * w + nx, w, ny, nx);
}

/// A pixel of a `w × h` mask lies in its rows and columns.
proof fn lemma_pixel_bounds(w: int, h: int, p: int)
    requires
        w > 0,
        h > 0,
        0 <= p < w * h,
    ensures
        0 <= p % w < w,
        0 <= p / w < h,
{
    vstd::arithmetic::div_mod::lemma_fundamental_div_mod(p, w);
    assert(0 <= p % w < w);
    assert(p / w >= 0) by (nonlinear_arith)
        requires
            p >= 0,
            w > 0,
            p == w * (p / w) + p % w,
            0 <= p % w < w,
    ;
    assert(p / w < h) by (nonlinear_arith)
        requires
            p < w * h,
            w > 0,
            p == w * (p / w) + p % w,
            0 <= p % w,
    ;
}

/// Row `ny` and column `nx` inside a `w × h` mask name a pixel of it.
proof fn lemma_pixel_inside(w: int, h: int, ny: int, nx: int)
    requires
        0 <= ny < h,
        0 <= nx < w,
    ensures
        0 <= ny * w + nx < w * h,
{
    assert(0 <= ny * w + nx < w * h) by (nonlinear_arith)
        requires
            0 <= ny < h,
            0 <= nx < w,
    ;
}

/// What the seen mask says before the scan reaches `k`: exactly the ink
/// pixels whose blob holds a pixel below `k`.
pub open spec fn seen_up_to(ink: Seq<Option<bool>>, w: int, seen: Seq<bool>, k: int) -> bool {
    &&& seen.len() == ink.len()
    &&& forall|i: int|
        0 <= i < ink.len() ==> (#[trigger] seen[i] <==> (ink[i] is Some && exists|t: int|
            0 <= t < k && #[trigger] ink_reach(ink, w, i, t)))
}

/// The flood fill's bookkeeping for the blob of `a`: `seen` is what was seen
/// before it plus what it has taken (`b`) and still holds on its stack, all
/// of which `a` reaches.
pub open spec fn fill_ok(
    ink: Seq<Option<bool>>,
    w: int,
    a: int,
    seen0: Seq<bool>,
    seen: Seq<bool>,
    b: Set<int>,
    stack: Seq<usize>,
) -> bool {
    &&& seen.len() == ink.len()
    &&& seen0.len() == ink.len()
    &&& stack.no_duplicates()
    &&& forall|i: int|
        0 <= i < ink.len() ==> (#[trigger] seen[i] <==> (seen0[i] || b.contains(i) || stack.contains(i as usize)))
    &&& forall|i: int| #[trigger] b.contains(i) ==> 0 <= i < ink.len() && !seen0[i] && ink_reach(ink, w, a, i)
    &&& forall|q: int|
        0 <= q < stack.len() ==> (#[trigger] stack[q]) < ink.len() && !seen0[stack[q] as int] && ink_reach(
            ink,
            w,
            a,
            stack[q] as int,
        ) && !b.contains(stack[q] as int)
    &&& b.contains(a) || stack.contains(a as usize)
}

/// Every pixel of `b` has its linked pixels seen.
pub open spec fn fill_closed(ink: Seq<Option<bool>>, w: int, b: Set<int>, seen: Seq<bool>) -> bool {
    forall|i: int, j: int| #[trigger] b.contains(i) && #[trigger] ink_link(ink, w, i, j) ==> seen[j]
}

/// Once the stack is empty, the fill has taken `a`'s whole blob.
proof fn lemma_fill_complete(
    ink: Seq<Option<bool>>,
    w: int,
    a: int,
    seen0: Seq<bool>,
    seen: Seq<bool>,
    b: Set<int>,
    j: int,
    n: int,
)
    requires
        0 <= a < ink.len(),
        ink[a] is Some,
        fill_ok(ink, w, a, seen0, seen, b, Seq::empty()),
        fill_closed(ink, w, b, seen),
        seen_up_to(ink, w, seen0, a),
        n >= 0,
        ink_within(ink, w, a, j, n),
    ensures
        b.contains(j),
    decreases n,
{
    if n == 0 {
        assert(Seq::<usize>::empty().contains(a as usize) == false);
    } else if ink_within(ink, w, a, j, n - 1) {
        lemma_fill_complete(ink, w, a, seen0, seen, b, j, n - 1);
    } else {
        let i = choose|i: int| reach_set(ink, w, a, n - 1).contains(i) && ink_link(ink, w, i, j);
        lemma_fill_complete(ink, w, a, seen0, seen, b, i, n - 1);
        assert(seen[j]);
        assert(!Seq::<usize>::empty().contains(j as usize));
        if seen0[j] {
            let t = choose|t: int| 0 <= t < a && #[trigger] ink_reach(ink, w, j, t);
            let m = choose|m: int| m >= 0 && #[trigger] ink_within(ink, w, j, t, m);
            assert(ink_within(ink, w, i, i, 0));
            lemma_within_step(ink, w, i, i, j, 0);
            lemma_within_trans(ink, w, i, j, t, 1, m);
            assert(ink_reach(ink, w, i, t));
            let k = choose|k: int| k >= 0 && #[trigger] ink_within(ink, w, a, i, k);
            lemma_within_colour(ink, w, a, i, k);
            assert(seen0[i]);
        }
    }
}

impl InkBlob {
    /// A blob seeded at `(x, y)` with nothing counted yet.
    pub fn seeded(x: i32, y: i32, open: bool) -> (r: InkBlob)
        ensures
            r == (InkBlob { n: 0, sx: 0, sy: 0, cx: x, cy: y, x0: x, x1: x, y0: y, y1: y, open }),
    {
        InkBlob { n: 0, sx: 0, sy: 0, cx: x, cy: y, x0: x, x1: x, y0: y, y1: y, open }
    }

    /// Count one more pixel at `(x, y)`.
    pub fn add(&mut self, x: i32, y: i32)
        requires
            old(self).n < PIXEL_LIMIT,
            0 <= x < COORD_LIMIT,
            0 <= y < COORD_LIMIT,
            0 <= old(self).sx <= old(self).n * (COORD_LIMIT - 1),
            0 <= old(self).sy <= old(self).n * (COORD_LIMIT - 1),
        ensures
            final(self).n == old(self).n + 1,
            final(self).sx == old(self).sx + x,
            final(self).sy == old(self).sy + y,
            final(self).cx == (final(self).sx as int) / (final(self).n as int),
            final(self).cy == (final(self).sy as int) / (final(self).n as int),
            final(self).x0 == min_int(old(self).x0 as int, x as int),
            final(self).x1 == max_int(old(self).x1 as int, x as int),
            final(self).y0 == min_int(old(self).y0 as int, y as int),
            final(self).y1 == max_int(old(self).y1 as int, y as int),
            final(self).open == old(self).open,
            0 <= final(self).cx < COORD_LIMIT,
            0 <= final(self).cy < COORD_LIMIT,
            0 <= final(self).sx <= final(self).n * (COORD_LIMIT - 1),
            0 <= final(self).sy <= final(self).n * (COORD_LIMIT - 1),
    {
        let (n0, sx0, sy0) = (self.n, self.sx, self.sy);
        assert(sx0 <= 0x7fff_ffff * 0x7fff_fffe && sy0 <= 0x7fff_ffff * 0x7fff_fffe) by (nonlinear_arith)
            requires
                0 <= sx0 <= n0 * (COORD_LIMIT - 1),
                0 <= sy0 <= n0 * (COORD_LIMIT - 1),
                n0 < 0x7fff_ffff,
                COORD_LIMIT == 0x7fff_ffff,
        ;
        self.n = self.n + 1;
        self.sx = self.sx + x as i128;
        self.sy = self.sy + y as i128;
        let n = self.n as i128;
        let (sx, sy) = (self.sx, self.sy);
        assert(sx <= n * (COORD_LIMIT - 1) && sy <= n * (COORD_LIMIT - 1)) by (nonlinear_arith)
            requires
                sx0 <= n0 * (COORD_LIMIT - 1),
                sy0 <= n0 * (COORD_LIMIT - 1),
                sx == sx0 + x,
                sy == sy0 + y,
                x <= COORD_LIMIT - 1,
                y <= COORD_LIMIT - 1,
                n == n0 + 1,
        ;
        assert(sx / n <= COORD_LIMIT - 1) by (nonlinear_arith)
            requires
                0 <= sx <= n * (COORD_LIMIT - 1),
                n >= 1,
        ;
        assert(sy / n <= COORD_LIMIT - 1) by (nonlinear_arith)
            requires
                0 <= sy <= n * (COORD_LIMIT - 1),
                n >= 1,
        ;
        assert(sx / n >= 0 && sy / n >= 0) by (nonlinear_arith)
            requires
                0 <= sx,
                0 <= sy,
                n >= 1,
        ;
        self.cx = (sx / n) as i32;
        self.cy = (sy / n) as i32;
        if x < self.x0 {
            self.x0 = x;
        }
        if x > self.x1 {
            self.x1 = x;
        }
        if y < self.y0 {
            self.y0 = y;
        }
        if y > self.y1 {
            self.y1 = y;
        }
    }
}


/// The blobs of a `w × h` ink mask whose top-left pixel sits at capture
/// `(x0, y0)`, in the scan order of their first pixels.
pub fn ink_blobs(ink: &Vec<Option<bool>>, x0: i32, y0: i32, w: i32, h: i32) -> (r: Vec<InkBlob>)
    requires
        0 < w,
        0 < h,
        0 <= x0,
        0 <= y0,
        x0 + w <= COORD_LIMIT,
        y0 + h <= COORD_LIMIT,
        ink@.len() == w * h,
        ink@.len() <= PIXEL_LIMIT,
    ensures
        r@ == blobs_below(ink@, w as int, x0 as int, y0 as int, ink@.len() as int),
        forall|q: int| 0 <= q < r@.len() ==> sane(#[trigger] r@[q], PIXEL_LIMIT as int),
{
    let total = ink.len();
    let wu = w as usize;
    let hu = h as usize;
    let ghost ws = w as int;
    let ghost mask = ink@;
    let mut seen: Vec<bool> = Vec::new();
    let mut z: usize = 0;
    while z < total
        invariant
            z <= total,
            total == mask.len(),
            seen@.len() == z,
            forall|i: int| 0 <= i < z ==> !#[trigger] seen@[i],
        decreases total - z,
    {
        seen.push(false);
        z += 1;
    }
    let mut blobs: Vec<InkBlob> = Vec::new();
    let mut a: usize = 0;
    while a < total
        invariant
            a <= total,
            total == mask.len(),
            mask == ink@,
            ws == w,
            wu == w,
            hu == h,
            0 < w,
            0 < h,
            0 <= x0,
            0 <= y0,
            x0 + w <= COORD_LIMIT,
            y0 + h <= COORD_LIMIT,
            total == w * h,
            total <= PIXEL_LIMIT,
            seen_up_to(mask, ws, seen@, a as int),
            blobs@ == blobs_below(mask, ws, x0 as int, y0 as int, a as int),
            forall|q: int| 0 <= q < blobs@.len() ==> sane(#[trigger] blobs@[q], PIXEL_LIMIT as int),
        decreases total - a,
    {
        let ghost seen_before = seen@;
        match ink[a] {
            Some(open) => {
                if !seen[a] {
                    let ghost seen0 = seen@;
                    proof {
                        assert forall|t: int| 0 <= t < a implies !#[trigger] ink_reach(mask, ws, a as int, t) by {
                            if ink_reach(mask, ws, a as int, t) {
                                assert(mask[a as int] is Some);
                                assert(seen@[a as int]);
                            }
                        }
                        lemma_pixel_bounds(ws, h as int, a as int);
                    }
                    seen[a] = true;
                    let mut stack: Vec<usize> = Vec::new();
                    stack.push(a);
                    let ax = x0 + (a % wu) as i32;
                    let ay = y0 + (a / wu) as i32;
                    let mut blob = InkBlob::seeded(ax, ay, open);
                    let ghost mut b: Set<int> = Set::empty();
                    proof {
                        assert(ink_within(mask, ws, a as int, a as int, 0));
                        assert(stack@[0] == a);
                        assert forall|i: int| 0 <= i < total implies (#[trigger] seen@[i] <==> (seen0[i]
                            || b.contains(i) || stack@.contains(i as usize))) by {
                            if i == a {
                                assert(stack@[0] == i as usize);
                            }
                            if stack@.contains(i as usize) {
                                assert(i == a);
                            }
                        }
                        assert(stack@.contains(a as usize));
                        lemma_set_empty(ws, x0 as int, y0 as int, total as int);
                    }
                    while stack.len() > 0
                        invariant
                            total == mask.len(),
                            mask == ink@,
                            ws == w,
                            wu == w,
                            hu == h,
                            0 < w,
                            0 < h,
                            0 <= x0,
                            0 <= y0,
                            x0 + w <= COORD_LIMIT,
                            y0 + h <= COORD_LIMIT,
                            total == w * h,
                            total <= PIXEL_LIMIT,
                            0 <= a < total,
                            mask[a as int] == Some(open),
                            ax == x0 + (a as int) % ws,
                            ay == y0 + (a as int) / ws,
                            0 <= ax < COORD_LIMIT,
                            0 <= ay < COORD_LIMIT,
                            seen_up_to(mask, ws, seen0, a as int),
                            fill_ok(mask, ws, a as int, seen0, seen@, b, stack@),
                            fill_closed(mask, ws, b, seen@),
                            blob.n == set_count(b, total as int),
                            blob.sx == set_sum_x(b, ws, x0 as int, total as int),
                            blob.sy == set_sum_y(b, ws, y0 as int, total as int),
                            blob.x0 == min_int(ax as int, set_min_x(b, ws, x0 as int, total as int)),
                            blob.x1 == max_int(ax as int, set_max_x(b, ws, x0 as int, total as int)),
                            blob.y0 == min_int(ay as int, set_min_y(b, ws, y0 as int, total as int)),
                            blob.y1 == max_int(ay as int, set_max_y(b, ws, y0 as int, total as int)),
                            blob.open == open,
                            blob.n > 0 ==> blob.cx == (blob.sx as int) / (blob.n as int) && blob.cy == (
                            blob.sy as int) / (blob.n as int),
                            0 <= blob.cx < COORD_LIMIT,
                            0 <= blob.cy < COORD_LIMIT,
                            0 <= blob.sx <= blob.n * (COORD_LIMIT - 1),
                            0 <= blob.sy <= blob.n * (COORD_LIMIT - 1),
                            0 <= blob.x0 <= ax <= blob.x1 < COORD_LIMIT,
                            0 <= blob.y0 <= ay <= blob.y1 < COORD_LIMIT,
                        decreases total - set_count(b, total as int),
                    {
                        let ghost stack_before = stack@;
                        let p = match stack.pop() {
                            Some(p) => p,
                            None => a,
                        };
                        proof {
                            lemma_pixel_bounds(ws, h as int, p as int);
                            lemma_set_insert(b, p as int, ws, x0 as int, y0 as int, total as int);
                            lemma_set_count_le(b, total as int);
                            assert(stack_before.last() == p);
                            assert(!b.contains(p as int));
                            let m = choose|m: int| m >= 0 && #[trigger] ink_within(mask, ws, a as int, p as int, m);
                            lemma_within_colour(mask, ws, a as int, p as int, m);
                        }
                        let ppx = p % wu;
                        let ppy = p / wu;
                        let px = x0 + ppx as i32;
                        let py = y0 + ppy as i32;
                        proof {
                            lemma_set_count_le(b.insert(p as int), total as int);
                        }
                        blob.add(px, py);
                        proof {
                            let b2 = b.insert(p as int);
                            assert forall|i: int| 0 <= i < total implies (#[trigger] seen@[i] <==> (seen0[i]
                                || b2.contains(i) || stack@.contains(i as usize))) by {
                                if stack_before.contains(i as usize) && i != p {
                                    let q = choose|q: int| 0 <= q < stack_before.len() && stack_before[q] == i as usize;
                                    assert(q != stack_before.len() - 1);
                                    assert(stack@[q] == i as usize);
                                }
                                if stack@.contains(i as usize) {
                                    let q = choose|q: int| 0 <= q < stack@.len() && stack@[q] == i as usize;
                                    assert(stack_before[q] == i as usize);
                                }
                            }
                            assert forall|q: int| 0 <= q < stack@.len() implies (#[trigger] stack@[q]) < total
                                && !seen0[stack@[q] as int] && ink_reach(mask, ws, a as int, stack@[q] as int)
                                && !b2.contains(stack@[q] as int) by {
                                assert(stack@[q] == stack_before[q]);
                                assert(stack_before[q] != stack_before[stack_before.len() - 1]);
                            }
                            assert(b2.contains(a as int) || stack@.contains(a as usize)) by {
                                if stack_before.contains(a as usize) && a != p {
                                    let q = choose|q: int| 0 <= q < stack_before.len() && stack_before[q] == a as usize;
                                    assert(q != stack_before.len() - 1);
                                    assert(stack@[q] == a as usize);
                                }
                            }
                            b = b2;
                        }
                        let ylo: usize = if ppy > 0 { ppy - 1 } else { 0 };
                        let yhi: usize = if ppy + 1 < hu { ppy + 1 } else { ppy };
                        let xlo: usize = if ppx > 0 { ppx - 1 } else { 0 };
                        let xhi: usize = if ppx + 1 < wu { ppx + 1 } else { ppx };
                        let mut ny: usize = ylo;
                        while ny <= yhi
                            invariant
                                total == mask.len(),
                                mask == ink@,
                                ws == w,
                                wu == w,
                                hu == h,
                                0 < w,
                                0 < h,
                                total == w * h,
                                0 <= a < total,
                                0 <= p < total,
                                ppx == (p as int) % ws,
                                ppy == (p as int) / ws,
                                ppx < wu,
                                ppy < hu,
                                ylo <= ny <= yhi + 1,
                                yhi < hu,
                                xlo <= xhi < wu,
                                ylo as int == if ppy > 0 { ppy - 1 } else { 0 },
                                yhi as int == if ppy + 1 < hu { ppy + 1 } else { ppy as int },
                                xlo as int == if ppx > 0 { ppx - 1 } else { 0 },
                                xhi as int == if ppx + 1 < wu { ppx + 1 } else { ppx as int },
                                mask[p as int] == Some(open),
                                b.contains(p as int),
                                seen_up_to(mask, ws, seen0, a as int),
                                fill_ok(mask, ws, a as int, seen0, seen@, b, stack@),
                                forall|i: int, j: int|
                                    #[trigger] b.contains(i) && #[trigger] ink_link(mask, ws, i, j) && i != p ==> seen@[j],
                                forall|j: int| #[trigger] ink_link(mask, ws, p as int, j) && j / ws < ny ==> seen@[j],
                            decreases yhi + 1 - ny,
                        {
                            let mut nx: usize = xlo;
                            while nx <= xhi
                                invariant
                                    total == mask.len(),
                                    mask == ink@,
                                    ws == w,
                                    wu == w,
                                    hu == h,
                                    0 < w,
                                    0 < h,
                                    total == w * h,
                                    0 <= a < total,
                                    0 <= p < total,
                                    ppx == (p as int) % ws,
                                    ppy == (p as int) / ws,
                                    ylo <= ny <= yhi,
                                    yhi < hu,
                                    xlo <= nx <= xhi + 1,
                                    xhi < wu,
                                    ylo as int == if ppy > 0 { ppy - 1 } else { 0 },
                                    yhi as int == if ppy + 1 < hu { ppy + 1 } else { ppy as int },
                                    xlo as int == if ppx > 0 { ppx - 1 } else { 0 },
                                    xhi as int == if ppx + 1 < wu { ppx + 1 } else { ppx as int },
                                    mask[p as int] == Some(open),
                                    b.contains(p as int),
                                    seen_up_to(mask, ws, seen0, a as int),
                                    fill_ok(mask, ws, a as int, seen0, seen@, b, stack@),
                                    forall|i: int, j: int|
                                        #[trigger] b.contains(i) && #[trigger] ink_link(mask, ws, i, j) && i != p ==> seen@[j],
                                    forall|j: int|
                                        #[trigger] ink_link(mask, ws, p as int, j) && (j / ws < ny || (j / ws == ny && j % ws
                                            < nx)) ==> seen@[j],
                                decreases xhi + 1 - nx,
                            {
                                proof {
                                    lemma_pixel_inside(ws, h as int, ny as int, nx as int);
                                    lemma_pixel(ws, ny as int, nx as int);
                                }
                                let j = ny * wu + nx;
                                let take = match ink[j] {
                                    Some(c) => c == open && !seen[j],
                                    None => false,
                                };
                                if take {
                                    proof {
                                        assert(ink_link(mask, ws, p as int, j as int));
                                        let m = choose|m: int| m >= 0 && #[trigger] ink_within(mask, ws, a as int, p as int, m);
                                        lemma_within_step(mask, ws, a as int, p as int, j as int, m);
                                        assert(ink_reach(mask, ws, a as int, j as int));
                                        assert(!stack@.contains(j as usize));
                                    }
                                    let ghost stack_before = stack@;
                                    seen[j] = true;
                                    stack.push(j);
                                    proof {
                                        assert forall|i: int| 0 <= i < total implies (#[trigger] seen@[i] <==> (
                                            seen0[i] || b.contains(i) || stack@.contains(i as usize))) by {
                                            if stack_before.contains(i as usize) {
                                                let q = choose|q: int| 0 <= q < stack_before.len() && stack_before[q] == i as usize;
                                                assert(stack@[q] == i as usize);
                                            }
                                            if stack@.contains(i as usize) && i != j {
                                                let q = choose|q: int| 0 <= q < stack@.len() && stack@[q] == i as usize;
                                                assert(stack_before[q] == i as usize);
                                            }
                                            if i == j {
                                                assert(stack@[stack@.len() - 1] == j);
                                            }
                                        }
                                        assert forall|q: int| 0 <= q < stack@.len() implies (#[trigger] stack@[q]) < total
                                            && !seen0[stack@[q] as int] && ink_reach(mask, ws, a as int, stack@[q] as int)
                                            && !b.contains(stack@[q] as int) by {
                                            if q < stack_before.len() {
                                                assert(stack@[q] == stack_before[q]);
                                            }
                                        }
                                        assert(b.contains(a as int) || stack@.contains(a as usize)) by {
                                            if stack_before.contains(a as usize) {
                                                let q = choose|q: int| 0 <= q < stack_before.len() && stack_before[q] == a as usize;
                                                assert(stack@[q] == a as usize);
                                            }
                                        }
                                    }
                                }
                                proof {
                                    let jj = j as int;
                                    if ink_link(mask, ws, p as int, jj) {
                                        assert(seen@[jj]);
                                    }
                                    assert forall|k: int|
                                        #[trigger] ink_link(mask, ws, p as int, k) && (k / ws < ny || (k / ws == ny && k % ws
                                            < nx + 1)) implies seen@[k] by {
                                        if k / ws == ny && k % ws == nx {
                                            vstd::arithmetic::div_mod::lemma_fundamental_div_mod(k, ws);
                                            let (q, r) = (k / ws, k % ws);
                                            assert(k == q * ws + r) by (nonlinear_arith)
                                                requires
                                                    k == ws * q + r,
                                            ;
                                            assert(k == jj);
                                        }
                                    }
                                }
                                nx += 1;
                            }
                            ny += 1;
                        }
                        proof {
                            assert forall|i: int, j: int| #[trigger] b.contains(i) && #[trigger] ink_link(mask, ws, i, j) implies seen@[j] by {
                                if i == p {
                                    lemma_pixel_bounds(ws, h as int, j);
                                }
                            }
                        }
                    }
                    proof {
                        let comp = component(mask, ws, a as int);
                        assert forall|i: int| 0 <= i < total implies (b.contains(i) <==> comp.contains(i)) by {
                            if comp.contains(i) {
                                let n = choose|n: int| n >= 0 && #[trigger] ink_within(mask, ws, a as int, i, n);
                                assert(stack@ =~= Seq::<usize>::empty());
                                lemma_fill_complete(mask, ws, a as int, seen0, seen@, b, i, n);
                            }
                        }
                        lemma_set_ext(b, comp, ws, x0 as int, y0 as int, total as int);
                        assert(stack@ =~= Seq::<usize>::empty());
                        assert(b.contains(a as int));
                        lemma_set_extremes(b, ws, x0 as int, y0 as int, a as int, total as int);
                        lemma_set_nonempty(b, a as int, total as int);
                        lemma_set_count_le(b, total as int);
                        assert(blob == blob_of(mask, ws, x0 as int, y0 as int, a as int));
                        assert(is_first_of_blob(mask, ws, a as int));
                        assert forall|i: int| 0 <= i < total implies (#[trigger] seen@[i] <==> (mask[i] is Some
                            && exists|t: int| 0 <= t < a + 1 && #[trigger] ink_reach(mask, ws, i, t))) by {
                            if b.contains(i) {
                                let n = choose|n: int| n >= 0 && #[trigger] ink_within(mask, ws, a as int, i, n);
                                lemma_reach_symmetric(mask, ws, a as int, i, n);
                                lemma_within_colour(mask, ws, a as int, i, n);
                                assert(ink_reach(mask, ws, i, a as int));
                            }
                            if mask[i] is Some && exists|t: int| 0 <= t < a + 1 && #[trigger] ink_reach(mask, ws, i, t) {
                                let t = choose|t: int| 0 <= t < a + 1 && #[trigger] ink_reach(mask, ws, i, t);
                                if t == a {
                                    let n = choose|n: int| n >= 0 && #[trigger] ink_within(mask, ws, i, a as int, n);
                                    lemma_reach_symmetric(mask, ws, i, a as int, n);
                                    assert(comp.contains(i));
                                }
                            }
                        }
                    }
                    blobs.push(blob);
                } else {
                    proof {
                        let t0 = choose|t: int| 0 <= t < a && #[trigger] ink_reach(mask, ws, a as int, t);
                        assert(!is_first_of_blob(mask, ws, a as int));
                        assert forall|i: int| 0 <= i < total implies (#[trigger] seen@[i] <==> (mask[i] is Some
                            && exists|t: int| 0 <= t < a + 1 && #[trigger] ink_reach(mask, ws, i, t))) by {
                            if mask[i] is Some && ink_reach(mask, ws, i, a as int) {
                                let n = choose|n: int| n >= 0 && #[trigger] ink_within(mask, ws, i, a as int, n);
                                let m = choose|m: int| m >= 0 && #[trigger] ink_within(mask, ws, a as int, t0, m);
                                lemma_within_trans(mask, ws, i, a as int, t0, n, m);
                                assert(ink_reach(mask, ws, i, t0));
                            }
                        }
                    }
                }
            },
            None => {
                proof {
                    assert(!is_first_of_blob(mask, ws, a as int));
                    assert forall|i: int| 0 <= i < total implies (#[trigger] seen@[i] <==> (mask[i] is Some && exists|t: int|
                        0 <= t < a + 1 && #[trigger] ink_reach(mask, ws, i, t))) by {
                        if mask[i] is Some && ink_reach(mask, ws, i, a as int) {
                            let n = choose|n: int| n >= 0 && #[trigger] ink_within(mask, ws, i, a as int, n);
                            lemma_within_colour(mask, ws, i, a as int, n);
                        }
                    }
                }
            },
        }
        a += 1;
    }
    blobs
}
} // verus!
