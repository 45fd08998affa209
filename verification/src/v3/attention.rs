//! Which positions a query may read, and where they live.

use vstd::prelude::*;

verus! {

/// How a cache hands its keys and values to attention.
///
/// The int8 form stores one `i8` per element plus one scale per head vector.
#[allow(inconsistent_fields)]
pub enum KvStore<'a, T> {
    F32 { k: &'a [T], v: &'a [T] },
    Int8 {
        k: &'a [i8],
        /// One scale per `(slot, kv_head)`.
        k_scale: &'a [T],
        v: &'a [i8],
        v_scale: &'a [T],
    },
}

/// A ring-buffered key/value cache and the window into it a query may read:
/// the logical positions `lo..=hi`, each at slot `p % slots`.
pub struct Ring<'a, T> {
    pub kv: KvStore<'a, T>,
    pub slots: usize,
    pub lo: usize,
    pub hi: usize,
}

impl<'a, T> Ring<'a, T> {
    /// The window is not empty, and no longer than the ring.
    pub open spec fn wf(&self) -> bool {
        self.lo <= self.hi < usize::MAX && self.hi - self.lo < self.slots
    }

    /// The slots the query reads, oldest position first.
    pub fn rows(&self) -> (at: Vec<usize>)
        requires
            self.wf(),
        ensures
            at@ == slots_read(self.lo as int, self.hi as int, self.slots as int),
    {
        ring_slots(self.lo, self.hi, self.slots)
    }
}

/// Shapes one attention call works over.
#[derive(Debug, Clone, Copy, PartialEq, Eq)]
pub struct AttnDims {
    pub seq: usize,
    pub num_heads: usize,
    pub num_kv_heads: usize,
    pub qk_head_dim: usize,
    pub v_head_dim: usize,
}

impl AttnDims {
    /// Query heads served by one key/value head.
    pub fn kv_repeat(&self) -> (r: usize)
        requires
            self.num_kv_heads != 0,
        ensures
            r == self.num_heads / self.num_kv_heads,
    {
        self.num_heads / self.num_kv_heads
    }

    /// Every key/value head serves the same number of query heads.
    pub open spec fn grouped(&self) -> bool {
        self.num_kv_heads > 0 && self.num_heads as int % self.num_kv_heads as int == 0
    }

    /// Whether every key/value head serves the same number of query heads.
    pub fn is_grouped(&self) -> (yes: bool)
        ensures
            yes == self.grouped(),
    {
        self.num_kv_heads > 0 && self.num_heads % self.num_kv_heads == 0
    }

    /// The key/value head that query head `h` reads.
    pub open spec fn head_of(&self, h: int) -> int {
        h / (self.num_heads as int / self.num_kv_heads as int)
    }

    /// The key/value head that query head `h` reads.
    pub fn kv_head(&self, h: usize) -> (g: usize)
        requires
            self.grouped(),
            h < self.num_heads,
        ensures
            g == self.head_of(h as int),
            g < self.num_kv_heads,
    {
        proof {
            every_group_is_as_large(*self, h as int);
        }
        h / self.kv_repeat()
    }

    /// Which head vector of a store query head `h` reads at row `row`: a row
    /// holds one per key/value head.
    pub fn cell(&self, row: usize, h: usize) -> (c: usize)
        requires
            self.grouped(),
            h < self.num_heads,
            (row + 1) * self.num_kv_heads <= usize::MAX,
        ensures
            c == row * self.num_kv_heads + self.head_of(h as int),
            row * self.num_kv_heads <= c < (row + 1) * self.num_kv_heads,
    {
        let g: usize = self.kv_head(h);
        proof {
            let k = self.num_kv_heads as int;
            assert((row + 1) * k == row * k + k) by (nonlinear_arith);
            assert(row * k >= 0) by (nonlinear_arith)
                requires
                    k >= 0,
            ;
        }
        row * self.num_kv_heads + g
    }
}

/// The query heads fall into groups of one size, each read from one of the
/// key/value heads.
pub proof fn every_group_is_as_large(d: AttnDims, h: int)
    requires
        d.grouped(),
        0 <= h < d.num_heads,
    ensures
        ({
            let size = d.num_heads as int / d.num_kv_heads as int;
            let g = d.head_of(h);
            &&& size > 0
            &&& 0 <= g < d.num_kv_heads
            &&& g * size <= h < (g + 1) * size
        }),
{
    let n = d.num_heads as int;
    let k = d.num_kv_heads as int;
    vstd::arithmetic::div_mod::lemma_fundamental_div_mod(n, k);
    let size = n / k;
    if size <= 0 {
        assert(k * size <= 0) by (nonlinear_arith)
            requires
                k > 0,
                size <= 0,
        ;
    }
    vstd::arithmetic::div_mod::lemma_fundamental_div_mod(h, size);
    let g = h / size;
    assert((g + 1) * size == size * g + size) by (nonlinear_arith);
    assert(g * size == size * g) by (nonlinear_arith);
    if g < 0 {
        assert(size * g + size <= 0) by (nonlinear_arith)
            requires
                size > 0,
                g <= -1,
        ;
    }
    if g >= k {
        assert(size * g >= k * size) by (nonlinear_arith)
            requires
                size > 0,
                g >= k,
        ;
    }
}

/// Two rows, or two key/value heads, never share a head vector.
pub proof fn head_vectors_are_apart(k: int, row1: int, g1: int, row2: int, g2: int)
    requires
        0 <= g1 < k,
        0 <= g2 < k,
        row1 * k + g1 == row2 * k + g2,
    ensures
        row1 == row2,
        g1 == g2,
{
    vstd::arithmetic::div_mod::lemma_fundamental_div_mod_converse(row1 * k + g1, k, row1, g1);
    vstd::arithmetic::div_mod::lemma_fundamental_div_mod_converse(row2 * k + g2, k, row2, g2);
}

/// First position a query at `t` may read, counting itself into `window`;
/// without a window it reads from the start.
pub open spec fn first_visible(t: int, window: Option<usize>) -> int {
    match window {
        Some(w) => if t + 1 > w {
            t + 1 - w
        } else {
            0
        },
        None => 0,
    }
}

/// First position a query at `t` may read.
pub fn window_start(t: usize, window: Option<usize>) -> (lo: usize)
    requires
        t < usize::MAX,
    ensures
        lo == first_visible(t as int, window),
{
    match window {
        Some(w) => if t + 1 > w {
            t + 1 - w
        } else {
            0
        },
        None => 0,
    }
}

/// A window of `w > 0` shows at most `w` positions, the query's own among
/// them.
pub proof fn a_window_shows_what_it_holds(t: int, w: usize)
    requires
        t >= 0,
        w > 0,
    ensures
        0 <= first_visible(t, Some(w)) <= t,
        t - first_visible(t, Some(w)) + 1 <= w,
        t + 1 <= w ==> first_visible(t, Some(w)) == first_visible(t, None),
{
}

/// The slots that hold the logical positions `lo..=hi`.
pub open spec fn slots_read(lo: int, hi: int, slots: int) -> Seq<usize> {
    Seq::new((hi - lo + 1) as nat, |i: int| ((lo + i) % slots) as usize)
}

/// The slots a decode step reads, oldest position first: logical position `p`
/// lives at slot `p % slots`.
pub fn ring_slots(lo: usize, hi: usize, slots: usize) -> (at: Vec<usize>)
    requires
        lo <= hi < usize::MAX,
        hi - lo < slots,
    ensures
        at@ == slots_read(lo as int, hi as int, slots as int),
{
    let mut at: Vec<usize> = Vec::new();
    let mut p: usize = lo;
    while p <= hi
        invariant
            lo <= p <= hi + 1,
            hi < usize::MAX,
            slots > 0,
            at@ == Seq::new((p - lo) as nat, |i: int| ((lo + i) % slots as int) as usize),
        decreases hi + 1 - p,
    {
        at.push(p % slots);
        p = p + 1;
        assert(at@ =~= Seq::new((p - lo) as nat, |i: int| ((lo + i) % slots as int) as usize));
    }
    at
}

/// No slot is read twice: positions closer together than the ring is long
/// never share a slot.
pub proof fn ring_positions_do_not_collide(p1: int, p2: int, slots: int)
    requires
        0 <= p1 < p2,
        p2 - p1 < slots,
    ensures
        p1 % slots != p2 % slots,
{
    if p1 % slots == p2 % slots {
        vstd::arithmetic::div_mod::lemma_fundamental_div_mod(p1, slots);
        vstd::arithmetic::div_mod::lemma_fundamental_div_mod(p2, slots);
        let a = p1 / slots;
        let b = p2 / slots;
        assert(slots * b - slots * a == slots * (b - a)) by (nonlinear_arith);
        assert(b - a >= 1 ==> slots * (b - a) >= slots) by (nonlinear_arith)
            requires
                slots > 0,
        ;
        assert(b - a <= 0 ==> slots * (b - a) <= 0) by (nonlinear_arith)
            requires
                slots > 0,
        ;
    }
}

/// A window shows all that it may: the query's own position and those before
/// it, as many as the window is wide or as there are; without a window, all.
pub proof fn a_window_shows_all_that_it_may(t: int, w: usize, p: int)
    requires
        t >= 0,
        w > 0,
        0 <= p <= t,
    ensures
        first_visible(t, Some(w)) <= p <==> t - p < w,
        first_visible(t, None) <= p,
        first_visible(t, Some(w)) >= 0,
        first_visible(t, None) == 0,
{
}

/// A decode step reads each visible position once, in order, at the slot of its
/// number modulo the ring.
pub proof fn a_step_reads_each_position_once(lo: int, hi: int, slots: int, i: int, j: int)
    requires
        0 <= lo <= hi,
        hi - lo < slots <= usize::MAX,
        0 <= i < j <= hi - lo,
    ensures
        slots_read(lo, hi, slots).len() == hi - lo + 1,
        slots_read(lo, hi, slots)[i] as int == (lo + i) % slots,
        slots_read(lo, hi, slots)[j] as int == (lo + j) % slots,
        slots_read(lo, hi, slots)[i] != slots_read(lo, hi, slots)[j],
{
    vstd::arithmetic::div_mod::lemma_mod_bound(lo + i, slots);
    vstd::arithmetic::div_mod::lemma_mod_bound(lo + j, slots);
    ring_positions_do_not_collide(lo + i, lo + j, slots);
}

} // verus!
