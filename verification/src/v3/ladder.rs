//! The intelligence ladder: which blocks a depth rung keeps.
//!
//! Needle 3 is trained so that every depth from 2 to `num_layers` blocks is a
//! deployable subnetwork. Which blocks survive is not a prefix: it is a
//! bisection from both endpoints, so the rungs nest and stay spread across the
//! stack rather than collapsing onto one end.
//!
//! For 20 blocks the order is:
//!
//! ```text
//! 0, 19, 9, 14, 4, 6, 11, 16, 2, 7, 12, 17, 1, 3, 5, 8, 10, 13, 15, 18
//! ```

use vstd::prelude::*;

verus! {

/// `left` and `right` are both chosen and no chosen block lies between them.
pub open spec fn is_gap(chosen: Seq<usize>, left: usize, right: usize) -> bool {
    &&& left < right
    &&& chosen.contains(left)
    &&& chosen.contains(right)
    &&& forall|x: usize| #[trigger] chosen.contains(x) ==> x <= left || right <= x
}

/// The gap that is split next: the widest one, the leftmost among equals, and
/// only if there is a block inside it.
pub open spec fn is_widest_gap(chosen: Seq<usize>, left: usize, right: usize) -> bool {
    &&& is_gap(chosen, left, right)
    &&& right - left > 1
    &&& forall|l: usize, r: usize| #[trigger]
        is_gap(chosen, l, r) ==> r - l < right - left || (r - l == right - left && left <= l)
}

/// The block a further split adds to `chosen`: the midpoint of its widest gap.
pub open spec fn next_block(chosen: Seq<usize>) -> usize {
    let (left, right) = choose|l: usize, r: usize| is_widest_gap(chosen, l, r);
    ((left + right) / 2) as usize
}

/// The first `k` blocks of the order for a stack of `n` blocks.
pub open spec fn ladder_prefix(n: nat, k: nat) -> Seq<usize>
    decreases k,
{
    if k == 0 || n == 0 {
        Seq::empty()
    } else if k == 1 || n == 1 {
        seq![0usize]
    } else if k == 2 {
        seq![0usize, (n - 1) as usize]
    } else {
        let shorter = ladder_prefix(n, (k - 1) as nat);
        shorter.push(next_block(shorter))
    }
}

/// The whole order for a stack of `n` blocks.
pub open spec fn ladder_spec(n: nat) -> Seq<usize> {
    ladder_prefix(n, n)
}

/// Strictly ascending.
pub open spec fn ascending(s: Seq<usize>) -> bool {
    forall|i: int, j: int| 0 <= i < j < s.len() ==> s[i] < s[j]
}

/// There is at most one widest gap.
proof fn lemma_widest_gap_unique(chosen: Seq<usize>, l1: usize, r1: usize, l2: usize, r2: usize)
    requires
        is_widest_gap(chosen, l1, r1),
        is_widest_gap(chosen, l2, r2),
    ensures
        l1 == l2,
        r1 == r2,
{
}

/// An ascending list of `k < n` blocks that reaches from 0 to `n - 1` has two
/// neighbours that are not adjacent numbers.
proof fn lemma_hole(s: Seq<usize>, n: int, i: int)
    requires
        ascending(s),
        s.len() >= 2,
        s[0] == 0,
        s.last() == n - 1,
        s.len() < n,
        0 <= i < s.len(),
        forall|j: int| 0 <= j < s.len() - 1 ==> #[trigger] s[j + 1] - s[j] <= 1,
    ensures
        s[i] == i,
    decreases i,
{
    if i > 0 {
        lemma_hole(s, n, i - 1);
        assert(s[(i - 1) + 1] - s[i - 1] <= 1);
    }
}

/// In an ascending list the gaps are exactly the pairs of neighbours.
proof fn lemma_gap_is_neighbours(s: Seq<usize>, l: usize, r: usize) -> (i: int)
    requires
        ascending(s),
        is_gap(s, l, r),
    ensures
        0 <= i < s.len() - 1,
        s[i] == l,
        s[i + 1] == r,
{
    let i = choose|i: int| 0 <= i < s.len() && s[i] == l;
    let j = choose|j: int| 0 <= j < s.len() && s[j] == r;
    assert(i < j);
    if i + 1 < j {
        assert(s.contains(s[i + 1]));
    }
    i
}

proof fn lemma_neighbours_are_gap(s: Seq<usize>, i: int)
    requires
        ascending(s),
        0 <= i < s.len() - 1,
    ensures
        is_gap(s, s[i], s[i + 1]),
{
    assert forall|x: usize| #[trigger] s.contains(x) implies x <= s[i] || s[i + 1] <= x by {
        let k = choose|k: int| 0 <= k < s.len() && s[k] == x;
        if k < i {
            assert(s[k] < s[i]);
        } else if k > i + 1 {
            assert(s[i + 1] < s[k]);
        }
    }
}

/// `is_widest_gap` reads only which blocks are chosen, not their order.
proof fn lemma_widest_gap_same_elements(a: Seq<usize>, b: Seq<usize>, l: usize, r: usize)
    requires
        forall|x: usize| a.contains(x) <==> b.contains(x),
        is_widest_gap(a, l, r),
    ensures
        is_widest_gap(b, l, r),
{
    assert forall|x: usize, y: usize| #[trigger] is_gap(b, x, y) implies is_gap(a, x, y) by {}
}

/// The order blocks are added in as depth grows, longest gap first.
///
/// Starts from both endpoints, then repeatedly splits the widest remaining gap
/// at its midpoint. Ties go to the leftmost gap.
pub fn ladder_order(num_layers: usize) -> (order: Vec<usize>)
    ensures
        order@ == ladder_spec(num_layers as nat),
        order@.len() == num_layers,
        order@.no_duplicates(),
        forall|i: int| 0 <= i < order@.len() ==> order@[i] < num_layers,
{
    let mut order: Vec<usize> = Vec::new();
    if num_layers == 0 {
        return order;
    }
    order.push(0);
    if num_layers == 1 {
        return order;
    }
    order.push(num_layers - 1);
    // `chosen` holds the same blocks in ascending order.
    let mut chosen: Vec<usize> = Vec::new();
    chosen.push(0);
    chosen.push(num_layers - 1);
    let ghost n = num_layers as nat;
    while order.len() < num_layers
        invariant
            n == num_layers as nat,
            2 <= order@.len() <= num_layers,
            order@ == ladder_prefix(n, order@.len()),
            order@.no_duplicates(),
            forall|i: int| 0 <= i < order@.len() ==> order@[i] < num_layers,
            chosen@.len() == order@.len(),
            ascending(chosen@),
            chosen@[0] == 0,
            chosen@.last() == num_layers - 1,
            forall|x: usize| chosen@.contains(x) <==> order@.contains(x),
        decreases num_layers - order.len(),
    {
        let mut best: usize = 0;
        let mut best_gap: usize = 0;
        let mut i: usize = 0;
        while i + 1 < chosen.len()
            invariant
                ascending(chosen@),
                2 <= chosen@.len(),
                i + 1 <= chosen@.len(),
                best_gap > 0 ==> best < i && best_gap == chosen@[best as int + 1]
                    - chosen@[best as int],
                forall|j: int|
                    0 <= j < i ==> #[trigger] chosen@[j + 1] - chosen@[j] <= best_gap && (chosen@[j
                        + 1] - chosen@[j] == best_gap ==> best <= j),
            decreases chosen.len() - i,
        {
            let gap: usize = chosen[i + 1] - chosen[i];
            if gap > best_gap {
                best = i;
                best_gap = gap;
            }
            i = i + 1;
        }
        proof {
            if best_gap <= 1 {
                lemma_hole(chosen@, n as int, chosen@.len() - 1);
            }
        }
        let left: usize = chosen[best];
        let right: usize = chosen[best + 1];
        proof {
            lemma_neighbours_are_gap(chosen@, best as int);
            assert forall|l: usize, r: usize| #[trigger] is_gap(chosen@, l, r) implies r - l < right
                - left || (r - l == right - left && left <= l) by {
                let j = lemma_gap_is_neighbours(chosen@, l, r);
                assert(chosen@[j + 1] - chosen@[j] <= best_gap);
                if best < j {
                    assert(chosen@[best as int] < chosen@[j]);
                }
            }
            assert(is_widest_gap(chosen@, left, right));
            lemma_widest_gap_same_elements(chosen@, order@, left, right);
            let (l, r) = choose|l: usize, r: usize| is_widest_gap(order@, l, r);
            lemma_widest_gap_unique(order@, left, right, l, r);
        }
        let mid: usize = left + (right - left) / 2;
        assert(mid == (left + right) / 2);
        let ghost before = chosen@;
        let ghost order_before = order@;
        proof {
            assert(!before.contains(mid)) by {
                if before.contains(mid) {
                    let k = choose|k: int| 0 <= k < before.len() && before[k] == mid;
                    assert(left < mid < right);
                    if k < best {
                        assert(before[k] < before[best as int]);
                    } else if k > best + 1 {
                        assert(before[best as int + 1] < before[k]);
                    }
                }
            }
        }
        chosen.insert(best + 1, mid);
        order.push(mid);
        proof {
            assert(!order_before.contains(mid));
            assert forall|i: int, j: int| 0 <= i < j < chosen@.len() implies chosen@[i]
                < chosen@[j] by {
                let ii = if i <= best { i } else { i - 1 };
                let jj = if j <= best { j } else { j - 1 };
                if i == best + 1 {
                    if jj > best + 1 {
                        assert(before[best as int + 1] < before[jj]);
                    }
                } else if j == best + 1 {
                    if ii < best {
                        assert(before[ii] < before[best as int]);
                    }
                } else {
                    assert(before[ii] < before[jj]);
                }
            }
            assert forall|x: usize| chosen@.contains(x) <==> order@.contains(x) by {
                if chosen@.contains(x) {
                    let k = choose|k: int| 0 <= k < chosen@.len() && chosen@[k] == x;
                    if k <= best {
                        assert(before[k] == x);
                        assert(before.contains(x));
                    } else if k > best + 1 {
                        assert(before[k - 1] == x);
                        assert(before.contains(x));
                    }
                    if x == mid {
                        assert(order@[order_before.len() as int] == x);
                    } else {
                        let q = choose|q: int| 0 <= q < order_before.len() && order_before[q] == x;
                        assert(order@[q] == x);
                    }
                }
                if order@.contains(x) {
                    if x == mid {
                        assert(chosen@[best as int + 1] == x);
                    } else {
                        let q = choose|q: int| 0 <= q < order@.len() && order@[q] == x;
                        assert(order_before[q] == x);
                        assert(before.contains(x));
                        let k = choose|k: int| 0 <= k < before.len() && before[k] == x;
                        if k <= best {
                            assert(chosen@[k] == x);
                        } else {
                            assert(chosen@[k + 1] == x);
                        }
                    }
                }
            }
        }
    }
    order
}

/// `kept` is the rung of `depth` in a stack of `n` blocks: the first `depth`
/// blocks of the order, listed ascending.
pub open spec fn is_rung(n: nat, depth: nat, kept: Seq<usize>) -> bool {
    &&& ascending(kept)
    &&& kept.len() == depth
    &&& forall|b: usize| #[trigger] kept.contains(b) <==> ladder_prefix(n, depth).contains(b)
}

/// The blocks below `b` that `chosen` holds, ascending.
pub open spec fn chosen_below(chosen: Seq<usize>, b: nat) -> Seq<usize>
    decreases b,
{
    if b == 0 {
        Seq::empty()
    } else {
        let lower = chosen_below(chosen, (b - 1) as nat);
        if chosen.contains((b - 1) as usize) {
            lower.push((b - 1) as usize)
        } else {
            lower
        }
    }
}

/// The rung of `depth` in a stack of `n` blocks.
pub open spec fn rung(n: nat, depth: nat) -> Seq<usize> {
    chosen_below(ladder_prefix(n, depth), n)
}

proof fn lemma_chosen_below(chosen: Seq<usize>, b: nat)
    requires
        b <= usize::MAX,
    ensures
        ascending(chosen_below(chosen, b)),
        forall|x: usize| #[trigger]
            chosen_below(chosen, b).contains(x) <==> x < b && chosen.contains(x),
    decreases b,
{
    if b > 0 {
        let lower = chosen_below(chosen, (b - 1) as nat);
        lemma_chosen_below(chosen, (b - 1) as nat);
        let last = (b - 1) as usize;
        if chosen.contains(last) {
            let all = lower.push(last);
            assert forall|i: int, j: int| 0 <= i < j < all.len() implies all[i] < all[j] by {
                if j == lower.len() {
                    assert(lower.contains(lower[i]));
                }
            }
            assert forall|x: usize| #[trigger] all.contains(x) <==> x < b && chosen.contains(x) by {
                if all.contains(x) && x != last {
                    let k = choose|k: int| 0 <= k < all.len() && all[k] == x;
                    assert(lower[k] == x);
                    assert(lower.contains(x));
                }
                if x < b && chosen.contains(x) {
                    if x == last {
                        assert(all[lower.len() as int] == x);
                    } else {
                        assert(lower.contains(x));
                        let k = choose|k: int| 0 <= k < lower.len() && lower[k] == x;
                        assert(all[k] == x);
                    }
                }
            }
        }
    }
}

/// `rung` lists the first `depth` blocks of the order, ascending.
pub proof fn rung_is_rung(n: nat, depth: nat)
    requires
        2 <= depth <= n <= usize::MAX,
    ensures
        is_rung(n, depth, rung(n, depth)),
        forall|i: int| 0 <= i < depth ==> rung(n, depth)[i] < n,
{
    let prefix = ladder_prefix(n, depth);
    let kept = rung(n, depth);
    lemma_chosen_below(prefix, n);
    lemma_prefix_len(n, depth);
    lemma_prefix_distinct(n, depth);
    assert forall|b: usize| #[trigger] kept.contains(b) <==> prefix.contains(b) by {
        if prefix.contains(b) {
            let k = choose|k: int| 0 <= k < prefix.len() && prefix[k] == b;
            assert(prefix[k] < n);
        }
    }
    lemma_count_kept(prefix, kept);
    assert forall|i: int| 0 <= i < depth implies kept[i] < n by {
        assert(kept.contains(kept[i]));
    }
}

proof fn lemma_prefix_len(n: nat, k: nat)
    requires
        k <= n,
    ensures
        ladder_prefix(n, k).len() == k,
    decreases k,
{
    if k > 2 {
        lemma_prefix_len(n, (k - 1) as nat);
    }
}

/// The order for `k` blocks starts with the order for fewer.
proof fn lemma_prefix_extends(n: nat, d: nat, k: nat)
    requires
        1 <= d <= k <= n,
    ensures
        ladder_prefix(n, k).take(d as int) == ladder_prefix(n, d),
    decreases k,
{
    lemma_prefix_len(n, k);
    lemma_prefix_len(n, d);
    if d == k {
        assert(ladder_prefix(n, k).take(d as int) =~= ladder_prefix(n, d));
    } else if k > 2 {
        lemma_prefix_len(n, (k - 1) as nat);
        lemma_prefix_extends(n, d, (k - 1) as nat);
        assert(ladder_prefix(n, k).take(d as int) =~= ladder_prefix(n, (k - 1) as nat).take(
            d as int,
        ));
    } else {
        assert(ladder_prefix(n, k).take(d as int) =~= ladder_prefix(n, d));
    }
}

/// A list that holds every number below `n` has at least `n` entries.
proof fn lemma_pigeonhole(s: Seq<usize>, n: nat)
    requires
        forall|m: usize| m < n ==> #[trigger] s.contains(m),
        n <= usize::MAX,
    ensures
        s.len() >= n,
    decreases n,
{
    if n > 0 {
        let top = (n - 1) as usize;
        assert(s.contains(top));
        let at = choose|i: int| 0 <= i < s.len() && s[i] == top;
        let rest = s.remove(at);
        assert forall|m: usize| m < n - 1 implies #[trigger] rest.contains(m) by {
            assert(s.contains(m));
            let k = choose|k: int| 0 <= k < s.len() && s[k] == m;
            if k < at {
                assert(rest[k] == m);
            } else {
                assert(rest[k - 1] == m);
            }
        }
        lemma_pigeonhole(rest, (n - 1) as nat);
    }
}

proof fn lemma_nearest_below(s: Seq<usize>, m: usize) -> (l: usize)
    requires
        s.contains(0usize),
    ensures
        l <= m,
        s.contains(l),
        forall|x: usize| l < x <= m ==> !#[trigger] s.contains(x),
    decreases m,
{
    if s.contains(m) {
        m
    } else {
        lemma_nearest_below(s, (m - 1) as usize)
    }
}

proof fn lemma_nearest_above(s: Seq<usize>, m: usize, top: usize) -> (r: usize)
    requires
        s.contains(top),
        m <= top,
    ensures
        m <= r <= top,
        s.contains(r),
        forall|x: usize| m <= x < r ==> !#[trigger] s.contains(x),
    decreases top - m,
{
    if s.contains(m) {
        m
    } else {
        lemma_nearest_above(s, (m + 1) as usize, top)
    }
}

proof fn lemma_widen(s: Seq<usize>, top: usize, l: usize, r: usize)
    requires
        forall|x: usize| s.contains(x) ==> x <= top,
        is_gap(s, l, r),
        r - l > 1,
    ensures
        exists|a: usize, b: usize| is_widest_gap(s, a, b),
    decreases top - (r - l), l,
{
    if !is_widest_gap(s, l, r) {
        let (a, b) = choose|a: usize, b: usize|
            is_gap(s, a, b) && !(b - a < r - l || (b - a == r - l && l <= a));
        lemma_widen(s, top, a, b);
    }
}

/// As long as a block is missing there is a widest gap, and splitting it adds
/// a block that was missing.
proof fn lemma_split_exists(s: Seq<usize>, n: nat)
    requires
        2 <= n <= usize::MAX,
        s.len() < n,
        s.contains(0usize),
        s.contains((n - 1) as usize),
        forall|i: int| 0 <= i < s.len() ==> s[i] < n,
    ensures
        !s.contains(next_block(s)),
        next_block(s) < n,
        exists|l: usize, r: usize| is_widest_gap(s, l, r),
{
    let top = (n - 1) as usize;
    if forall|m: usize| m < n ==> #[trigger] s.contains(m) {
        lemma_pigeonhole(s, n);
    }
    let m = choose|m: usize| m < n && !#[trigger] s.contains(m);
    let l = lemma_nearest_below(s, m);
    let r = lemma_nearest_above(s, m, top);
    assert(is_gap(s, l, r)) by {
        assert forall|x: usize| #[trigger] s.contains(x) implies x <= l || r <= x by {
            if l < x && x < r {
                if x <= m {
                    assert(!s.contains(x));
                } else {
                    assert(!s.contains(x));
                }
            }
        }
    }
    lemma_widen(s, top, l, r);
    let (a, b) = choose|a: usize, b: usize| is_widest_gap(s, a, b);
    assert(a < (a + b) / 2 < b);
}

proof fn lemma_prefix_distinct(n: nat, k: nat)
    requires
        2 <= k <= n <= usize::MAX,
    ensures
        ladder_prefix(n, k).no_duplicates(),
        forall|i: int| 0 <= i < k ==> ladder_prefix(n, k)[i] < n,
        ladder_prefix(n, k)[0] == 0,
        ladder_prefix(n, k)[1] == n - 1,
    decreases k,
{
    lemma_prefix_len(n, k);
    if k > 2 {
        let shorter = ladder_prefix(n, (k - 1) as nat);
        lemma_prefix_len(n, (k - 1) as nat);
        lemma_prefix_distinct(n, (k - 1) as nat);
        assert(shorter.contains(shorter[0]));
        assert(shorter.contains(shorter[1]));
        lemma_split_exists(shorter, n);
        let longer = ladder_prefix(n, k);
        assert forall|i: int, j: int| 0 <= i < j < longer.len() implies longer[i] != longer[j] by {
            if j == k - 1 {
                assert(shorter.contains(shorter[i]));
            }
        }
    }
}

/// Rungs nest: every block of a shallower rung is kept by every deeper one.
pub proof fn rungs_nest(n: nat, d1: nat, d2: nat)
    requires
        2 <= d1 <= d2 <= n <= usize::MAX,
    ensures
        forall|b: usize| rung(n, d1).contains(b) ==> rung(n, d2).contains(b),
{
    rung_is_rung(n, d1);
    rung_is_rung(n, d2);
    lemma_prefix_extends(n, d1, d2);
    lemma_prefix_len(n, d2);
    assert forall|b: usize| rung(n, d1).contains(b) implies rung(n, d2).contains(b) by {
        let short = ladder_prefix(n, d1);
        let i = choose|i: int| 0 <= i < short.len() && short[i] == b;
        assert(ladder_prefix(n, d2)[i] == b);
    }
}

/// Every rung keeps the first and the last block of the stack.
pub proof fn rungs_keep_both_endpoints(n: nat, depth: nat)
    requires
        2 <= depth <= n <= usize::MAX,
    ensures
        rung(n, depth)[0] == 0,
        rung(n, depth).last() == n - 1,
{
    let kept = rung(n, depth);
    rung_is_rung(n, depth);
    lemma_prefix_distinct(n, depth);
    lemma_prefix_len(n, depth);
    let p = ladder_prefix(n, depth);
    assert(p.contains(p[0]));
    assert(p.contains(p[1]));
    assert(kept.contains(0usize));
    assert(kept.contains((n - 1) as usize));
    let i = choose|i: int| 0 <= i < kept.len() && kept[i] == 0usize;
    if i > 0 {
        assert(kept[0] < kept[i]);
    }
    let j = choose|j: int| 0 <= j < kept.len() && kept[j] == (n - 1) as usize;
    if j < kept.len() - 1 {
        assert(kept[j] < kept[kept.len() - 1]);
    }
}

/// The deepest rung is the whole stack.
pub proof fn full_depth_keeps_every_block(n: nat)
    requires
        2 <= n <= usize::MAX,
    ensures
        rung(n, n).len() == n,
        forall|i: int| 0 <= i < n ==> rung(n, n)[i] == i,
{
    rung_is_rung(n, n);
    assert forall|i: int| 0 <= i < n implies rung(n, n)[i] == i by {
        lemma_dense(n, i);
    }
}

proof fn lemma_dense(n: nat, i: int)
    requires
        2 <= n <= usize::MAX,
        0 <= i < n,
    ensures
        rung(n, n)[i] == i,
    decreases n - i,
{
    let kept = rung(n, n);
    rung_is_rung(n, n);
    lemma_at_least(kept, i);
    if i == n - 1 {
        rungs_keep_both_endpoints(n, n);
    } else {
        lemma_dense(n, i + 1);
        assert(kept[i] < kept[i + 1]);
    }
}

proof fn lemma_at_least(s: Seq<usize>, i: int)
    requires
        ascending(s),
        0 <= i < s.len(),
    ensures
        s[i] >= i,
    decreases i,
{
    if i > 0 {
        lemma_at_least(s, i - 1);
        assert(s[i - 1] < s[i]);
    }
}

/// Two lists without repeats that hold the same blocks are equally long.
proof fn lemma_count_kept(prefix: Seq<usize>, kept: Seq<usize>)
    requires
        prefix.no_duplicates(),
        kept.no_duplicates(),
        forall|b: usize| #[trigger] kept.contains(b) <==> prefix.contains(b),
    ensures
        kept.len() == prefix.len(),
{
    prefix.unique_seq_to_set();
    kept.unique_seq_to_set();
    assert(prefix.to_set() =~= kept.to_set());
}

/// The blocks a rung of `depth` keeps, in ascending order.
///
/// Returns `None` when `depth` is outside `2..=num_layers`, the range of
/// deployable depths.
pub fn ladder_layer_indices(num_layers: usize, depth: usize) -> (kept: Option<Vec<usize>>)
    ensures
        match kept {
            Some(blocks) => {
                &&& 2 <= depth <= num_layers
                &&& blocks@ == rung(num_layers as nat, depth as nat)
                &&& is_rung(num_layers as nat, depth as nat, blocks@)
                &&& forall|i: int| 0 <= i < blocks@.len() ==> blocks@[i] < num_layers
            },
            None => !(2 <= depth <= num_layers),
        },
{
    if depth < 2 || depth > num_layers {
        return None;
    }
    let order = ladder_order(num_layers);
    let ghost prefix = ladder_prefix(num_layers as nat, depth as nat);
    proof {
        lemma_prefix_extends(num_layers as nat, depth as nat, num_layers as nat);
        lemma_prefix_len(num_layers as nat, depth as nat);
        assert(forall|i: int| 0 <= i < depth ==> order@[i] == prefix[i]);
    }
    let mut kept: Vec<usize> = Vec::new();
    let mut block: usize = 0;
    while block < num_layers
        invariant
            block <= num_layers,
            2 <= depth <= num_layers,
            order@.len() == num_layers,
            prefix.len() == depth,
            forall|i: int| 0 <= i < depth ==> order@[i] == prefix[i],
            kept@ == chosen_below(prefix, block as nat),
        decreases num_layers - block,
    {
        let mut found: bool = false;
        let mut i: usize = 0;
        while i < depth
            invariant
                i <= depth <= order@.len(),
                prefix.len() == depth,
                forall|j: int| 0 <= j < depth ==> order@[j] == prefix[j],
                found <==> exists|j: int| 0 <= j < i && prefix[j] == block,
            decreases depth - i,
        {
            if order[i] == block {
                found = true;
                assert(prefix[i as int] == block);
            }
            i = i + 1;
        }
        assert(found <==> prefix.contains(block));
        if found {
            kept.push(block);
        }
        block = block + 1;
    }
    proof {
        rung_is_rung(num_layers as nat, depth as nat);
    }
    Some(kept)
}

/// Two chosen blocks with none chosen between them.
pub open spec fn neighbours(chosen: Seq<usize>, left: usize, right: usize) -> bool {
    &&& left < right
    &&& chosen.contains(left)
    &&& chosen.contains(right)
    &&& forall|x: usize| left < x < right ==> !#[trigger] chosen.contains(x)
}

/// `mid` halves the gap between `left` and `right`, the leftmost of the widest
/// gaps between neighbours.
pub open spec fn halves(chosen: Seq<usize>, mid: usize, left: usize, right: usize) -> bool {
    &&& neighbours(chosen, left, right)
    &&& left < mid < right
    &&& mid == (left + right) / 2
    &&& forall|l: usize, r: usize| #[trigger]
        neighbours(chosen, l, r) ==> r - l < right - left || (r - l == right - left && left <= l)
}

proof fn lemma_widest_halves(s: Seq<usize>, l: usize, r: usize)
    requires
        is_widest_gap(s, l, r),
    ensures
        halves(s, ((l + r) / 2) as usize, l, r),
{
    assert forall|a: usize, b: usize| #[trigger] neighbours(s, a, b) implies b - a < r - l || (b - a
        == r - l && l <= a) by {
        assert(is_gap(s, a, b));
    }
    assert(neighbours(s, l, r));
}

/// The two endpoints come first. Each block that comes after them stands in
/// the middle of two neighbours among the blocks before it, no two of which
/// stand further apart; of several such pairs it is the leftmost.
pub proof fn each_block_halves_the_widest_gap(n: nat, k: nat)
    requires
        2 <= k < n <= usize::MAX,
    ensures
        ladder_prefix(n, 2) == seq![0usize, (n - 1) as usize],
        ladder_prefix(n, k + 1).drop_last() == ladder_prefix(n, k),
        exists|l: usize, r: usize| #[trigger]
            halves(ladder_prefix(n, k), ladder_prefix(n, k + 1).last(), l, r),
{
    let s = ladder_prefix(n, k);
    let longer = ladder_prefix(n, k + 1);
    lemma_prefix_len(n, k);
    lemma_prefix_distinct(n, k);
    assert(s.contains(s[0]));
    assert(s.contains(s[1]));
    lemma_split_exists(s, n);
    assert(longer == s.push(next_block(s)));
    assert(longer.drop_last() =~= s);
    let (l, r) = choose|l: usize, r: usize| is_widest_gap(s, l, r);
    lemma_widest_halves(s, l, r);
    assert(halves(s, longer.last(), l, r));
}

/// The whole order holds every block once, the two endpoints first, and what
/// comes first in it is every shorter order.
pub proof fn the_ladder_holds_every_block_once(n: nat, k: nat)
    requires
        2 <= k <= n <= usize::MAX,
    ensures
        ladder_spec(n).len() == n,
        ladder_spec(n).no_duplicates(),
        forall|i: int| 0 <= i < n ==> #[trigger] ladder_spec(n)[i] < n,
        ladder_spec(n)[0] == 0,
        ladder_spec(n)[1] == n - 1,
        ladder_spec(n).take(k as int) == ladder_prefix(n, k),
{
    lemma_prefix_len(n, n);
    lemma_prefix_distinct(n, n);
    lemma_prefix_extends(n, k, n);
}

} // verus!
