//! Which earlier positions a convolution reads when it runs over a whole
//! sequence.
//!
//! A decode step reads the same vectors out of a tail instead; the laws below
//! say that the two ways agree.

use vstd::prelude::*;
use crate::v3::cache::{a_tap_reads_its_position, engram_taps, smaller};
use crate::v3::rows::{row, tail_rows};

verus! {

/// What a causal convolution of `n_taps` reads at position `t`: tap `j` reads
/// position `t - j`, and taps that reach before the start read nothing.
pub open spec fn conv_positions(n_taps: nat, t: nat) -> Seq<(usize, usize)> {
    Seq::new(smaller(n_taps, t + 1), |j: int| (j as usize, (t - j) as usize))
}

/// What a causal convolution of `n_taps` reads at position `t` of a sequence.
pub fn conv_sources(n_taps: usize, t: usize) -> (sources: Vec<(usize, usize)>)
    ensures
        sources@ == conv_positions(n_taps as nat, t as nat),
{
    let mut sources: Vec<(usize, usize)> = Vec::new();
    let mut j: usize = 0;
    while j < n_taps && j <= t
        invariant
            j <= n_taps,
            j <= t + 1,
            sources@ == Seq::new(j as nat, |j: int| (j as usize, (t - j) as usize)),
        decreases n_taps - j,
    {
        sources.push((j, t - j));
        j = j + 1;
        assert(sources@ =~= Seq::new(j as nat, |j: int| (j as usize, (t - j) as usize)));
    }
    sources
}

/// What the first `upto` taps of the Engram convolution read at position `p`:
/// tap `j` reads `j * dilation` back, and is gated off until
/// `p >= j * max_order`.
pub open spec fn engram_positions(
    upto: nat,
    dilation: nat,
    max_order: nat,
    p: nat,
) -> Seq<(usize, usize)>
    decreases upto,
{
    if upto == 0 {
        Seq::empty()
    } else {
        let j = (upto - 1) as nat;
        let before = engram_positions(j, dilation, max_order, p);
        if j * dilation <= p && p >= j * max_order {
            before.push((j as usize, (p - j * dilation) as usize))
        } else {
            before
        }
    }
}

/// What the Engram convolution reads at position `p` of a sequence.
pub fn engram_sources(n_taps: usize, dilation: usize, max_order: usize, p: usize) -> (sources: Vec<
    (usize, usize),
>)
    requires
        n_taps > 0 ==> (n_taps - 1) * dilation <= usize::MAX,
        n_taps > 0 ==> (n_taps - 1) * max_order <= usize::MAX,
    ensures
        sources@ == engram_positions(
            n_taps as nat,
            dilation as nat,
            max_order as nat,
            p as nat,
        ),
{
    let mut sources: Vec<(usize, usize)> = Vec::new();
    let mut j: usize = 0;
    while j < n_taps
        invariant
            j <= n_taps,
            n_taps > 0 ==> (n_taps - 1) * dilation <= usize::MAX,
            n_taps > 0 ==> (n_taps - 1) * max_order <= usize::MAX,
            sources@ == engram_positions(j as nat, dilation as nat, max_order as nat, p as nat),
        decreases n_taps - j,
    {
        proof {
            let n = n_taps as int - 1;
            let d = dilation as int;
            let m = max_order as int;
            assert(0 <= j * d <= n * d && 0 <= j * m <= n * m) by (nonlinear_arith)
                requires
                    0 <= j <= n,
                    d >= 0,
                    m >= 0,
            ;
        }
        let back: usize = j * dilation;
        if back <= p && p >= j * max_order {
            sources.push((j, p - back));
        }
        j = j + 1;
    }
    sources
}

/// A convolution reads its own position first and then only earlier ones, so
/// a sequence can be convolved in place from its end.
pub proof fn a_tap_never_reads_ahead(n_taps: nat, t: nat, i: int)
    requires
        0 <= i < conv_positions(n_taps, t).len(),
        t <= usize::MAX,
    ensures
        conv_positions(n_taps, t)[i].1 <= t,
        conv_positions(n_taps, t)[i].1 == t <==> i == 0,
{
}

/// Each tap of a decode step reads from the tail what the pass over the
/// sequence reads at that position.
pub proof fn a_step_convolves_like_the_sequence<T>(
    buf: Seq<T>,
    pos: nat,
    dim: nat,
    n_taps: nat,
    zero: T,
    i: int,
)
    requires
        buf.len() == pos * dim,
        pos <= usize::MAX,
        0 < n_taps <= usize::MAX,
        0 <= i < smaller((n_taps - 1) as nat, pos),
    ensures
        conv_positions(n_taps, pos).len() == smaller((n_taps - 1) as nat, pos) + 1,
        conv_positions(n_taps, pos)[0] == (0usize, pos as usize),
        conv_positions(n_taps, pos)[i + 1].0 == i + 1,
        row(
            tail_rows(buf, pos, dim, (n_taps - 1) as nat, zero),
            n_taps - 1 - (i + 1),
            dim,
        ) == row(buf, conv_positions(n_taps, pos)[i + 1].1 as int, dim),
{
    a_tap_reads_its_position(buf, pos, dim, (n_taps - 1) as nat, zero, (i + 1) as nat);
}

proof fn lemma_taps_agree(upto: nat, n_taps: nat, dilation: nat, max_order: nat, p: nat)
    requires
        1 <= upto <= n_taps <= usize::MAX,
        (n_taps - 1) * dilation <= usize::MAX,
        p <= usize::MAX,
    ensures
        ({
            let whole = engram_positions(upto, dilation, max_order, p);
            let taps = engram_taps(upto, n_taps, dilation, max_order, p);
            &&& whole.len() == taps.len() + 1
            &&& whole[0] == (0usize, p as usize)
            &&& forall|i: int|
                0 <= i < taps.len() ==> {
                    let j = (#[trigger] taps[i]).0;
                    &&& whole[i + 1].0 == j
                    &&& 1 <= j < upto
                    &&& j * dilation <= p
                    &&& whole[i + 1].1 == p - j * dilation
                    &&& taps[i].1 == (n_taps - 1) * dilation - j * dilation
                }
        }),
    decreases upto,
{
    if upto == 1 {
        assert(0 * dilation == 0 && 0 * max_order == 0) by (nonlinear_arith);
        assert(engram_positions(0, dilation, max_order, p).len() == 0);
    } else {
        let j = (upto - 1) as nat;
        lemma_taps_agree(j, n_taps, dilation, max_order, p);
        let whole = engram_positions(upto, dilation, max_order, p);
        let taps = engram_taps(upto, n_taps, dilation, max_order, p);
        let before = engram_taps(j, n_taps, dilation, max_order, p);
        let whole_before = engram_positions(j, dilation, max_order, p);
        assert(0 <= j * dilation <= (n_taps - 1) * dilation) by (nonlinear_arith)
            requires
                0 <= j <= n_taps - 1,
                dilation >= 0,
        ;
        assert forall|i: int| 0 <= i < taps.len() implies {
            let k = (#[trigger] taps[i]).0;
            &&& whole[i + 1].0 == k
            &&& 1 <= k < upto
            &&& k * dilation <= p
            &&& whole[i + 1].1 == p - k * dilation
            &&& taps[i].1 == (n_taps - 1) * dilation - k * dilation
        } by {
            if i < before.len() {
                assert(taps[i] == before[i]);
                assert(whole[i + 1] == whole_before[i + 1]);
            }
        }
    }
}

/// Each Engram tap of a decode step reads from a site's tail what the pass
/// over the sequence reads at that position.
pub proof fn an_engram_step_convolves_like_the_sequence<T>(
    buf: Seq<T>,
    pos: nat,
    dim: nat,
    n_taps: nat,
    dilation: nat,
    max_order: nat,
    zero: T,
    i: int,
)
    requires
        buf.len() == pos * dim,
        pos <= usize::MAX,
        0 < n_taps <= usize::MAX,
        dilation > 0,
        (n_taps - 1) * dilation <= usize::MAX,
        0 <= i < engram_taps(n_taps, n_taps, dilation, max_order, pos).len(),
    ensures
        ({
            let whole = engram_positions(n_taps, dilation, max_order, pos);
            let taps = engram_taps(n_taps, n_taps, dilation, max_order, pos);
            let tail = tail_rows(buf, pos, dim, ((n_taps - 1) * dilation) as nat, zero);
            &&& whole.len() == taps.len() + 1
            &&& whole[0] == (0usize, pos as usize)
            &&& whole[i + 1].0 == taps[i].0
            &&& row(tail, taps[i].1 as int, dim) == row(buf, whole[i + 1].1 as int, dim)
        }),
{
    lemma_taps_agree(n_taps, n_taps, dilation, max_order, pos);
    let taps = engram_taps(n_taps, n_taps, dilation, max_order, pos);
    let j = taps[i].0 as int;
    let reach = ((n_taps - 1) * dilation) as nat;
    assert(1 <= j * dilation <= (n_taps - 1) * dilation) by (nonlinear_arith)
        requires
            1 <= j <= n_taps - 1,
            dilation > 0,
    ;
    a_tap_reads_its_position(buf, pos, dim, reach, zero, (j * dilation) as nat);
}

/// Tap `j` of a causal convolution reads the position `j` before its own,
/// wherever there is one.
pub proof fn each_tap_reads_its_distance_back(n_taps: nat, t: nat, j: usize, p: usize)
    requires
        t < usize::MAX,
    ensures
        conv_positions(n_taps, t).contains((j, p)) <==> j < n_taps && p + j == t,
        conv_positions(n_taps, t).no_duplicates(),
{
    let all = conv_positions(n_taps, t);
    if j < n_taps && p + j == t {
        assert(all[j as int] == (j, p));
    }
}

/// Tap `j` of the Engram convolution reads `j` dilations before its own
/// position, once the position is `j` orders from the start.
pub proof fn each_engram_tap_reads_its_distance_back(
    upto: nat,
    dilation: nat,
    max_order: nat,
    p: nat,
    j: usize,
    q: usize,
)
    requires
        p <= usize::MAX,
        upto <= usize::MAX,
    ensures
        engram_positions(upto, dilation, max_order, p).contains((j, q)) <==> j < upto && q + j
            * dilation == p && j * max_order <= p,
    decreases upto,
{
    let all = engram_positions(upto, dilation, max_order, p);
    if upto > 0 {
        let k = (upto - 1) as nat;
        let before = engram_positions(k, dilation, max_order, p);
        each_engram_tap_reads_its_distance_back(k, dilation, max_order, p, j, q);
        assert(k * dilation >= 0) by (nonlinear_arith);
        if all.contains((j, q)) {
            let i = choose|i: int| 0 <= i < all.len() && all[i] == (j, q);
            if i < before.len() {
                assert(before[i] == (j, q));
                assert(before.contains((j, q)));
            }
        }
        if before.contains((j, q)) {
            let i = choose|i: int| 0 <= i < before.len() && before[i] == (j, q);
            assert(all[i] == (j, q));
        }
        if j == k && q + j * dilation == p && j * max_order <= p {
            assert(all[before.len() as int] == (j, q));
        }
    }
}

} // verus!
