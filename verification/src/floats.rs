//! IEEE-754 numbers as bit patterns.
//!
//! The library carries single-precision values without computing on them: it
//! compares them, and it widens narrower stored forms. Both are integer work
//! on the bits.

use vstd::prelude::*;
use vstd::arithmetic::power2::{
    lemma2_to64,
    lemma_pow2_adds,
    lemma_pow2_pos,
    lemma_pow2_strictly_increases,
    lemma_pow2_unfold,
    pow2,
};

verus! {

/// The sign bit is set.
pub open spec fn negative(bits: u32) -> bool {
    bits >= 0x8000_0000
}

/// The bits without the sign.
pub open spec fn magnitude(bits: u32) -> int {
    if negative(bits) {
        bits - 0x8000_0000
    } else {
        bits as int
    }
}

/// Not a number.
pub open spec fn nan(bits: u32) -> bool {
    magnitude(bits) > 0x7f80_0000
}

/// Minus infinity.
pub open spec fn minus_infinity(bits: u32) -> bool {
    bits == 0xff80_0000
}

/// Orders numbers: two that are not NaN compare as these integers do, both
/// zeros alike.
pub open spec fn numeric(bits: u32) -> int {
    if negative(bits) {
        -magnitude(bits)
    } else {
        magnitude(bits)
    }
}

/// Orders all bit patterns: the IEEE total order, negative zero below zero and
/// NaN outside the infinities on either side.
pub open spec fn total(bits: u32) -> int {
    if negative(bits) {
        -magnitude(bits) - 1
    } else {
        magnitude(bits)
    }
}

/// A number that a search starting below everything can pick: neither NaN nor
/// minus infinity. Its place in the numeric order.
pub fn score_rank(bits: u32) -> (rank: Option<i64>)
    ensures
        match rank {
            Some(r) => !nan(bits) && !minus_infinity(bits) && r == numeric(bits),
            None => nan(bits) || minus_infinity(bits),
        },
{
    let below: bool = bits >= 0x8000_0000;
    let mag: u32 = if below {
        bits - 0x8000_0000
    } else {
        bits
    };
    if mag > 0x7f80_0000 || bits == 0xff80_0000 {
        None
    } else if below {
        Some(-(mag as i64))
    } else {
        Some(mag as i64)
    }
}

fn total_key(bits: u32) -> (key: i64)
    ensures
        key == total(bits),
{
    if bits >= 0x8000_0000 {
        -((bits - 0x8000_0000) as i64) - 1
    } else {
        bits as i64
    }
}

/// A score that a greedy step can pick.
pub open spec fn pickable(bits: u32) -> bool {
    !nan(bits) && !minus_infinity(bits)
}

/// The token a greedy step picks: the first of the largest scores, of those
/// that can be picked; the first token where none can.
pub open spec fn is_greedy_pick(logits: Seq<u32>, best: u32) -> bool {
    if exists|i: int| 0 <= i < logits.len() && pickable(#[trigger] logits[i]) {
        &&& best < logits.len()
        &&& pickable(logits[best as int])
        &&& forall|i: int|
            0 <= i < logits.len() && pickable(#[trigger] logits[i]) ==> numeric(logits[i])
                <= numeric(logits[best as int]) && (numeric(logits[i]) == numeric(
                logits[best as int],
            ) ==> best <= i)
    } else {
        best == 0
    }
}

/// The token a greedy step picks: the first of the largest scores. Scores that
/// are NaN are passed over, and where no score is above minus infinity the
/// first token is picked.
pub fn argmax(logits: &[u32]) -> (best: u32)
    requires
        logits@.len() <= u32::MAX,
    ensures
        is_greedy_pick(logits@, best),
{
    let mut best: usize = 0;
    let mut top: Option<i64> = None;
    let mut i: usize = 0;
    while i < logits.len()
        invariant
            i <= logits@.len() <= u32::MAX,
            match top {
                Some(t) => {
                    &&& best < i
                    &&& pickable(logits@[best as int])
                    &&& t == numeric(logits@[best as int])
                    &&& forall|j: int|
                        0 <= j < i && pickable(#[trigger] logits@[j]) ==> numeric(logits@[j]) <= t
                            && (numeric(logits@[j]) == t ==> best <= j)
                },
                None => best == 0 && forall|j: int|
                    0 <= j < i ==> !pickable(#[trigger] logits@[j]),
            },
        decreases logits.len() - i,
    {
        match score_rank(logits[i]) {
            Some(r) => {
                let better: bool = match top {
                    Some(t) => r > t,
                    None => true,
                };
                if better {
                    top = Some(r);
                    best = i;
                }
            },
            None => {},
        }
        i = i + 1;
    }
    best as u32
}

/// Masking leaves an allowed pick alone: where the token that would be picked
/// is not blocked, allowed scores stay as they are and no blocked score rises,
/// the same token is picked.
pub proof fn masking_keeps_an_allowed_pick(
    scores: Seq<u32>,
    masked: Seq<u32>,
    blocked: Seq<bool>,
    best: u32,
)
    requires
        scores.len() == masked.len() == blocked.len(),
        is_greedy_pick(scores, best),
        best < scores.len(),
        pickable(scores[best as int]),
        !blocked[best as int],
        forall|i: int|
            0 <= i < scores.len() && !(#[trigger] blocked[i]) ==> masked[i] == scores[i],
        forall|i: int|
            0 <= i < scores.len() && #[trigger] blocked[i] && pickable(masked[i]) ==> pickable(
                scores[i],
            ) && numeric(masked[i]) <= numeric(scores[i]),
    ensures
        is_greedy_pick(masked, best),
{
    assert(masked[best as int] == scores[best as int]);
    assert forall|i: int| 0 <= i < masked.len() && pickable(#[trigger] masked[i]) implies numeric(
        masked[i],
    ) <= numeric(masked[best as int]) && (numeric(masked[i]) == numeric(masked[best as int])
        ==> best <= i) by {
        if blocked[i] {
            assert(pickable(scores[i]));
        } else {
            assert(masked[i] == scores[i]);
        }
    }
}

/// The token a constrained greedy step picks: the last of the largest scores
/// in the total order. `None` where there is no token.
pub fn argmax_total(logits: &[u32]) -> (best: Option<usize>)
    ensures
        match best {
            Some(b) => b < logits@.len() && forall|i: int|
                0 <= i < logits@.len() ==> total(#[trigger] logits@[i]) <= total(
                    logits@[b as int],
                ) && (total(logits@[i]) == total(logits@[b as int]) ==> i <= b),
            None => logits@.len() == 0,
        },
{
    if logits.len() == 0 {
        return None;
    }
    let mut best: usize = 0;
    let mut top: i64 = total_key(logits[0]);
    let mut i: usize = 1;
    while i < logits.len()
        invariant
            1 <= i <= logits@.len(),
            best < i,
            top == total(logits@[best as int]),
            forall|j: int|
                0 <= j < i ==> total(#[trigger] logits@[j]) <= top && (total(logits@[j]) == top ==> j
                    <= best),
        decreases logits.len() - i,
    {
        let key: i64 = total_key(logits[i]);
        if key >= top {
            top = key;
            best = i;
        }
        i = i + 1;
    }
    Some(best)
}

/// Entry `a` ranks before entry `b`: it scores higher, or as high and stands
/// before it.
pub open spec fn ranks_before(scores: Seq<u32>, a: int, b: int) -> bool {
    total(scores[a]) > total(scores[b]) || (total(scores[a]) == total(scores[b]) && a < b)
}

/// The indices of the `top_k` highest scores, highest first, equal scores in
/// their own order.
pub fn rank_descending(scores: &[u32], top_k: usize) -> (ranked: Vec<usize>)
    ensures
        ranked@.len() == if top_k <= scores@.len() {
            top_k as nat
        } else {
            scores@.len()
        },
        forall|k: int| 0 <= k < ranked@.len() ==> #[trigger] ranked@[k] < scores@.len(),
        forall|i: int, j: int|
            0 <= i < j < ranked@.len() ==> ranks_before(
                scores@,
                #[trigger] ranked@[i] as int,
                #[trigger] ranked@[j] as int,
            ),
        forall|x: int, k: int|
            0 <= x < scores@.len() && !ranked@.contains(x as usize) && 0 <= k < ranked@.len()
                ==> #[trigger] ranks_before(scores@, ranked@[k] as int, x),
{
    let n: usize = scores.len();
    let want: usize = if top_k <= n {
        top_k
    } else {
        n
    };
    let mut ranked: Vec<usize> = Vec::new();
    while ranked.len() < want
        invariant
            n == scores@.len(),
            ranked@.len() <= want <= n,
            forall|k: int| 0 <= k < ranked@.len() ==> #[trigger] ranked@[k] < n,
            forall|i: int, j: int|
                0 <= i < j < ranked@.len() ==> ranks_before(
                    scores@,
                    #[trigger] ranked@[i] as int,
                    #[trigger] ranked@[j] as int,
                ),
            forall|x: int, k: int|
                0 <= x < n && !ranked@.contains(x as usize) && 0 <= k < ranked@.len()
                    ==> #[trigger] ranks_before(scores@, ranked@[k] as int, x),
        decreases want - ranked.len(),
    {
        let mut next: Option<usize> = None;
        let mut i: usize = 0;
        while i < n
            invariant
                i <= n,
                n == scores@.len(),
                ranked@.len() < want <= n,
                forall|k: int| 0 <= k < ranked@.len() ==> #[trigger] ranked@[k] < n,
                forall|a: int, b: int|
                    0 <= a < b < ranked@.len() ==> ranks_before(
                        scores@,
                        #[trigger] ranked@[a] as int,
                        #[trigger] ranked@[b] as int,
                    ),
                forall|x: int, k: int|
                    0 <= x < n && !ranked@.contains(x as usize) && 0 <= k < ranked@.len()
                        ==> #[trigger] ranks_before(scores@, ranked@[k] as int, x),
                match next {
                    Some(b) => b < i && !ranked@.contains(b) && forall|x: int|
                        0 <= x < i && x != b && !#[trigger] ranked@.contains(x as usize)
                            ==> ranks_before(scores@, b as int, x),
                    None => forall|x: int| 0 <= x < i ==> #[trigger] ranked@.contains(x as usize),
                },
            decreases n - i,
        {
            let key: i64 = total_key(scores[i]);
            let open: bool = if ranked.len() == 0 {
                true
            } else {
                let l: usize = ranked[ranked.len() - 1];
                let last: i64 = total_key(scores[l]);
                last > key || (last == key && l < i)
            };
            proof {
                if ranked@.len() > 0 {
                    let l = ranked@.len() - 1;
                    if ranked@.contains(i) {
                        let k = choose|k: int| 0 <= k < ranked@.len() && ranked@[k] == i;
                        if k < l {
                            assert(ranks_before(scores@, ranked@[k] as int, ranked@[l] as int));
                        }
                    } else {
                        assert(ranks_before(scores@, ranked@[l] as int, i as int));
                    }
                    assert(open <==> !ranked@.contains(i));
                } else {
                    assert(!ranked@.contains(i));
                }
            }
            if open {
                let better: bool = match next {
                    None => true,
                    Some(b) => {
                        let held: i64 = total_key(scores[b]);
                        key > held
                    },
                };
                if better {
                    next = Some(i);
                }
            }
            i = i + 1;
        }
        match next {
            Some(b) => {
                let ghost before = ranked@;
                ranked.push(b);
                proof {
                    assert forall|a: int, c: int| 0 <= a < c < ranked@.len() implies ranks_before(
                        scores@,
                        #[trigger] ranked@[a] as int,
                        #[trigger] ranked@[c] as int,
                    ) by {
                        if c == before.len() {
                            assert(ranks_before(scores@, before[a] as int, b as int));
                        } else {
                            assert(ranks_before(scores@, before[a] as int, before[c] as int));
                        }
                    }
                    assert forall|x: int, k: int|
                        0 <= x < n && !ranked@.contains(x as usize) && 0 <= k
                            < ranked@.len() implies #[trigger] ranks_before(
                        scores@,
                        ranked@[k] as int,
                        x,
                    ) by {
                        assert(!before.contains(x as usize)) by {
                            if before.contains(x as usize) {
                                let q = choose|q: int|
                                    0 <= q < before.len() && before[q] == x as usize;
                                assert(ranked@[q] == x as usize);
                            }
                        }
                        if k < before.len() {
                            assert(ranks_before(scores@, before[k] as int, x));
                        } else {
                            if x == b {
                                assert(ranked@[before.len() as int] == x as usize);
                            }
                        }
                    }
                }
            },
            None => {
                proof {
                    // Every index is ranked already, which needs as many
                    // entries as there are scores.
                    lemma_all_ranked(ranked@, n as nat);
                }
                return ranked;
            },
        }
    }
    ranked
}

proof fn lemma_all_ranked(ranked: Seq<usize>, n: nat)
    requires
        n <= usize::MAX,
        forall|x: int| 0 <= x < n ==> #[trigger] ranked.contains(x as usize),
    ensures
        ranked.len() >= n,
    decreases n,
{
    if n > 0 {
        let top = (n - 1) as usize;
        assert(ranked.contains((n - 1) as usize));
        let at = choose|i: int| 0 <= i < ranked.len() && ranked[i] == top;
        let rest = ranked.remove(at);
        assert forall|x: int| 0 <= x < n - 1 implies #[trigger] rest.contains(x as usize) by {
            assert(ranked.contains(x as usize));
            let k = choose|k: int| 0 <= k < ranked.len() && ranked[k] == x as usize;
            if k < at {
                assert(rest[k] == x as usize);
            } else {
                assert(rest[k - 1] == x as usize);
            }
        }
        lemma_all_ranked(rest, (n - 1) as nat);
    }
}

/// The position of the highest set bit of `a`.
pub open spec fn top_bit(a: nat) -> nat
    decreases a,
{
    if a < 2 {
        0
    } else {
        1 + top_bit(a / 2)
    }
}

pub proof fn lemma_top_bit(a: nat)
    requires
        a > 0,
    ensures
        pow2(top_bit(a)) <= a < pow2(top_bit(a) + 1),
    decreases a,
{
    lemma2_to64();
    if a >= 2 {
        lemma_top_bit(a / 2);
        lemma_pow2_unfold(top_bit(a) + 1);
        lemma_pow2_unfold(top_bit(a));
    }
}

/// The bits of `a * 2^(bias - 127)`, for `0 < a < 2^24`, without a sign.
pub open spec fn scaled_bits(a: nat, bias: nat) -> nat {
    let p = top_bit(a);
    (p + bias) * 0x80_0000 + ((a - pow2(p)) * (0x80_0000nat / pow2(p))) as nat
}

fn scale(a: u32, bias: u32) -> (bits: u32)
    requires
        0 < a < 0x100_0000,
        bias <= 127,
    ensures
        bits == scaled_bits(a as nat, bias as nat),
        bits < 0x8000_0000,
{
    let mut p: u32 = 0;
    let mut top: u32 = 1;
    proof {
        lemma2_to64();
        lemma_top_bit(a as nat);
    }
    while top * 2 <= a
        invariant
            0 < a < 0x100_0000,
            top == pow2(p as nat),
            1 <= top <= a,
            p <= 23,
            p <= top_bit(a as nat),
            pow2(top_bit(a as nat)) <= a < pow2(top_bit(a as nat) + 1),
        decreases a - top,
    {
        proof {
            lemma_pow2_unfold((p + 1) as nat);
            if p >= top_bit(a as nat) {
                assert(top * 2 == pow2((p + 1) as nat));
            }
            if p == 23 {
                lemma2_to64();
            }
        }
        top = top * 2;
        p = p + 1;
    }
    proof {
        lemma_pow2_unfold((p + 1) as nat);
        if p < top_bit(a as nat) {
            if p + 1 < top_bit(a as nat) {
                vstd::arithmetic::power2::lemma_pow2_strictly_increases(
                    (p + 1) as nat,
                    top_bit(a as nat),
                );
            }
        }
        assert(p == top_bit(a as nat));
        let q = 0x80_0000int / top as int;
        let rest = a as int - top as int;
        vstd::arithmetic::div_mod::lemma_fundamental_div_mod(0x80_0000, top as int);
        assert(rest * q <= 0x80_0000) by (nonlinear_arith)
            requires
                0 <= rest <= top,
                0 <= q,
                top * q <= 0x80_0000,
        ;
        assert(rest * q >= 0) by (nonlinear_arith)
            requires
                0 <= rest,
                0 <= q,
        ;
    }
    (p + bias) * 0x80_0000 + (a - top) * (0x80_0000 / top)
}

/// The value of a single-precision bit pattern that is neither infinite nor
/// NaN, in units of the smallest positive one, without its sign.
pub open spec fn single_units(bits: u32) -> nat {
    let mag = magnitude(bits) as nat;
    let e = mag / 0x80_0000;
    let m = mag % 0x80_0000;
    if e == 0 {
        m
    } else {
        (m + 0x80_0000) * pow2((e - 1) as nat)
    }
}

/// The value of a half-precision bit pattern that is neither infinite nor
/// NaN, in the same units.
pub open spec fn half_units(half: u16) -> nat {
    let mag = (half % 0x8000) as nat;
    let e = mag / 0x400;
    let m = mag % 0x400;
    if e == 0 {
        m * pow2(125)
    } else {
        (m + 0x400) * pow2((e + 124) as nat)
    }
}

/// The single-precision bits of a half-precision value.
pub open spec fn widened(half: u16) -> nat {
    let sign: nat = if half >= 0x8000 {
        0x8000_0000
    } else {
        0
    };
    let mag = (half % 0x8000) as nat;
    let e = mag / 0x400;
    let m = mag % 0x400;
    if e == 0 {
        if m == 0 {
            sign
        } else {
            sign + scaled_bits(m, 103)
        }
    } else if e == 31 {
        sign + 0x7f80_0000 + m * 0x2000
    } else {
        sign + (e + 112) * 0x80_0000 + m * 0x2000
    }
}

/// Widen a half-precision value to single precision.
pub fn f16_to_f32(half: u16) -> (bits: u32)
    ensures
        bits == widened(half),
{
    let sign: u32 = if half >= 0x8000 {
        0x8000_0000
    } else {
        0
    };
    let mag: u32 = (half % 0x8000) as u32;
    let e: u32 = mag / 0x400;
    let m: u32 = mag % 0x400;
    if e == 0 {
        if m == 0 {
            sign
        } else {
            sign + scale(m, 103)
        }
    } else if e == 31 {
        sign + 0x7f80_0000 + m * 0x2000
    } else {
        sign + (e + 112) * 0x80_0000 + m * 0x2000
    }
}

proof fn lemma_scaled_units(a: nat, bias: nat)
    requires
        0 < a < 0x100_0000,
        1 <= bias <= 127,
    ensures
        scaled_bits(a, bias) < 0x8000_0000,
        ({
            let mag = scaled_bits(a, bias);
            let e = mag / 0x80_0000;
            let m = mag % 0x80_0000;
            e == top_bit(a) + bias && (m + 0x80_0000) * pow2((e - 1) as nat) == a * pow2(
                (bias + 22) as nat,
            )
        }),
{
    lemma2_to64();
    lemma_top_bit(a);
    let p = top_bit(a);
    let top = pow2(p) as int;
    if p >= 24 {
        if p > 24 {
            vstd::arithmetic::power2::lemma_pow2_strictly_increases(24, p);
        }
        assert(pow2(24) == 0x100_0000);
    }
    lemma_pow2_unfold(p + 1);
    lemma_pow2_adds(p, (23 - p) as nat);
    let q = pow2((23 - p) as nat) as int;
    assert(pow2(23) == 0x80_0000);
    assert(top * q == 0x80_0000);
    lemma_pow2_pos(p);
    lemma_pow2_pos((23 - p) as nat);
    assert(0x80_0000int / top == q) by (nonlinear_arith)
        requires
            top * q == 0x80_0000,
            top > 0,
    ;
    let rest = a as int - top;
    assert(rest * q < 0x80_0000) by (nonlinear_arith)
        requires
            0 <= rest < top,
            q > 0,
            top * q == 0x80_0000,
    ;
    assert(rest * q >= 0) by (nonlinear_arith)
        requires
            0 <= rest,
            q > 0,
    ;
    let mag = scaled_bits(a, bias) as int;
    assert(mag == (p + bias) * 0x80_0000 + rest * q);
    assert(mag / 0x80_0000 == p + bias);
    assert(mag % 0x80_0000 == rest * q);
    let e = (p + bias) as nat;
    assert(rest * q + 0x80_0000 == a * q) by (nonlinear_arith)
        requires
            rest == a - top,
            top * q == 0x80_0000,
    ;
    lemma_pow2_adds((23 - p) as nat, (e - 1) as nat);
    let tail = pow2((e - 1) as nat) as int;
    assert((23 - p) + (e - 1) == bias + 22);
    assert(q * tail == pow2((bias + 22) as nat));
    assert((a * q) * tail == a * (q * tail)) by (nonlinear_arith);
}

/// Widening keeps the value of every finite half-precision number, and its
/// sign.
pub proof fn widening_keeps_the_value(half: u16)
    requires
        (half % 0x8000) / 0x400 < 31,
    ensures
        widened(half) <= u32::MAX,
        single_units(widened(half) as u32) == half_units(half),
        negative(widened(half) as u32) == (half >= 0x8000),
{
    let mag = (half % 0x8000) as nat;
    let e = mag / 0x400;
    let m = mag % 0x400;
    lemma2_to64();
    if e == 0 {
        if m > 0 {
            lemma_scaled_units(m, 103);
        } else {
            assert(0 * pow2(125) == 0) by (nonlinear_arith);
        }
    } else {
        let e32 = e + 112;
        let bits = e32 * 0x80_0000 + m * 0x2000;
        assert(bits / 0x80_0000 == e32);
        assert(bits % 0x80_0000 == m * 0x2000);
        let f = pow2((e32 - 1) as nat) as int;
        lemma_pow2_adds(13, (e32 - 1) as nat);
        assert(pow2(13) == 0x2000);
        assert(13 + (e32 - 1) == e + 124);
        let mm = m as int;
        assert((mm * 0x2000 + 0x80_0000) * f == (mm + 0x400) * (0x2000 * f)) by (nonlinear_arith);
    }
}

/// The single-precision bits of a small whole number.
pub open spec fn whole_bits(n: int) -> nat {
    if n == 0 {
        0
    } else if n > 0 {
        scaled_bits(n as nat, 127)
    } else {
        0x8000_0000 + scaled_bits((-n) as nat, 127)
    }
}

/// A signed byte as a single-precision value.
pub fn i8_to_f32(n: i8) -> (bits: u32)
    ensures
        bits == whole_bits(n as int),
{
    if n == 0 {
        0
    } else if n > 0 {
        scale(n as u32, 127)
    } else {
        let mag: u32 = (-(n as i32)) as u32;
        0x8000_0000 + scale(mag, 127)
    }
}

/// A signed byte keeps its value: `n` times the units in one.
pub proof fn whole_numbers_keep_their_value(n: int)
    requires
        -0x100_0000 < n < 0x100_0000,
    ensures
        whole_bits(n) <= u32::MAX,
        single_units(whole_bits(n) as u32) == (if n < 0 {
            -n
        } else {
            n
        }) * pow2(149),
        n != 0 ==> negative(whole_bits(n) as u32) == (n < 0),
{
    if n == 0 {
        assert(0 * pow2(149) == 0) by (nonlinear_arith);
    } else if n > 0 {
        lemma_scaled_units(n as nat, 127);
    } else {
        lemma_scaled_units((-n) as nat, 127);
    }
}

/// The single-precision bits of a bfloat16 value: the upper half.
pub fn bf16_to_f32(half: u16) -> (bits: u32)
    ensures
        bits == half * 0x1_0000,
{
    (half as u32) * 0x1_0000
}

/// The whole part of a single-precision value, as a 32-bit number: nothing for
/// NaN and for negative values, and the largest number for larger values.
pub open spec fn whole_part(bits: u32) -> nat {
    if nan(bits) || negative(bits) {
        0
    } else {
        let w = single_units(bits) / pow2(149);
        if w > u32::MAX {
            u32::MAX as nat
        } else {
            w
        }
    }
}

fn small_power(n: u32) -> (p: u64)
    requires
        n <= 24,
    ensures
        p == pow2(n as nat),
        0 < p <= 0x100_0000,
{
    proof {
        lemma2_to64();
    }
    let mut p: u64 = 1;
    let mut i: u32 = 0;
    while i < n
        invariant
            i <= n <= 24,
            p == pow2(i as nat),
            pow2(24) == 0x100_0000,
        decreases n - i,
    {
        proof {
            lemma_pow2_unfold((i + 1) as nat);
            if i + 1 < 24 {
                lemma_pow2_strictly_increases((i + 1) as nat, 24);
            }
        }
        p = p * 2;
        i = i + 1;
    }
    proof {
        if n < 24 {
            lemma_pow2_strictly_increases(n as nat, 24);
        }
        lemma_pow2_pos(n as nat);
    }
    p
}

/// `m * 2^a / 2^149`, with `a` at most 149.
proof fn lemma_units_divide(m: nat, a: nat)
    requires
        a <= 149,
    ensures
        (m * pow2(a)) / pow2(149) == m / pow2((149 - a) as nat),
{
    let k = pow2(a) as int;
    let d = pow2((149 - a) as nat) as int;
    lemma_pow2_adds(a, (149 - a) as nat);
    lemma_pow2_pos(a);
    lemma_pow2_pos((149 - a) as nat);
    let q = m as int / d;
    let r = m as int % d;
    vstd::arithmetic::div_mod::lemma_fundamental_div_mod(m as int, d);
    assert(m * k == (k * d) * q + r * k) by (nonlinear_arith)
        requires
            m == d * q + r,
    ;
    assert(0 <= r * k < k * d) by (nonlinear_arith)
        requires
            0 <= r < d,
            k > 0,
    ;
    vstd::arithmetic::div_mod::lemma_fundamental_div_mod_converse(m * k, k * d, q, r * k);
}

/// `m * 2^a / 2^149`, with `a` at least 149.
proof fn lemma_units_multiply(m: nat, a: nat)
    requires
        a >= 149,
    ensures
        (m * pow2(a)) / pow2(149) == m * pow2((a - 149) as nat),
{
    let k = pow2(149) as int;
    let d = pow2((a - 149) as nat) as int;
    lemma_pow2_adds(149, (a - 149) as nat);
    lemma_pow2_pos(149);
    assert(m * (k * d) == k * (m * d) + 0) by (nonlinear_arith);
    vstd::arithmetic::div_mod::lemma_fundamental_div_mod_converse(m * (k * d), k, m * d, 0);
}

/// The whole part of a single-precision value.
pub fn to_u32(bits: u32) -> (n: u32)
    ensures
        n == whole_part(bits),
{
    if bits >= 0x8000_0000 || bits > 0x7f80_0000 {
        return 0;
    }
    let e: u32 = bits / 0x80_0000;
    let m: u32 = bits % 0x80_0000;
    let ghost units = single_units(bits);
    if e < 127 {
        proof {
            lemma2_to64();
            lemma_pow2_pos(149);
            if e == 0 {
                lemma_pow2_strictly_increases(24, 149);
            } else {
                lemma_pow2_adds(24, (e - 1) as nat);
                lemma_pow2_pos((e - 1) as nat);
                if e - 1 + 24 < 149 {
                    lemma_pow2_strictly_increases((e - 1 + 24) as nat, 149);
                }
                let k = pow2((e - 1) as nat) as int;
                assert((m + 0x80_0000) * k < 0x100_0000 * k) by (nonlinear_arith)
                    requires
                        m < 0x80_0000,
                        k > 0,
                ;
            }
            assert(units < pow2(149));
            vstd::arithmetic::div_mod::lemma_basic_div(units as int, pow2(149) as int);
        }
        return 0;
    }
    let whole: u64 = (m + 0x80_0000) as u64;
    if e > 158 {
        proof {
            lemma2_to64();
            lemma_units_multiply(whole as nat, (e - 1) as nat);
            let up = (e - 150) as nat;
            if up > 9 {
                lemma_pow2_strictly_increases(9, up);
            }
            let k = pow2(up) as int;
            assert(whole * k >= 0x1_0000_0000) by (nonlinear_arith)
                requires
                    whole >= 0x80_0000,
                    k >= 512,
            ;
        }
        return u32::MAX;
    }
    if e >= 150 {
        let k: u64 = small_power(e - 150);
        proof {
            lemma2_to64();
            lemma_units_multiply(whole as nat, (e - 1) as nat);
            if e - 150 < 8 {
                lemma_pow2_strictly_increases((e - 150) as nat, 8);
            }
            assert(whole * k <= 0xffff_ffff) by (nonlinear_arith)
                requires
                    whole <= 0xff_ffff,
                    k <= 256,
            ;
        }
        (whole * k) as u32
    } else {
        let d: u64 = small_power(150 - e);
        proof {
            lemma_units_divide(whole as nat, (e - 1) as nat);
            assert(whole / d <= whole) by (nonlinear_arith)
                requires
                    d > 0,
            ;
        }
        (whole / d) as u32
    }
}

/// Whole numbers below `2^24` come back as they are.
pub proof fn a_whole_number_is_its_whole_part(n: int)
    requires
        0 <= n < 0x100_0000,
    ensures
        whole_part(whole_bits(n) as u32) == n,
{
    whole_numbers_keep_their_value(n);
    lemma_pow2_pos(149);
    let k = pow2(149) as int;
    assert(n * k == k * n + 0) by (nonlinear_arith);
    vstd::arithmetic::div_mod::lemma_fundamental_div_mod_converse(n * k, k, n, 0);
    lemma_whole_bits_bounded(n);
}

/// A whole number below `2^24` is a finite number.
proof fn lemma_whole_bits_bounded(n: int)
    requires
        0 <= n < 0x100_0000,
    ensures
        whole_bits(n) <= 0x7f80_0000,
{
    if n > 0 {
        let a = n as nat;
        lemma_top_bit(a);
        let t = top_bit(a);
        lemma2_to64();
        if t >= 24 {
            if t > 24 {
                lemma_pow2_strictly_increases(24, t);
            }
        }
        assert(t < 24);
        lemma_pow2_unfold(t + 1);
        lemma_pow2_pos(t);
        let k = pow2(t) as int;
        let c = 0x80_0000int / k;
        vstd::arithmetic::div_mod::lemma_fundamental_div_mod(0x80_0000, k);
        assert(0 <= (a - k) * c <= 0x80_0000) by (nonlinear_arith)
            requires
                0 <= a - k < k,
                0 <= c,
                k * c <= 0x80_0000,
        ;
    }
}

/// The orders on bit patterns, told by the patterns themselves: numbers without
/// a sign compare as their bits do, those with one the other way round and below
/// the others. The total order tells the two zeros apart, the numeric one does
/// not. What lies behind the infinities is no number.
pub proof fn bit_patterns_in_order(a: u32, b: u32)
    ensures
        a < 2147483648 && b < 2147483648 ==> (total(a) < total(b) <==> a < b) && (numeric(a)
            < numeric(b) <==> a < b),
        a >= 2147483648 && b >= 2147483648 ==> (total(a) < total(b) <==> a > b) && (numeric(a)
            < numeric(b) <==> a > b),
        a >= 2147483648 && b < 2147483648 ==> total(a) < total(b) && (numeric(a) < numeric(b) <==> a
            != 2147483648 || b != 0),
        total(a) == total(b) <==> a == b,
        nan(a) <==> a % 2147483648 > 2139095040,
        minus_infinity(a) <==> a == 4286578688,
{
}

proof fn lemma_larger_bits(a: nat, b: nat)
    requires
        a < b < 0x7f80_0000,
    ensures
        single_units(a as u32) < single_units(b as u32),
{
    let (ea, ma) = (a / 0x80_0000, a % 0x80_0000);
    let (eb, mb) = (b / 0x80_0000, b % 0x80_0000);
    assert(ea <= eb);
    if ea == eb {
        assert(ma < mb);
        if ea > 0 {
            let p = pow2((ea - 1) as nat);
            vstd::arithmetic::power2::lemma_pow2_pos((ea - 1) as nat);
            assert((ma + 0x80_0000) * p < (mb + 0x80_0000) * p) by (nonlinear_arith)
                requires
                    ma < mb,
                    p > 0,
            ;
        }
    } else {
        let p = pow2((eb - 1) as nat);
        vstd::arithmetic::power2::lemma_pow2_pos((eb - 1) as nat);
        assert((mb + 0x80_0000) * p >= 0x80_0000 * p) by (nonlinear_arith)
            requires
                mb >= 0,
                p > 0,
        ;
        if ea == 0 {
            assert(0x80_0000 * p >= 0x80_0000) by (nonlinear_arith)
                requires
                    p >= 1,
            ;
        } else {
            let q = pow2((ea - 1) as nat);
            vstd::arithmetic::power2::lemma_pow2_pos((ea - 1) as nat);
            if ea < eb - 1 {
                vstd::arithmetic::power2::lemma_pow2_strictly_increases(ea as nat, (eb - 1) as nat);
            }
            vstd::arithmetic::power2::lemma_pow2_unfold(ea as nat);
            assert(2 * q <= p);
            assert((ma + 0x80_0000) * q < 0x80_0000 * p) by (nonlinear_arith)
                requires
                    ma < 0x80_0000,
                    2 * q <= p,
                    q > 0,
            ;
        }
    }
}

/// The numeric order is the order of the values: of two numbers without a sign
/// that are neither infinite nor NaN, the one with the larger bits is larger.
pub proof fn larger_bits_are_larger_numbers(a: u32, b: u32)
    requires
        a < 0x7f80_0000,
        b < 0x7f80_0000,
    ensures
        numeric(a) < numeric(b) <==> single_units(a) < single_units(b),
{
    if a < b {
        lemma_larger_bits(a as nat, b as nat);
    } else if b < a {
        lemma_larger_bits(b as nat, a as nat);
    }
}

/// Of scores that are numbers a greedy step picks one that no other exceeds, and
/// of equal ones the first. It picks neither what is no number nor minus
/// infinity where there is another score.
pub proof fn a_greedy_pick_is_the_first_of_the_largest(logits: Seq<u32>, best: u32, i: int)
    requires
        is_greedy_pick(logits, best),
        0 <= i < logits.len(),
        logits[i] <= 0x7f80_0000 || 0x8000_0000 <= logits[i] < 0xff80_0000,
    ensures
        best < logits.len(),
        logits[best as int] <= 0x7f80_0000 || 0x8000_0000 <= logits[best as int] < 0xff80_0000,
        logits[i] == logits[best as int] ==> best <= i,
        0 < logits[i] < 0x8000_0000 ==> logits[i] <= logits[best as int] < 0x8000_0000,
        logits[best as int] > 0x8000_0000 ==> logits[i] >= logits[best as int],
        logits[best as int] == 0 || logits[best as int] == 0x8000_0000 ==> logits[i] == 0
            || logits[i] >= 0x8000_0000,
        (logits[best as int] == 0 || logits[best as int] == 0x8000_0000) && (logits[i] == 0
            || logits[i] == 0x8000_0000) ==> best <= i,
{
    assert(pickable(logits[i]));
}

/// The whole part of a number is the largest whole number that does not exceed
/// it, as long as that fits.
pub proof fn a_whole_part_does_not_exceed_its_number(bits: u32)
    requires
        bits < 0x7f80_0000,
    ensures
        whole_part(bits) * pow2(149) <= single_units(bits),
        whole_part(bits) < 0xffff_ffff ==> single_units(bits) < (whole_part(bits) + 1) * pow2(149),
{
    let u = single_units(bits) as int;
    let p = pow2(149) as int;
    vstd::arithmetic::power2::lemma_pow2_pos(149);
    vstd::arithmetic::div_mod::lemma_fundamental_div_mod(u, p);
    let w = u / p;
    let got = whole_part(bits) as int;
    assert(got * p <= u) by (nonlinear_arith)
        requires
            got <= w,
            u == p * w + u % p,
            u % p >= 0,
            p > 0,
    ;
    assert((w + 1) * p == p * w + p) by (nonlinear_arith);
    assert(u % p < p);
}

/// Higher scores rank first, and equal ones in their order: of two non-negative
/// numbers the one with the larger bits, a non-negative one before a negative
/// one, and of two negative ones the one with the smaller bits.
pub proof fn higher_scores_rank_first(scores: Seq<u32>, a: int, b: int)
    ensures
        scores[a] == scores[b] ==> (ranks_before(scores, a, b) <==> a < b),
        scores[b] < scores[a] < 0x8000_0000 ==> ranks_before(scores, a, b) && !ranks_before(
            scores,
            b,
            a,
        ),
        scores[a] < 0x8000_0000 <= scores[b] ==> ranks_before(scores, a, b) && !ranks_before(
            scores,
            b,
            a,
        ),
        0x8000_0000 <= scores[a] < scores[b] ==> ranks_before(scores, a, b) && !ranks_before(
            scores,
            b,
            a,
        ),
{
}

} // verus!
