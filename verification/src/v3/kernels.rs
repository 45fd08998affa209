//! Geometry of the Hadamard stages: block sizes and permutations.

use vstd::prelude::*;
use vstd::arithmetic::power2::{lemma_pow2_adds, lemma_pow2_pos, lemma_pow2_unfold, pow2};

verus! {

/// Kronecker block sizes for a transform width of `n`, a power of two: the
/// width's exponent is halved, the larger half going to the second block.
pub fn hada_blocks(n: usize) -> (blocks: (usize, usize))
    requires
        exists|k: nat| n == #[trigger] pow2(k),
    ensures
        forall|k: nat|
            n == #[trigger] pow2(k) ==> blocks.0 == pow2(k / 2) && blocks.1 == pow2(
                (k - k / 2) as nat,
            ),
        blocks.0 * blocks.1 == n,
{
    let ghost e = choose|k: nat| n == #[trigger] pow2(k);
    let mut bits: usize = 0;
    let mut rest: usize = n;
    proof {
        lemma_pow2_pos(e);
    }
    while rest > 1
        invariant
            bits <= e,
            rest == pow2((e - bits) as nat),
            n == pow2(e),
            bits <= n,
            rest <= n,
            bits + rest <= n + 1,
        decreases rest,
    {
        proof {
            if e - bits == 0 {
                vstd::arithmetic::power2::lemma2_to64();
                assert(false);
            }
            lemma_pow2_unfold((e - bits) as nat);
            lemma_pow2_pos((e - bits - 1) as nat);
        }
        rest = rest / 2;
        bits = bits + 1;
    }
    proof {
        vstd::arithmetic::power2::lemma2_to64();
        if e - bits > 0 {
            lemma_pow2_unfold((e - bits) as nat);
            lemma_pow2_pos((e - bits - 1) as nat);
        }
    }
    assert(bits == e);
    let mut ba: usize = 1;
    let mut i: usize = 0;
    while i < bits / 2
        invariant
            i <= bits / 2,
            bits == e,
            n == pow2(e),
            ba == pow2(i as nat),
        decreases bits / 2 - i,
    {
        proof {
            lemma_pow2_unfold((i + 1) as nat);
            lemma_pow2_adds((i + 1) as nat, (e - (i + 1)) as nat);
            lemma_pow2_pos((e - (i + 1)) as nat);
            let a = pow2((i + 1) as nat) as int;
            let b = pow2((e - (i + 1)) as nat) as int;
            assert(a <= a * b) by (nonlinear_arith)
                requires
                    a >= 0,
                    b >= 1,
            ;
        }
        ba = ba * 2;
        i = i + 1;
    }
    proof {
        let h = e / 2;
        lemma_pow2_adds(h, (e - h) as nat);
        lemma_pow2_pos(h);
        let a = pow2(h) as int;
        let b = pow2((e - h) as nat) as int;
        assert((a * b) / a == b) by (nonlinear_arith)
            requires
                a > 0,
        ;
        assert forall|k: nat| n == #[trigger] pow2(k) implies k == e by {
            if k < e {
                vstd::arithmetic::power2::lemma_pow2_strictly_increases(k, e);
            } else if e < k {
                vstd::arithmetic::power2::lemma_pow2_strictly_increases(e, k);
            }
        }
    }
    (ba, n / ba)
}

/// Permutations applied after the first two stages, as the container stores
/// them.
#[derive(Debug, Clone)]
pub struct HadaPerms {
    pub p1: Vec<u32>,
    pub p2: Vec<u32>,
}

/// Gather: element `i` of the result is `src[perm[i]]`.
pub fn permute<T: Copy>(src: &[T], perm: &[u32]) -> (out: Vec<T>)
    requires
        forall|i: int| 0 <= i < perm@.len() ==> perm@[i] < src@.len(),
    ensures
        out@ == Seq::new(perm@.len(), |i: int| src@[perm@[i] as int]),
{
    let mut out: Vec<T> = Vec::new();
    let mut i: usize = 0;
    while i < perm.len()
        invariant
            i <= perm@.len(),
            forall|i: int| 0 <= i < perm@.len() ==> perm@[i] < src@.len(),
            out@ == Seq::new(i as nat, |i: int| src@[perm@[i] as int]),
        decreases perm.len() - i,
    {
        out.push(src[perm[i] as usize]);
        i = i + 1;
        assert(out@ =~= Seq::new(i as nat, |i: int| src@[perm@[i] as int]));
    }
    out
}

} // verus!
