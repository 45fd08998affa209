//! Grouped-query attention: head geometry and the key/value cache.
//!
//! The cache holds whatever a row is made of and reads none of it.

use vstd::prelude::*;
use crate::v3::rows::{put_row, row, set_row, set_row_changes_one_row};

verus! {

/// Head geometry of one attention layer.
#[derive(Debug, Clone, Copy, PartialEq, Eq, Structural)]
pub struct AttnConfig {
    pub num_heads: usize,
    pub num_kv_heads: usize,
    pub head_dim: usize,
    pub d_model: usize,
}

impl AttnConfig {
    /// Query heads served by one key/value head.
    pub fn kv_repeat(&self) -> (r: usize)
        requires
            self.num_kv_heads != 0,
        ensures
            r == self.num_heads / self.num_kv_heads,
    {
        self.num_heads / self.num_kv_heads
    }
}

/// Keys and values of the positions seen so far, a row to a position.
pub struct KvCache<T> {
    pub k: Vec<T>,
    pub v: Vec<T>,
    pub len: usize,
    pub max_len: usize,
    pub num_kv_heads: usize,
    pub head_dim: usize,
}

impl<T: Copy> KvCache<T> {
    /// The width of a row.
    pub open spec fn stride(&self) -> nat {
        (self.num_kv_heads * self.head_dim) as nat
    }

    /// The buffers hold `max_len` rows each, of which `len` are in use.
    pub open spec fn wf(&self) -> bool {
        &&& self.len <= self.max_len
        &&& self.k@.len() == self.max_len * self.stride()
        &&& self.v@.len() == self.max_len * self.stride()
        &&& self.stride() <= usize::MAX
    }

    /// The key row of position `p`.
    pub open spec fn key(&self, p: int) -> Seq<T> {
        row(self.k@, p, self.stride())
    }

    /// The value row of position `p`.
    pub open spec fn value(&self, p: int) -> Seq<T> {
        row(self.v@, p, self.stride())
    }

    /// An empty cache of this shape, its rows blank.
    pub open spec fn is_empty_of(
        &self,
        max_len: usize,
        num_kv_heads: usize,
        head_dim: usize,
        zero: T,
    ) -> bool {
        &&& self.wf()
        &&& self.len == 0
        &&& self.max_len == max_len
        &&& self.num_kv_heads == num_kv_heads
        &&& self.head_dim == head_dim
        &&& forall|i: int| 0 <= i < self.k@.len() ==> self.k@[i] == zero
        &&& forall|i: int| 0 <= i < self.v@.len() ==> self.v@[i] == zero
    }

    /// An empty cache with room for `max_len` positions.
    pub fn new(max_len: usize, num_kv_heads: usize, head_dim: usize, zero: T) -> (cache: Self)
        requires
            num_kv_heads * head_dim <= usize::MAX,
            max_len * (num_kv_heads * head_dim) <= usize::MAX,
        ensures
            cache.is_empty_of(max_len, num_kv_heads, head_dim, zero),
    {
        let total: usize = max_len * (num_kv_heads * head_dim);
        let mut k: Vec<T> = Vec::new();
        let mut v: Vec<T> = Vec::new();
        let mut i: usize = 0;
        while i < total
            invariant
                i <= total,
                k@.len() == i,
                v@.len() == i,
                forall|j: int| 0 <= j < i ==> k@[j] == zero,
                forall|j: int| 0 <= j < i ==> v@[j] == zero,
            decreases total - i,
        {
            k.push(zero);
            v.push(zero);
            i = i + 1;
        }
        KvCache { k, v, len: 0, max_len, num_kv_heads, head_dim }
    }

    /// Forget every position.
    pub fn reset(&mut self)
        requires
            old(self).wf(),
        ensures
            final(self).wf(),
            final(self).len == 0,
            final(self).k@ == old(self).k@,
            final(self).v@ == old(self).v@,
            final(self).max_len == old(self).max_len,
            final(self).num_kv_heads == old(self).num_kv_heads,
            final(self).head_dim == old(self).head_dim,
    {
        self.len = 0;
    }

    /// Append one position. A full cache takes nothing more, and says so.
    pub fn push_kv(&mut self, k_vec: &[T], v_vec: &[T]) -> (stored: bool)
        requires
            old(self).wf(),
            k_vec@.len() == old(self).stride(),
            v_vec@.len() == old(self).stride(),
        ensures
            final(self).wf(),
            final(self).max_len == old(self).max_len,
            final(self).num_kv_heads == old(self).num_kv_heads,
            final(self).head_dim == old(self).head_dim,
            stored == (old(self).len < old(self).max_len),
            stored ==> {
                &&& final(self).len == old(self).len + 1
                &&& final(self).k@ == set_row(
                    old(self).k@,
                    old(self).len as int,
                    old(self).stride(),
                    k_vec@,
                )
                &&& final(self).v@ == set_row(
                    old(self).v@,
                    old(self).len as int,
                    old(self).stride(),
                    v_vec@,
                )
            },
            !stored ==> *final(self) == *old(self),
    {
        if self.len >= self.max_len {
            return false;
        }
        proof {
            let w = self.stride() as int;
            assert((self.len + 1) * w <= self.max_len * w) by (nonlinear_arith)
                requires
                    self.len + 1 <= self.max_len,
                    w >= 0,
            ;
        }
        put_row(&mut self.k, self.len, k_vec);
        put_row(&mut self.v, self.len, v_vec);
        self.len = self.len + 1;
        true
    }
}

/// What is pushed is read back, and nothing before it changes.
pub proof fn pushing_is_remembered<T: Copy>(
    before: KvCache<T>,
    after: KvCache<T>,
    k_vec: Seq<T>,
    v_vec: Seq<T>,
    p: int,
)
    requires
        before.wf(),
        before.len < before.max_len,
        k_vec.len() == before.stride(),
        v_vec.len() == before.stride(),
        after.num_kv_heads == before.num_kv_heads,
        after.head_dim == before.head_dim,
        after.k@ == set_row(before.k@, before.len as int, before.stride(), k_vec),
        after.v@ == set_row(before.v@, before.len as int, before.stride(), v_vec),
        0 <= p <= before.len,
    ensures
        after.key(p) == (if p == before.len {
            k_vec
        } else {
            before.key(p)
        }),
        after.value(p) == (if p == before.len {
            v_vec
        } else {
            before.value(p)
        }),
{
    let w = before.stride() as int;
    assert((p + 1) * w <= before.max_len * w && (before.len + 1) * w <= before.max_len * w)
        by (nonlinear_arith)
        requires
            p + 1 <= before.max_len,
            before.len + 1 <= before.max_len,
            w >= 0,
    ;
    set_row_changes_one_row(before.k@, before.len as int, p, before.stride(), k_vec);
    set_row_changes_one_row(before.v@, before.len as int, p, before.stride(), v_vec);
}

/// One empty cache to a layer.
pub fn layer_caches<T: Copy>(
    layers: usize,
    max_len: usize,
    num_kv_heads: usize,
    head_dim: usize,
    zero: T,
) -> (caches: Vec<KvCache<T>>)
    requires
        num_kv_heads * head_dim <= usize::MAX,
        max_len * (num_kv_heads * head_dim) <= usize::MAX,
    ensures
        caches@.len() == layers,
        forall|i: int|
            0 <= i < layers ==> (#[trigger] caches@[i]).is_empty_of(
                max_len,
                num_kv_heads,
                head_dim,
                zero,
            ),
{
    let mut caches: Vec<KvCache<T>> = Vec::new();
    let mut i: usize = 0;
    while i < layers
        invariant
            i <= layers,
            num_kv_heads * head_dim <= usize::MAX,
            max_len * (num_kv_heads * head_dim) <= usize::MAX,
            caches@.len() == i,
            forall|k: int|
                0 <= k < i ==> (#[trigger] caches@[k]).is_empty_of(
                    max_len,
                    num_kv_heads,
                    head_dim,
                    zero,
                ),
        decreases layers - i,
    {
        caches.push(KvCache::new(max_len, num_kv_heads, head_dim, zero));
        i = i + 1;
    }
    caches
}

} // verus!
