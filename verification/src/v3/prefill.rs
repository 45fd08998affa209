//! Filling a decode cache from a whole sequence at once.
//!
//! A batched pass over a prompt leaves the cache where stepping through the
//! prompt one position at a time would have left it, so generation can go on
//! from either.

use vstd::prelude::*;
use vstd::slice::slice_subrange;
use crate::v3::cache::{
    a_fresh_tail_is_the_tail_of_nothing,
    a_ring_remembers_its_window,
    conv_reach,
    engram_reach,
    filled,
    grown_slots,
    int_session_remembered,
    pushing_follows_seeding,
    remembers,
    ring_fits,
    rolled,
    rolling_follows_the_sequence,
    session_remembered,
    tails_fit,
    KvPrecision,
    Qkv,
    V3Cache,
};
use crate::v3::engram::{largest_order, recent};
use crate::v3::rows::{extended, last_rows, row, set_row, set_row_changes_one_row, tail_rows};

verus! {

/// The first `n` rows of a buffer.
pub open spec fn row_list<E>(buf: Seq<E>, n: nat, width: nat) -> Seq<Seq<E>> {
    Seq::new(n, |t: int| row(buf, t, width))
}

/// Capacity of a ring after positions `0..n` have been written in order.
pub open spec fn ring_after(slots: nat, cap: nat, n: nat) -> nat
    decreases n,
{
    if n == 0 {
        slots
    } else {
        grown_slots(ring_after(slots, cap, (n - 1) as nat), cap, (n - 1) as nat)
    }
}

/// What a ring's buffer holds after the rows `log` have been written in order,
/// the first at position zero.
pub open spec fn buffer_after<E>(
    buf: Seq<E>,
    slots: nat,
    cap: nat,
    width: nat,
    log: Seq<Seq<E>>,
    fill: E,
) -> Seq<E>
    decreases log.len(),
{
    if log.len() == 0 {
        buf
    } else {
        let before = buffer_after(buf, slots, cap, width, log.drop_last(), fill);
        let s = ring_after(slots, cap, log.len());
        set_row(extended(before, s * width, fill), (log.len() - 1) % s as int, width, log.last())
    }
}

proof fn lemma_ring_grows(slots: nat, cap: nat, a: nat, b: nat)
    requires
        a <= b,
        slots <= cap,
    ensures
        slots <= ring_after(slots, cap, a) <= ring_after(slots, cap, b) <= cap,
    decreases b,
{
    if b > 0 {
        if a < b {
            lemma_ring_grows(slots, cap, a, (b - 1) as nat);
        } else {
            lemma_ring_grows(slots, cap, (b - 1) as nat, (b - 1) as nat);
        }
    }
}

proof fn lemma_smaller_rings_fit(cfg: &crate::v3::config::V3Config, a: nat, b: nat)
    requires
        a <= b,
        ring_fits(cfg, b),
    ensures
        ring_fits(cfg, a),
{
    let (x, y) = (a as int, b as int);
    let (k, v, h) = (cfg.k_width() as int, cfg.v_width() as int, cfg.num_kv_heads as int);
    assert(x * k <= y * k && x * v <= y * v && x * h <= y * h) by (nonlinear_arith)
        requires
            x <= y,
            k >= 0,
            v >= 0,
            h >= 0,
    ;
}

proof fn lemma_row_lies_in(t: int, n: int, width: int)
    requires
        0 <= t < n,
        width >= 0,
    ensures
        0 <= t * width,
        t * width + width == (t + 1) * width,
        (t + 1) * width <= n * width,
{
    assert(t * width + width == (t + 1) * width) by (nonlinear_arith);
    assert(0 <= t * width && (t + 1) * width <= n * width) by (nonlinear_arith)
        requires
            0 <= t < n,
            width >= 0,
    ;
}

proof fn lemma_row_list_push<E>(buf: Seq<E>, t: nat, width: nat)
    ensures
        row_list(buf, t + 1, width) == row_list(buf, t, width).push(row(buf, t as int, width)),
        row_list(buf, t + 1, width).drop_last() == row_list(buf, t, width),
{
    assert(row_list(buf, t + 1, width) =~= row_list(buf, t, width).push(
        row(buf, t as int, width),
    ));
    assert(row_list(buf, t + 1, width).drop_last() =~= row_list(buf, t, width));
}

/// Row `t` of a buffer.
fn row_slice<E>(buf: &[E], t: usize, width: usize) -> (r: &[E])
    requires
        (t + 1) * width <= buf@.len(),
    ensures
        r@ == row(buf@, t as int, width as nat),
        r@.len() == width,
{
    proof {
        lemma_row_lies_in(t as int, t + 1, width as int);
    }
    let total: usize = buf.len();
    let from: usize = t * width;
    slice_subrange(buf, from, from + width)
}

/// What two steps leave alone outside one ring, both together leave alone.
proof fn lemma_outside_ring<T>(a: &V3Cache<T>, b: &V3Cache<T>, c: &V3Cache<T>, li: int)
    requires
        a.same_outside_ring(b, li),
        b.same_outside_ring(c, li),
    ensures
        a.same_outside_ring(c, li),
{
    assert forall|l: int| 0 <= l < c.geometry().num_layers && l != li implies #[trigger] a.same_ring(
        c,
        l,
    ) by {
        assert(a.same_ring(b, l));
        assert(b.same_ring(c, l));
    }
    assert forall|l: int, which: Qkv| 0 <= l < c.geometry().num_layers implies #[trigger] a.conv(
        l,
        which,
    ) == c.conv(l, which) by {
        assert(a.conv(l, which) == b.conv(l, which));
        assert(b.conv(l, which) == c.conv(l, which));
    }
    assert forall|s: int| 0 <= s < c.geometry().engram.sites@.len() implies #[trigger] a.engram(s)
        == c.engram(s) by {
        assert(a.engram(s) == b.engram(s));
        assert(b.engram(s) == c.engram(s));
    }
}

proof fn lemma_rows_have_width<E>(buf: Seq<E>, n: nat, width: nat)
    requires
        buf.len() == n * width,
    ensures
        forall|t: int| 0 <= t < n ==> (#[trigger] row_list(buf, n, width)[t]).len() == width,
{
    assert forall|t: int| 0 <= t < n implies (#[trigger] row_list(buf, n, width)[t]).len()
        == width by {
        lemma_row_lies_in(t, n as int, width as int);
    }
}

/// Whatever was written into a ring in order, it still holds of it what its
/// capacity covers.
pub proof fn a_filled_ring_is_remembered<E>(
    buf: Seq<E>,
    slots: nat,
    cap: nat,
    width: nat,
    log: Seq<Seq<E>>,
    fill: E,
)
    requires
        1 <= slots <= cap,
        buf.len() == slots * width,
        forall|t: int| 0 <= t < log.len() ==> (#[trigger] log[t]).len() == width,
    ensures
        buffer_after(buf, slots, cap, width, log, fill).len() == ring_after(slots, cap, log.len())
            * width,
        remembers(
            buffer_after(buf, slots, cap, width, log, fill),
            ring_after(slots, cap, log.len()),
            cap,
            width,
            log,
        ),
    decreases log.len(),
{
    if log.len() > 0 {
        let earlier = log.drop_last();
        let n = log.len();
        assert forall|t: int| 0 <= t < earlier.len() implies (#[trigger] earlier[t]).len()
            == width by {
            assert(log[t].len() == width);
        }
        a_filled_ring_is_remembered(buf, slots, cap, width, earlier, fill);
        lemma_ring_grows(slots, cap, earlier.len(), n);
        let before = buffer_after(buf, slots, cap, width, earlier, fill);
        let s0 = ring_after(slots, cap, earlier.len());
        let s = ring_after(slots, cap, n);
        assert(log[n - 1].len() == width);
        a_ring_remembers_its_window(before, s0, cap, width, earlier, log.last(), fill);
        assert(earlier.push(log.last()) =~= log);
        assert(s0 * width <= s * width) by (nonlinear_arith)
            requires
                s0 <= s,
        ;
        let at = (n - 1) % s as int;
        let wide = extended(before, s * width, fill);
        assert(0 <= at < s);
        lemma_row_lies_in(at, s as int, width as int);
        set_row_changes_one_row(wide, at, at, width, log.last());
    }
}

/// A tail after the rows of a buffer have been rolled in one by one.
pub open spec fn rolled_rows<T>(tail: Seq<T>, buf: Seq<T>, n: nat, dim: nat) -> Seq<T>
    decreases n,
{
    if n == 0 {
        tail
    } else {
        rolled(rolled_rows(tail, buf, (n - 1) as nat, dim), row(buf, n - 1, dim))
    }
}

/// Stepping through a sequence leaves the tail that filling from the whole
/// sequence leaves.
pub proof fn stepping_leaves_the_filled_tail<T>(buf: Seq<T>, seq: nat, dim: nat, reach: nat, zero: T)
    requires
        buf.len() == seq * dim,
    ensures
        rolled_rows(filled(reach * dim, zero), buf, seq, dim) == tail_rows(
            buf,
            seq,
            dim,
            reach,
            zero,
        ),
    decreases seq,
{
    if seq == 0 {
        a_fresh_tail_is_the_tail_of_nothing(dim, reach, zero);
        assert(0 * dim == 0) by (nonlinear_arith);
        assert(buf =~= Seq::<T>::empty());
    } else {
        let n = (seq - 1) as nat;
        lemma_row_lies_in(n as int, seq as int, dim as int);
        let head = buf.take((n * dim) as int);
        stepping_leaves_the_filled_tail(head, n, dim, reach, zero);
        lemma_rolled_rows_of_prefix(filled(reach * dim, zero), buf, n, dim, n);
        rolling_follows_the_sequence(head, n, dim, reach, zero, row(buf, n as int, dim));
        assert(head + row(buf, n as int, dim) =~= buf);
    }
}

proof fn lemma_rolled_rows_of_prefix<T>(tail: Seq<T>, buf: Seq<T>, n: nat, dim: nat, m: nat)
    requires
        m <= n,
        n * dim <= buf.len(),
    ensures
        rolled_rows(tail, buf.take((n * dim) as int), m, dim) == rolled_rows(tail, buf, m, dim),
    decreases m,
{
    if m > 0 {
        lemma_rolled_rows_of_prefix(tail, buf, n, dim, (m - 1) as nat);
        lemma_row_lies_in(m - 1, n as int, dim as int);
        assert(row(buf.take((n * dim) as int), m - 1, dim) =~= row(buf, m - 1, dim));
    }
}

/// The token history after tokens have been recorded one by one.
pub open spec fn stepped_history(tokens: Seq<u32>, keep: nat) -> Seq<u32>
    decreases tokens.len(),
{
    if tokens.len() == 0 {
        Seq::empty()
    } else {
        recent(stepped_history(tokens.drop_last(), keep).push(tokens.last()), keep)
    }
}

/// Stepping through tokens leaves the history that filling from all of them
/// leaves.
pub proof fn stepping_leaves_the_filled_history(tokens: Seq<u32>, keep: nat)
    ensures
        stepped_history(tokens, keep) == recent(tokens, keep),
    decreases tokens.len(),
{
    if tokens.len() == 0 {
        assert(recent(tokens, keep) =~= Seq::<u32>::empty());
    } else {
        stepping_leaves_the_filled_history(tokens.drop_last(), keep);
        pushing_follows_seeding(tokens.drop_last(), tokens.last(), keep);
        assert(tokens.drop_last().push(tokens.last()) =~= tokens);
    }
}

impl<T: Copy> V3Cache<T> {
    /// Write the keys and values of positions `0..seq` into the full-width
    /// ring of layer `li`, in order.
    pub fn fill_kv(&mut self, li: usize, seq: usize, k: &[T], v: &[T])
        requires
            old(self).wf(),
            old(self).mode() == KvPrecision::F32,
            li < old(self).geometry().num_layers,
            k@.len() == seq * old(self).geometry().k_width(),
            v@.len() == seq * old(self).geometry().v_width(),
            ring_fits(
                &old(self).geometry(),
                ring_after(old(self).ring(li as int), old(self).cap(li as int), seq as nat),
            ),
        ensures
            final(self).wf(),
            ({
                let l = li as int;
                let kw = old(self).geometry().k_width();
                let vw = old(self).geometry().v_width();
                let ks = row_list(k@, seq as nat, kw);
                let vs = row_list(v@, seq as nat, vw);
                let (s, c, z) = (old(self).ring(l), old(self).cap(l), old(self).blank());
                &&& final(self).ring(l) == ring_after(s, c, seq as nat)
                &&& final(self).cap(l) == c
                &&& final(self).keys(l) == buffer_after(old(self).keys(l), s, c, kw, ks, z)
                &&& final(self).values(l) == buffer_after(old(self).values(l), s, c, vw, vs, z)
                &&& final(self).int_keys(l) == old(self).int_keys(l)
                &&& final(self).int_values(l) == old(self).int_values(l)
                &&& final(self).key_scales(l) == old(self).key_scales(l)
                &&& final(self).value_scales(l) == old(self).value_scales(l)
                &&& session_remembered(final(self), l, ks, vs)
            }),
            final(self).same_outside_ring(old(self), li as int),
    {
        let ghost start = *self;
        let ghost l = li as int;
        let ghost kw = start.geometry().k_width();
        let ghost vw = start.geometry().v_width();
        let ghost (s, c, z) = (start.ring(l), start.cap(l), start.blank());
        proof {
            self.a_cache_is_addressable();
            assert(row_list(k@, 0, kw) =~= Seq::<Seq<T>>::empty());
            assert(row_list(v@, 0, vw) =~= Seq::<Seq<T>>::empty());
        }
        let k_dim: usize = self.config().k_dim();
        let v_dim: usize = self.config().v_dim();
        let mut t: usize = 0;
        while t < seq
            invariant
                t <= seq,
                self.wf(),
                self.mode() == KvPrecision::F32,
                self.geometry() == start.geometry(),
                l == li < start.geometry().num_layers,
                kw == start.geometry().k_width() == k_dim,
                vw == start.geometry().v_width() == v_dim,
                s == start.ring(l) <= c == start.cap(l),
                z == start.blank(),
                z == self.blank(),
                k@.len() == seq * kw,
                v@.len() == seq * vw,
                ring_fits(&start.geometry(), ring_after(s, c, seq as nat)),
                self.ring(l) == ring_after(s, c, t as nat),
                self.cap(l) == c,
                self.keys(l) == buffer_after(
                    start.keys(l),
                    s,
                    c,
                    kw,
                    row_list(k@, t as nat, kw),
                    z,
                ),
                self.values(l) == buffer_after(
                    start.values(l),
                    s,
                    c,
                    vw,
                    row_list(v@, t as nat, vw),
                    z,
                ),
                self.int_keys(l) == start.int_keys(l),
                self.int_values(l) == start.int_values(l),
                self.key_scales(l) == start.key_scales(l),
                self.value_scales(l) == start.value_scales(l),
                self.same_outside_ring(&start, l),
            decreases seq - t,
        {
            let ghost before = *self;
            proof {
                lemma_row_lies_in(t as int, seq as int, kw as int);
                lemma_row_lies_in(t as int, seq as int, vw as int);
                lemma_row_list_push(k@, t as nat, kw);
                lemma_row_list_push(v@, t as nat, vw);
                lemma_ring_grows(s, c, t as nat + 1, seq as nat);
                lemma_smaller_rings_fit(
                    &start.geometry(),
                    ring_after(s, c, t as nat + 1),
                    ring_after(s, c, seq as nat),
                );
            }
            let k_row = row_slice(k, t, k_dim);
            let v_row = row_slice(v, t, v_dim);
            self.write_kv(li, t, k_row, v_row);
            proof {
                lemma_outside_ring(&*self, &before, &start, l);
            }
            t = t + 1;
        }
        proof {
            start.a_ring_has_its_length(l);
            lemma_rows_have_width(k@, seq as nat, kw);
            lemma_rows_have_width(v@, seq as nat, vw);
            a_filled_ring_is_remembered(
                start.keys(l),
                s,
                c,
                kw,
                row_list(k@, seq as nat, kw),
                z,
            );
            a_filled_ring_is_remembered(
                start.values(l),
                s,
                c,
                vw,
                row_list(v@, seq as nat, vw),
                z,
            );
        }
    }

    /// Write the quantised keys and values of positions `0..seq`, with one
    /// scale per head vector, into the 8-bit ring of layer `li`, in order.
    pub fn fill_kv_int8(
        &mut self,
        li: usize,
        seq: usize,
        k: &[i8],
        k_scale: &[T],
        v: &[i8],
        v_scale: &[T],
    )
        requires
            old(self).wf(),
            old(self).mode() == KvPrecision::Int8,
            li < old(self).geometry().num_layers,
            k@.len() == seq * old(self).geometry().k_width(),
            v@.len() == seq * old(self).geometry().v_width(),
            k_scale@.len() == seq * old(self).geometry().num_kv_heads,
            v_scale@.len() == seq * old(self).geometry().num_kv_heads,
            ring_fits(
                &old(self).geometry(),
                ring_after(old(self).ring(li as int), old(self).cap(li as int), seq as nat),
            ),
        ensures
            final(self).wf(),
            ({
                let l = li as int;
                let n = seq as nat;
                let kw = old(self).geometry().k_width();
                let vw = old(self).geometry().v_width();
                let h = old(self).geometry().num_kv_heads as nat;
                let (s, c, u) = (old(self).ring(l), old(self).cap(l), old(self).unit());
                &&& final(self).ring(l) == ring_after(s, c, n)
                &&& final(self).cap(l) == c
                &&& final(self).int_keys(l) == buffer_after(
                    old(self).int_keys(l),
                    s,
                    c,
                    kw,
                    row_list(k@, n, kw),
                    0i8,
                )
                &&& final(self).int_values(l) == buffer_after(
                    old(self).int_values(l),
                    s,
                    c,
                    vw,
                    row_list(v@, n, vw),
                    0i8,
                )
                &&& final(self).key_scales(l) == buffer_after(
                    old(self).key_scales(l),
                    s,
                    c,
                    h,
                    row_list(k_scale@, n, h),
                    u,
                )
                &&& final(self).value_scales(l) == buffer_after(
                    old(self).value_scales(l),
                    s,
                    c,
                    h,
                    row_list(v_scale@, n, h),
                    u,
                )
                &&& final(self).keys(l) == old(self).keys(l)
                &&& final(self).values(l) == old(self).values(l)
                &&& int_session_remembered(
                    final(self),
                    l,
                    row_list(k@, n, kw),
                    row_list(k_scale@, n, h),
                    row_list(v@, n, vw),
                    row_list(v_scale@, n, h),
                )
            }),
            final(self).same_outside_ring(old(self), li as int),
    {
        let ghost start = *self;
        let ghost l = li as int;
        let ghost kw = start.geometry().k_width();
        let ghost vw = start.geometry().v_width();
        let ghost h = start.geometry().num_kv_heads as nat;
        let ghost (s, c, u) = (start.ring(l), start.cap(l), start.unit());
        proof {
            self.a_cache_is_addressable();
            assert(row_list(k@, 0, kw) =~= Seq::<Seq<i8>>::empty());
            assert(row_list(v@, 0, vw) =~= Seq::<Seq<i8>>::empty());
            assert(row_list(k_scale@, 0, h) =~= Seq::<Seq<T>>::empty());
            assert(row_list(v_scale@, 0, h) =~= Seq::<Seq<T>>::empty());
        }
        let k_dim: usize = self.config().k_dim();
        let v_dim: usize = self.config().v_dim();
        let heads: usize = self.config().num_kv_heads;
        let mut t: usize = 0;
        while t < seq
            invariant
                t <= seq,
                self.wf(),
                self.mode() == KvPrecision::Int8,
                self.geometry() == start.geometry(),
                l == li < start.geometry().num_layers,
                kw == start.geometry().k_width() == k_dim,
                vw == start.geometry().v_width() == v_dim,
                h == start.geometry().num_kv_heads == heads,
                s == start.ring(l) <= c == start.cap(l),
                u == start.unit(),
                u == self.unit(),
                k@.len() == seq * kw,
                v@.len() == seq * vw,
                k_scale@.len() == seq * h,
                v_scale@.len() == seq * h,
                ring_fits(&start.geometry(), ring_after(s, c, seq as nat)),
                self.ring(l) == ring_after(s, c, t as nat),
                self.cap(l) == c,
                self.int_keys(l) == buffer_after(
                    start.int_keys(l),
                    s,
                    c,
                    kw,
                    row_list(k@, t as nat, kw),
                    0i8,
                ),
                self.int_values(l) == buffer_after(
                    start.int_values(l),
                    s,
                    c,
                    vw,
                    row_list(v@, t as nat, vw),
                    0i8,
                ),
                self.key_scales(l) == buffer_after(
                    start.key_scales(l),
                    s,
                    c,
                    h,
                    row_list(k_scale@, t as nat, h),
                    u,
                ),
                self.value_scales(l) == buffer_after(
                    start.value_scales(l),
                    s,
                    c,
                    h,
                    row_list(v_scale@, t as nat, h),
                    u,
                ),
                self.keys(l) == start.keys(l),
                self.values(l) == start.values(l),
                self.same_outside_ring(&start, l),
            decreases seq - t,
        {
            let ghost before = *self;
            proof {
                lemma_row_lies_in(t as int, seq as int, kw as int);
                lemma_row_lies_in(t as int, seq as int, vw as int);
                lemma_row_lies_in(t as int, seq as int, h as int);
                lemma_row_list_push(k@, t as nat, kw);
                lemma_row_list_push(v@, t as nat, vw);
                lemma_row_list_push(k_scale@, t as nat, h);
                lemma_row_list_push(v_scale@, t as nat, h);
                lemma_ring_grows(s, c, t as nat + 1, seq as nat);
                lemma_smaller_rings_fit(
                    &start.geometry(),
                    ring_after(s, c, t as nat + 1),
                    ring_after(s, c, seq as nat),
                );
            }
            let k_row = row_slice(k, t, k_dim);
            let v_row = row_slice(v, t, v_dim);
            let k_scales = row_slice(k_scale, t, heads);
            let v_scales = row_slice(v_scale, t, heads);
            self.write_kv_int8(li, t, k_row, k_scales, v_row, v_scales);
            proof {
                lemma_outside_ring(&*self, &before, &start, l);
            }
            t = t + 1;
        }
        proof {
            let n = seq as nat;
            start.a_ring_has_its_length(l);
            lemma_rows_have_width(k@, n, kw);
            lemma_rows_have_width(v@, n, vw);
            lemma_rows_have_width(k_scale@, n, h);
            lemma_rows_have_width(v_scale@, n, h);
            a_filled_ring_is_remembered(start.int_keys(l), s, c, kw, row_list(k@, n, kw), 0i8);
            a_filled_ring_is_remembered(start.int_values(l), s, c, vw, row_list(v@, n, vw), 0i8);
            a_filled_ring_is_remembered(
                start.key_scales(l),
                s,
                c,
                h,
                row_list(k_scale@, n, h),
                u,
            );
            a_filled_ring_is_remembered(
                start.value_scales(l),
                s,
                c,
                h,
                row_list(v_scale@, n, h),
                u,
            );
        }
    }

    /// Keep, of the raw projections of positions `0..seq` of layer `li`, what
    /// the convolution of the next position looks back on.
    pub fn fill_conv_tails(&mut self, li: usize, seq: usize, q: &[T], k: &[T], v: &[T])
        requires
            old(self).wf(),
            li < old(self).geometry().num_layers,
            q@.len() == seq * old(self).geometry().q_width(),
            k@.len() == seq * old(self).geometry().k_width(),
            v@.len() == seq * old(self).geometry().v_width(),
        ensures
            final(self).wf(),
            ({
                let l = li as int;
                let g = old(self).geometry();
                let (n, z) = (conv_reach(&g), old(self).blank());
                &&& final(self).conv(l, Qkv::Q) == tail_rows(q@, seq as nat, g.q_width(), n, z)
                &&& final(self).conv(l, Qkv::K) == tail_rows(k@, seq as nat, g.k_width(), n, z)
                &&& final(self).conv(l, Qkv::V) == tail_rows(v@, seq as nat, g.v_width(), n, z)
                &&& final(self).same_layers_but_conv(old(self), l)
            }),
            final(self).position() == old(self).position(),
            final(self).history() == old(self).history(),
    {
        proof {
            self.a_cache_is_addressable();
        }
        let zero = self.blank_entry();
        let cfg = self.config();
        let n: usize = if cfg.qkv_conv_taps == 0 {
            0
        } else {
            cfg.qkv_conv_taps - 1
        };
        let q_tail = last_rows(q, seq, cfg.q_dim(), n, zero);
        let k_tail = last_rows(k, seq, cfg.k_dim(), n, zero);
        let v_tail = last_rows(v, seq, cfg.v_dim(), n, zero);
        let ghost start = *self;
        self.seed_conv_tail(li, Qkv::Q, &q_tail);
        let ghost after_q = *self;
        self.seed_conv_tail(li, Qkv::K, &k_tail);
        let ghost after_k = *self;
        self.seed_conv_tail(li, Qkv::V, &v_tail);
        proof {
            let g = start.geometry();
            let l0 = li as int;
            assert(self.conv(l0, Qkv::K) == after_k.conv(l0, Qkv::K));
            assert(self.conv(l0, Qkv::Q) == after_k.conv(l0, Qkv::Q));
            assert(after_k.conv(l0, Qkv::Q) == after_q.conv(l0, Qkv::Q));
            assert forall|l: int| 0 <= l < g.num_layers implies #[trigger] self.same_ring(
                &start,
                l,
            ) by {
                assert(self.same_ring(&after_k, l));
                assert(after_k.same_ring(&after_q, l));
                assert(after_q.same_ring(&start, l));
            }
            assert forall|l: int, w: Qkv|
                0 <= l < g.num_layers && l != l0 implies #[trigger] self.conv(l, w) == start.conv(
                l,
                w,
            ) by {
                assert(self.conv(l, w) == after_k.conv(l, w));
                assert(after_k.conv(l, w) == after_q.conv(l, w));
                assert(after_q.conv(l, w) == start.conv(l, w));
            }
            assert forall|s: int|
                0 <= s < g.engram.sites@.len() implies #[trigger] self.engram(s) == start.engram(
                s,
            ) by {
                assert(self.engram(s) == after_k.engram(s));
                assert(after_k.engram(s) == after_q.engram(s));
                assert(after_q.engram(s) == start.engram(s));
            }
        }
    }

    /// Close a batched pass over `tokens`: the next position is the one behind
    /// them, and their last ids and Engram values are kept. `engram` holds the
    /// raw values of every site, a row per position, site after site.
    pub fn finish_fill(&mut self, tokens: &[u32], engram: &[T])
        requires
            old(self).wf(),
            engram@.len() == old(self).geometry().engram.sites@.len() * (tokens@.len()
                * old(self).geometry().d_model),
        ensures
            final(self).wf(),
            final(self).position() == tokens@.len(),
            final(self).history() == recent(
                tokens@,
                largest_order(old(self).geometry().engram.orders@),
            ),
            ({
                let g = old(self).geometry();
                let d = g.d_model as nat;
                &&& forall|site: int|
                    0 <= site < g.engram.sites@.len() ==> #[trigger] final(self).engram(site)
                        == tail_rows(
                        row(engram@, site, tokens@.len() * d),
                        tokens@.len(),
                        d,
                        engram_reach(&g),
                        old(self).blank(),
                    )
                &&& final(self).same_rings_and_convs(old(self))
            }),
    {
        let ghost start = *self;
        let ghost g = start.geometry();
        proof {
            self.a_cache_is_addressable();
        }
        let seq: usize = tokens.len();
        self.set_pos(seq);
        let ghost placed = *self;
        self.seed_tokens(tokens);
        proof {
            assert forall|l: int| 0 <= l < g.num_layers implies #[trigger] self.same_ring(
                &start,
                l,
            ) by {
                assert(self.same_ring(&placed, l));
                assert(placed.same_ring(&start, l));
            }
            assert forall|l: int, which: Qkv| 0 <= l < g.num_layers implies #[trigger] self.conv(
                l,
                which,
            ) == start.conv(l, which) by {
                assert(self.conv(l, which) == placed.conv(l, which));
                assert(placed.conv(l, which) == start.conv(l, which));
            }
        }
        let zero = self.blank_entry();
        let cfg = self.config();
        let d: usize = cfg.d_model;
        let sites: usize = cfg.engram.sites.len();
        let reach: usize = if cfg.engram.conv_taps == 0 {
            0
        } else {
            (cfg.engram.conv_taps - 1) * cfg.engram.conv_dilation
        };
        let mut site: usize = 0;
        while site < sites
            invariant
                site <= sites == g.engram.sites@.len(),
                self.wf(),
                g == start.geometry(),
                self.geometry() == g,
                tails_fit(&g),
                d == g.d_model,
                reach == engram_reach(&g),
                seq == tokens@.len(),
                zero == start.blank(),
                engram@.len() == sites * (seq * d),
                self.position() == seq,
                self.history() == recent(tokens@, largest_order(g.engram.orders@)),
                forall|k: int|
                    0 <= k < site ==> #[trigger] self.engram(k) == tail_rows(
                        row(engram@, k, (seq * d) as nat),
                        seq as nat,
                        d as nat,
                        reach as nat,
                        zero,
                    ),
                self.same_rings_and_convs(&start),
            decreases sites - site,
        {
            let ghost before = *self;
            let all: usize = engram.len();
            proof {
                let block = seq as int * d as int;
                lemma_row_lies_in(site as int, sites as int, block);
                assert(block <= all) by (nonlinear_arith)
                    requires
                        all == sites * block,
                        sites >= 1,
                        block >= 0,
                ;
                assert(block >= 0) by (nonlinear_arith)
                    requires
                        block == seq * d,
                ;
            }
            let block: usize = seq * d;
            let raw = row_slice(engram, site, block);
            let tail = last_rows(raw, seq, d, reach, zero);
            self.seed_engram_tail(site, &tail);
            proof {
                assert forall|k: int| 0 <= k <= site implies #[trigger] self.engram(k) == tail_rows(
                    row(engram@, k, (seq * d) as nat),
                    seq as nat,
                    d as nat,
                    reach as nat,
                    zero,
                ) by {
                    if k < site {
                        assert(self.engram(k) == before.engram(k));
                    }
                }
                assert forall|l: int| 0 <= l < g.num_layers implies #[trigger] self.same_ring(
                    &start,
                    l,
                ) by {
                    assert(self.same_ring(&before, l));
                    assert(before.same_ring(&start, l));
                }
                assert forall|l: int, which: Qkv| 0 <= l < g.num_layers implies #[trigger] self.conv(
                    l,
                    which,
                ) == start.conv(l, which) by {
                    assert(self.conv(l, which) == before.conv(l, which));
                    assert(before.conv(l, which) == start.conv(l, which));
                }
            }
            site = site + 1;
        }
    }
}

impl<T> V3Cache<T> {
    /// Everything but the convolution tails of layer `li` is the same, the
    /// position and the token history aside.
    pub open spec fn same_layers_but_conv(&self, other: &V3Cache<T>, li: int) -> bool {
        &&& self.geometry() == other.geometry()
        &&& self.mode() == other.mode()
        &&& self.blank() == other.blank()
        &&& self.unit() == other.unit()
        &&& forall|l: int|
            0 <= l < other.geometry().num_layers ==> #[trigger] self.same_ring(other, l)
        &&& forall|l: int, w: Qkv|
            0 <= l < other.geometry().num_layers && l != li ==> #[trigger] self.conv(l, w)
                == other.conv(l, w)
        &&& forall|s: int|
            0 <= s < other.geometry().engram.sites@.len() ==> #[trigger] self.engram(s)
                == other.engram(s)
    }

    /// Every ring and every convolution tail is the same.
    pub open spec fn same_rings_and_convs(&self, other: &V3Cache<T>) -> bool {
        &&& self.geometry() == other.geometry()
        &&& self.mode() == other.mode()
        &&& self.blank() == other.blank()
        &&& self.unit() == other.unit()
        &&& forall|l: int|
            0 <= l < other.geometry().num_layers ==> #[trigger] self.same_ring(other, l)
        &&& forall|l: int, w: Qkv|
            0 <= l < other.geometry().num_layers ==> #[trigger] self.conv(l, w) == other.conv(l, w)
    }
}

} // verus!
