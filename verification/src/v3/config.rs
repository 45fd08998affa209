//! Needle 3 geometry.
//!
//! Everything here is read from the container header, never assumed: query and
//! value heads of different widths, a per-layer choice between sliding and
//! global attention, and a causal depthwise convolution over Q, K and V.

use vstd::prelude::*;
use crate::lists::{holds, position};

verus! {

/// Engram placement and table layout.
#[derive(Debug, PartialEq, Eq)]
pub struct V3Engram {
    /// N-gram orders.
    pub orders: Vec<usize>,
    /// Hash heads per order.
    pub heads: usize,
    /// Rows per table.
    pub slots: usize,
    /// Width of one table row.
    pub sub_dim: usize,
    /// Layers carrying an Engram.
    pub sites: Vec<usize>,
    pub conv_taps: usize,
    pub conv_dilation: usize,
    pub seed_heads: usize,
}

impl V3Engram {
    /// One hash table per pair of an order and a head.
    pub open spec fn table_count(&self) -> nat {
        self.orders@.len() * self.heads as nat
    }

    /// The same geometry, list by list.
    pub open spec fn same_as(&self, other: &V3Engram) -> bool {
        &&& self.orders@ == other.orders@
        &&& self.heads == other.heads
        &&& self.slots == other.slots
        &&& self.sub_dim == other.sub_dim
        &&& self.sites@ == other.sites@
        &&& self.conv_taps == other.conv_taps
        &&& self.conv_dilation == other.conv_dilation
        &&& self.seed_heads == other.seed_heads
    }

    /// Total hash tables: one per (order, head) pair.
    pub fn num_tables(&self) -> (n: usize)
        requires
            self.table_count() <= usize::MAX,
        ensures
            n == self.table_count(),
    {
        self.orders.len() * self.heads
    }

    /// Index of `layer` among the Engram sites, if it carries one.
    pub fn site_of(&self, layer: usize) -> (site: Option<usize>)
        ensures
            match site {
                Some(s) => s < self.sites@.len() && self.sites@[s as int] == layer && forall|j: int|
                    0 <= j < s ==> self.sites@[j] != layer,
                None => !self.sites@.contains(layer),
            },
    {
        position(&self.sites, layer)
    }
}

impl Clone for V3Engram {
    fn clone(&self) -> (copy: Self)
        ensures
            copy.same_as(self),
    {
        let orders = self.orders.clone();
        let sites = self.sites.clone();
        assert(orders@ =~= self.orders@);
        assert(sites@ =~= self.sites@);
        V3Engram {
            orders,
            heads: self.heads,
            slots: self.slots,
            sub_dim: self.sub_dim,
            sites,
            conv_taps: self.conv_taps,
            conv_dilation: self.conv_dilation,
            seed_heads: self.seed_heads,
        }
    }
}

/// Full v3 model geometry.
#[derive(Debug, PartialEq, Eq)]
pub struct V3Config {
    pub vocab_size: usize,
    /// Rows of the tied head actually used for logits. Rows beyond this are
    /// input-only code embeddings. `0` means the full vocabulary.
    pub out_vocab: usize,
    pub d_model: usize,
    pub num_heads: usize,
    pub num_kv_heads: usize,
    pub num_layers: usize,
    /// Query and key head width.
    pub qk_head_dim: usize,
    /// Value head width, which may differ from `qk_head_dim`.
    pub v_head_dim: usize,
    pub max_seq_len: usize,
    /// Hadamard width: `d_model` rounded up to a power of two.
    pub hada_n: usize,
    pub mhc_lanes: usize,
    /// Rotary base, as the bits of an IEEE-754 single.
    pub rope_theta: u32,
    /// Local attention width for layers that are not global. `0` means full
    /// causal everywhere.
    pub sliding_window: usize,
    /// Layers attending over the whole sequence instead of `sliding_window`.
    pub global_layers: Vec<usize>,
    /// Causal depthwise convolution width over Q, K and V. `0` means none.
    pub qkv_conv_taps: usize,
    pub engram: V3Engram,
}

impl Clone for V3Config {
    fn clone(&self) -> (copy: Self)
        ensures
            copy.same_as(self),
    {
        let global_layers = self.global_layers.clone();
        assert(global_layers@ =~= self.global_layers@);
        V3Config {
            vocab_size: self.vocab_size,
            out_vocab: self.out_vocab,
            d_model: self.d_model,
            num_heads: self.num_heads,
            num_kv_heads: self.num_kv_heads,
            num_layers: self.num_layers,
            qk_head_dim: self.qk_head_dim,
            v_head_dim: self.v_head_dim,
            max_seq_len: self.max_seq_len,
            hada_n: self.hada_n,
            mhc_lanes: self.mhc_lanes,
            rope_theta: self.rope_theta,
            sliding_window: self.sliding_window,
            global_layers,
            qkv_conv_taps: self.qkv_conv_taps,
            engram: self.engram.clone(),
        }
    }
}

impl V3Config {
    /// Equal in everything but the depth: layer count, global layers and
    /// Engram sites may differ.
    pub open spec fn same_but_depth(&self, other: &V3Config) -> bool {
        &&& self.vocab_size == other.vocab_size
        &&& self.out_vocab == other.out_vocab
        &&& self.d_model == other.d_model
        &&& self.num_heads == other.num_heads
        &&& self.num_kv_heads == other.num_kv_heads
        &&& self.qk_head_dim == other.qk_head_dim
        &&& self.v_head_dim == other.v_head_dim
        &&& self.max_seq_len == other.max_seq_len
        &&& self.hada_n == other.hada_n
        &&& self.mhc_lanes == other.mhc_lanes
        &&& self.rope_theta == other.rope_theta
        &&& self.sliding_window == other.sliding_window
        &&& self.qkv_conv_taps == other.qkv_conv_taps
        &&& self.engram.orders@ == other.engram.orders@
        &&& self.engram.heads == other.engram.heads
        &&& self.engram.slots == other.engram.slots
        &&& self.engram.sub_dim == other.engram.sub_dim
        &&& self.engram.conv_taps == other.engram.conv_taps
        &&& self.engram.conv_dilation == other.engram.conv_dilation
        &&& self.engram.seed_heads == other.engram.seed_heads
    }

    /// Equal in everything, list by list.
    pub open spec fn same_as(&self, other: &V3Config) -> bool {
        &&& self.same_but_depth(other)
        &&& self.num_layers == other.num_layers
        &&& self.global_layers@ == other.global_layers@
        &&& self.engram.sites@ == other.engram.sites@
    }

    /// Width of the concatenated query projection.
    pub open spec fn q_width(&self) -> nat {
        self.num_heads as nat * self.qk_head_dim as nat
    }

    /// Width of the concatenated key projection.
    pub open spec fn k_width(&self) -> nat {
        self.num_kv_heads as nat * self.qk_head_dim as nat
    }

    /// Width of the concatenated value projection.
    pub open spec fn v_width(&self) -> nat {
        self.num_kv_heads as nat * self.v_head_dim as nat
    }

    /// Width of the attention output.
    pub open spec fn out_width(&self) -> nat {
        self.num_heads as nat * self.v_head_dim as nat
    }

    /// True when `layer` attends over the whole sequence.
    pub open spec fn global(&self, layer: usize) -> bool {
        self.global_layers@.contains(layer)
    }

    /// How many past positions `layer` can attend to; `None` is unbounded.
    pub open spec fn span_of(&self, layer: usize) -> Option<usize> {
        if self.global(layer) || self.sliding_window == 0 {
            None
        } else {
            Some(self.sliding_window)
        }
    }

    /// Positions `layer` keeps in a session of `seq_len`.
    pub open spec fn kept_positions(&self, layer: usize, seq_len: nat) -> nat {
        match self.span_of(layer) {
            Some(w) => if seq_len <= w {
                seq_len
            } else {
                w as nat
            },
            None => seq_len,
        }
    }

    /// Key and value scalars stored for one position of one layer.
    pub open spec fn kv_per_position(&self) -> nat {
        self.num_kv_heads as nat * (self.qk_head_dim as nat + self.v_head_dim as nat)
    }

    /// Positions kept by the first `layers` layers together.
    pub open spec fn total_positions(&self, layers: nat, seq_len: nat) -> nat
        decreases layers,
    {
        if layers == 0 {
            0
        } else {
            self.total_positions((layers - 1) as nat, seq_len) + self.kept_positions(
                (layers - 1) as usize,
                seq_len,
            )
        }
    }

    /// Bytes of the key/value cache at `bytes_per` for each scalar.
    pub open spec fn kv_cost(&self, seq_len: nat, bytes_per: nat) -> nat {
        self.total_positions(self.num_layers as nat, seq_len) * self.kv_per_position() * bytes_per
    }

    /// How many of the first `layers` layers keep the whole sequence.
    pub open spec fn unbounded_layers(&self, layers: nat) -> nat
        decreases layers,
    {
        if layers == 0 {
            0
        } else {
            self.unbounded_layers((layers - 1) as nat) + if self.span_of(
                (layers - 1) as usize,
            ) is None {
                1nat
            } else {
                0nat
            }
        }
    }

    /// Width of the concatenated query projection, `num_heads * qk_head_dim`.
    pub fn q_dim(&self) -> (w: usize)
        requires
            self.q_width() <= usize::MAX,
        ensures
            w == self.q_width(),
    {
        self.num_heads * self.qk_head_dim
    }

    /// Width of the concatenated key projection.
    pub fn k_dim(&self) -> (w: usize)
        requires
            self.k_width() <= usize::MAX,
        ensures
            w == self.k_width(),
    {
        self.num_kv_heads * self.qk_head_dim
    }

    /// Width of the concatenated value projection.
    pub fn v_dim(&self) -> (w: usize)
        requires
            self.v_width() <= usize::MAX,
        ensures
            w == self.v_width(),
    {
        self.num_kv_heads * self.v_head_dim
    }

    /// Width of the attention output before the output projection,
    /// `num_heads * v_head_dim`.
    pub fn attn_out_dim(&self) -> (w: usize)
        requires
            self.out_width() <= usize::MAX,
        ensures
            w == self.out_width(),
    {
        self.num_heads * self.v_head_dim
    }

    /// Query heads served by one key/value head.
    pub fn kv_repeat(&self) -> (r: usize)
        requires
            self.num_kv_heads != 0,
        ensures
            r == self.num_heads / self.num_kv_heads,
    {
        self.num_heads / self.num_kv_heads
    }

    /// Flattened lane-stream width, `mhc_lanes * d_model`.
    pub fn mhc_width(&self) -> (w: usize)
        requires
            self.mhc_lanes * self.d_model <= usize::MAX,
        ensures
            w == self.mhc_lanes * self.d_model,
    {
        self.mhc_lanes * self.d_model
    }

    /// Rows of the tied head used for logits.
    pub fn logit_rows(&self) -> (rows: usize)
        ensures
            rows == if self.out_vocab == 0 {
                self.vocab_size
            } else {
                self.out_vocab
            },
    {
        if self.out_vocab == 0 {
            self.vocab_size
        } else {
            self.out_vocab
        }
    }

    /// True when `layer` attends over the whole sequence.
    pub fn is_global(&self, layer: usize) -> (yes: bool)
        ensures
            yes == self.global(layer),
    {
        holds(&self.global_layers, layer)
    }

    /// How many past positions `layer` can attend to, counting the current
    /// one. `None` means unbounded: the caller must keep full history.
    pub fn attention_span(&self, layer: usize) -> (span: Option<usize>)
        ensures
            span == self.span_of(layer),
    {
        if self.is_global(layer) || self.sliding_window == 0 {
            None
        } else {
            Some(self.sliding_window)
        }
    }

    /// The lane layer `i` is assigned to: lanes are dealt out in turn.
    pub fn active_lane(&self, layer: usize) -> (lane: usize)
        requires
            self.mhc_lanes != 0,
        ensures
            lane == layer % self.mhc_lanes,
            lane < self.mhc_lanes,
    {
        layer % self.mhc_lanes
    }

    /// Bytes of key/value cache for a session of `seq_len` positions, at
    /// `bytes_per` per stored scalar.
    ///
    /// Local layers cost a fixed ring; global layers cost the real sequence
    /// length, so a session pays for what it uses.
    pub fn kv_bytes(&self, seq_len: usize, bytes_per: usize) -> (total: usize)
        requires
            self.qk_head_dim + self.v_head_dim <= usize::MAX,
            self.kv_per_position() <= usize::MAX,
            forall|l: usize|
                l < self.num_layers ==> #[trigger] self.kept_positions(l, seq_len as nat)
                    * self.kv_per_position() <= usize::MAX,
            self.kv_cost(seq_len as nat, bytes_per as nat) <= usize::MAX,
        ensures
            total == self.kv_cost(seq_len as nat, bytes_per as nat),
    {
        let per_pos: usize = self.num_kv_heads * (self.qk_head_dim + self.v_head_dim);
        let mut total: usize = 0;
        let mut layer: usize = 0;
        proof {
            let p = self.kv_per_position();
            assert(0 * p * bytes_per == 0) by (nonlinear_arith);
        }
        while layer < self.num_layers
            invariant
                layer <= self.num_layers,
                per_pos == self.kv_per_position(),
                forall|l: usize|
                    l < self.num_layers ==> #[trigger] self.kept_positions(l, seq_len as nat)
                        * self.kv_per_position() <= usize::MAX,
                self.kv_cost(seq_len as nat, bytes_per as nat) <= usize::MAX,
                total == self.total_positions(layer as nat, seq_len as nat)
                    * self.kv_per_position() * bytes_per,
            decreases self.num_layers - layer,
        {
            let slots: usize = match self.attention_span(layer) {
                Some(w) => if seq_len <= w {
                    seq_len
                } else {
                    w
                },
                None => seq_len,
            };
            proof {
                let s = seq_len as nat;
                assert(slots == self.kept_positions(layer, s));
                self.lemma_positions_grow(layer as nat + 1, self.num_layers as nat, s);
                let now = self.total_positions(layer as nat, s);
                let next = self.total_positions(layer as nat + 1, s);
                let all = self.total_positions(self.num_layers as nat, s);
                let p = self.kv_per_position();
                let b = bytes_per as nat;
                assert(next == now + slots);
                assert(next * p * b == now * p * b + slots * p * b) by (nonlinear_arith)
                    requires
                        next == now + slots,
                ;
                assert(next * p * b <= all * p * b) by (nonlinear_arith)
                    requires
                        next <= all,
                ;
                assert(0 <= now * p * b) by (nonlinear_arith);
            }
            total = total + slots * per_pos * bytes_per;
            layer = layer + 1;
        }
        total
    }

    proof fn lemma_positions_grow(&self, a: nat, b: nat, seq_len: nat)
        requires
            a <= b,
        ensures
            self.total_positions(a, seq_len) <= self.total_positions(b, seq_len),
        decreases b,
    {
        if a < b {
            self.lemma_positions_grow(a, (b - 1) as nat, seq_len);
        }
    }
}

/// A longer session never costs less.
pub proof fn kv_cost_is_monotone(c: &V3Config, s1: nat, s2: nat, bytes_per: nat)
    requires
        s1 <= s2,
    ensures
        c.kv_cost(s1, bytes_per) <= c.kv_cost(s2, bytes_per),
{
    lemma_positions_monotone(c, c.num_layers as nat, s1, s2);
    let a = c.total_positions(c.num_layers as nat, s1);
    let b = c.total_positions(c.num_layers as nat, s2);
    let p = c.kv_per_position();
    assert(a * p * bytes_per <= b * p * bytes_per) by (nonlinear_arith)
        requires
            a <= b,
    ;
}

proof fn lemma_positions_monotone(c: &V3Config, layers: nat, s1: nat, s2: nat)
    requires
        s1 <= s2,
    ensures
        c.total_positions(layers, s1) <= c.total_positions(layers, s2),
    decreases layers,
{
    if layers > 0 {
        lemma_positions_monotone(c, (layers - 1) as nat, s1, s2);
    }
}

/// Past the window only the layers without one keep growing, each by what
/// the session grows.
pub proof fn past_the_window_only_unbounded_layers_grow(
    c: &V3Config,
    s1: nat,
    s2: nat,
    bytes_per: nat,
)
    requires
        c.sliding_window <= s1 <= s2,
    ensures
        c.kv_cost(s2, bytes_per) - c.kv_cost(s1, bytes_per) == c.unbounded_layers(
            c.num_layers as nat,
        ) * (s2 - s1) * c.kv_per_position() * bytes_per,
{
    lemma_growth(c, c.num_layers as nat, s1, s2);
    let a = c.total_positions(c.num_layers as nat, s1) as int;
    let b = c.total_positions(c.num_layers as nat, s2) as int;
    let u = c.unbounded_layers(c.num_layers as nat) as int;
    let d = s2 - s1;
    let p = c.kv_per_position() as int;
    let w = bytes_per as int;
    assert(b * p * w - a * p * w == u * d * p * w) by (nonlinear_arith)
        requires
            b - a == u * d,
    ;
}

proof fn lemma_growth(c: &V3Config, layers: nat, s1: nat, s2: nat)
    requires
        c.sliding_window <= s1 <= s2,
    ensures
        c.total_positions(layers, s2) - c.total_positions(layers, s1) == c.unbounded_layers(layers)
            * (s2 - s1),
    decreases layers,
{
    if layers > 0 {
        lemma_growth(c, (layers - 1) as nat, s1, s2);
        let u = c.unbounded_layers((layers - 1) as nat) as int;
        let d = s2 - s1;
        assert((u + 1) * d == u * d + d) by (nonlinear_arith);
    } else {
        assert(0 * (s2 - s1) == 0) by (nonlinear_arith);
    }
}

/// Layers of the first `layers` that keep one position more where the session
/// grows past `seq_len`: those without a window, or with one that is not full.
pub open spec fn growing_layers(c: &V3Config, layers: nat, seq_len: nat) -> nat
    decreases layers,
{
    if layers == 0 {
        0
    } else {
        let li = (layers - 1) as usize;
        growing_layers(c, (layers - 1) as nat, seq_len) + if c.global_layers@.contains(li)
            || c.sliding_window == 0 || seq_len < c.sliding_window {
            1nat
        } else {
            0nat
        }
    }
}

/// An empty session costs nothing, and each position costs its keys and values
/// once in every layer that still keeps one more.
pub proof fn each_position_costs_its_keys_and_values(c: &V3Config, seq_len: nat, bytes_per: nat)
    ensures
        c.kv_cost(0, bytes_per) == 0,
        c.kv_cost(seq_len + 1, bytes_per) - c.kv_cost(seq_len, bytes_per) == growing_layers(
            c,
            c.num_layers as nat,
            seq_len,
        ) * (c.num_kv_heads * c.qk_head_dim + c.num_kv_heads * c.v_head_dim) * bytes_per,
{
    let n = c.num_layers as nat;
    lemma_one_more(c, n, seq_len);
    lemma_no_positions(c, n);
    let p = c.kv_per_position() as int;
    let heads = c.num_kv_heads as int;
    let k = c.qk_head_dim as int;
    let v = c.v_head_dim as int;
    assert(heads * (k + v) == heads * k + heads * v) by (nonlinear_arith);
    let a = c.total_positions(n, seq_len) as int;
    let b = c.total_positions(n, seq_len + 1) as int;
    let g = growing_layers(c, n, seq_len) as int;
    let w = bytes_per as int;
    assert(b * p * w - a * p * w == g * p * w) by (nonlinear_arith)
        requires
            b - a == g,
    ;
    assert(0 * p * w == 0) by (nonlinear_arith);
}

proof fn lemma_one_more(c: &V3Config, layers: nat, seq_len: nat)
    ensures
        c.total_positions(layers, seq_len + 1) == c.total_positions(layers, seq_len)
            + growing_layers(c, layers, seq_len),
    decreases layers,
{
    if layers > 0 {
        lemma_one_more(c, (layers - 1) as nat, seq_len);
    }
}

proof fn lemma_no_positions(c: &V3Config, layers: nat)
    ensures
        c.total_positions(layers, 0) == 0,
    decreases layers,
{
    if layers > 0 {
        lemma_no_positions(c, (layers - 1) as nat);
    }
}

} // verus!
