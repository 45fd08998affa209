//! Incremental decode state for Needle 3.
//!
//! A session carries three separate histories, each with a different reach:
//!
//! 1. **Keys and values**, per layer. Local layers attend over a window and
//!    get a fixed ring; global layers attend over everything and grow.
//! 2. **Raw Q/K/V projections**, the last `qkv_conv_taps - 1` of them per
//!    layer, for the causal convolution.
//! 3. **Engram history**: the last few token ids for the n-gram hash, and the
//!    pre-convolution value vectors reaching back `(conv_taps - 1) * dilation`
//!    positions per site.
//!
//! Memory is sized to the session, not to the windows. Every layer starts at
//! the caller's hint and doubles into its cap. While a ring is shorter than
//! its cap the modulo is the identity, so growing never scrambles what is
//! already written.
//!
//! The cache never computes on what it stores, so it is written over any
//! element type; `zero` and `one` are the two values it needs to fill with.

use vstd::prelude::*;
use crate::v3::attention::{first_visible, slots_read, KvStore, Ring};
use crate::v3::config::V3Config;
use crate::v3::engram::{largest_order, max_order, recent};
use crate::v3::rows::{extend, extended, put_row, row, set_row, set_row_changes_one_row, tail_rows};

verus! {

/// How the key/value cache stores its entries.
#[derive(Debug, Clone, Copy, PartialEq, Eq, Structural)]
pub enum KvPrecision {
    /// One full-width scalar per element.
    F32,
    /// Per-head symmetric 8-bit: one `i8` per element and one scale per head
    /// vector.
    Int8,
}

/// Which projection a conv step is rolling.
#[derive(Debug, Clone, Copy, PartialEq, Eq, Structural)]
pub enum Qkv {
    Q,
    K,
    V,
}

/// Per-layer key/value storage.
struct LayerCache<T> {
    /// Filled when the precision is `F32`; empty otherwise.
    k: Vec<T>,
    v: Vec<T>,
    /// Filled when the precision is `Int8`; empty otherwise.
    kq: Vec<i8>,
    vq: Vec<i8>,
    k_scale: Vec<T>,
    v_scale: Vec<T>,
    /// Ring capacity in positions, grown on demand up to `cap`.
    slots: usize,
    /// The most this layer will ever hold.
    cap: usize,
    /// Raw, pre-convolution projections, most recent last.
    q_tail: Vec<T>,
    k_tail: Vec<T>,
    v_tail: Vec<T>,
}

/// Decode state for one session.
pub struct V3Cache<T> {
    cfg: V3Config,
    precision: KvPrecision,
    zero: T,
    one: T,
    layers: Vec<LayerCache<T>>,
    /// Token ids, kept only as far back as the largest n-gram order needs.
    tokens: Vec<u32>,
    /// Pre-convolution Engram values per site, most recent last.
    engram_tail: Vec<Vec<T>>,
    /// Number of positions written so far; the next write lands here.
    pos: usize,
}

pub open spec fn smaller(a: nat, b: nat) -> nat {
    if a <= b {
        a
    } else {
        b
    }
}

pub open spec fn larger(a: nat, b: nat) -> nat {
    if a >= b {
        a
    } else {
        b
    }
}

/// The most positions layer `li` will ever hold: its window, or the whole
/// context for a layer without one.
pub open spec fn layer_cap(cfg: &V3Config, li: usize) -> nat {
    match cfg.span_of(li) {
        Some(w) => smaller(w as nat, cfg.max_seq_len as nat),
        None => cfg.max_seq_len as nat,
    }
}

/// Positions layer `li` starts with in a session expected to reach `hint`.
pub open spec fn first_slots(cfg: &V3Config, hint: nat, li: usize) -> nat {
    smaller(smaller(larger(hint, 1), cfg.max_seq_len as nat), layer_cap(cfg, li))
}

/// Capacity after `pos` has been made addressable: unchanged where it already
/// is, or where the cap is reached; otherwise doubled, at least to `pos`, and
/// never past the cap.
pub open spec fn grown_slots(slots: nat, cap: nat, pos: nat) -> nat {
    if pos < slots || slots >= cap {
        slots
    } else {
        smaller(larger(slots * 2, pos + 1), cap)
    }
}

/// Raw vectors the causal convolution looks back on.
pub open spec fn conv_reach(cfg: &V3Config) -> nat {
    if cfg.qkv_conv_taps == 0 {
        0
    } else {
        (cfg.qkv_conv_taps - 1) as nat
    }
}

/// Positions the Engram convolution looks back on.
pub open spec fn engram_reach(cfg: &V3Config) -> nat {
    if cfg.engram.conv_taps == 0 {
        0
    } else {
        (cfg.engram.conv_taps - 1) as nat * cfg.engram.conv_dilation as nat
    }
}

/// Width of one projection.
pub open spec fn projection_width(cfg: &V3Config, which: Qkv) -> nat {
    match which {
        Qkv::Q => cfg.q_width(),
        Qkv::K => cfg.k_width(),
        Qkv::V => cfg.v_width(),
    }
}

/// A ring of `slots` positions can be addressed.
pub open spec fn ring_fits(cfg: &V3Config, slots: nat) -> bool {
    &&& slots * cfg.k_width() <= usize::MAX
    &&& slots * cfg.v_width() <= usize::MAX
    &&& slots * cfg.num_kv_heads as nat <= usize::MAX
}

/// The widths and tails of `cfg` can be addressed.
pub open spec fn tails_fit(cfg: &V3Config) -> bool {
    &&& cfg.q_width() <= usize::MAX
    &&& cfg.k_width() <= usize::MAX
    &&& cfg.v_width() <= usize::MAX
    &&& conv_reach(cfg) * cfg.q_width() <= usize::MAX
    &&& conv_reach(cfg) * cfg.k_width() <= usize::MAX
    &&& conv_reach(cfg) * cfg.v_width() <= usize::MAX
    &&& engram_reach(cfg) <= usize::MAX
    &&& engram_reach(cfg) * cfg.d_model as nat <= usize::MAX
}

/// Any session of `cfg` can be addressed, up to its full context.
pub open spec fn cacheable(cfg: &V3Config) -> bool {
    &&& cfg.max_seq_len >= 1
    &&& tails_fit(cfg)
    &&& ring_fits(cfg, cfg.max_seq_len as nat)
}

/// Whether any session of `cfg` can be addressed.
pub fn is_cacheable(cfg: &V3Config) -> (yes: bool)
    ensures
        yes == cacheable(cfg),
{
    let q: usize = match cfg.num_heads.checked_mul(cfg.qk_head_dim) {
        Some(w) => w,
        None => {
            return false;
        },
    };
    let k: usize = match cfg.num_kv_heads.checked_mul(cfg.qk_head_dim) {
        Some(w) => w,
        None => {
            return false;
        },
    };
    let v: usize = match cfg.num_kv_heads.checked_mul(cfg.v_head_dim) {
        Some(w) => w,
        None => {
            return false;
        },
    };
    let reach: usize = if cfg.qkv_conv_taps == 0 {
        0
    } else {
        cfg.qkv_conv_taps - 1
    };
    let back: usize = if cfg.engram.conv_taps == 0 {
        0
    } else {
        match (cfg.engram.conv_taps - 1).checked_mul(cfg.engram.conv_dilation) {
            Some(n) => n,
            None => {
                return false;
            },
        }
    };
    let n: usize = cfg.max_seq_len;
    n >= 1 && reach.checked_mul(q).is_some() && reach.checked_mul(k).is_some() && reach.checked_mul(
        v,
    ).is_some() && back.checked_mul(cfg.d_model).is_some() && n.checked_mul(k).is_some()
        && n.checked_mul(v).is_some() && n.checked_mul(cfg.num_kv_heads).is_some()
}

/// In a model that passes, no ring of any layer outgrows what can be
/// addressed, however far a session runs.
pub proof fn a_cacheable_ring_always_fits(cfg: &V3Config, li: usize, slots: nat)
    requires
        cacheable(cfg),
        slots <= layer_cap(cfg, li),
    ensures
        ring_fits(cfg, slots),
{
    let (x, y) = (slots as int, cfg.max_seq_len as int);
    let (k, v, h) = (cfg.k_width() as int, cfg.v_width() as int, cfg.num_kv_heads as int);
    assert(x * k <= y * k && x * v <= y * v && x * h <= y * h) by (nonlinear_arith)
        requires
            x <= y,
            k >= 0,
            v >= 0,
            h >= 0,
    ;
}

/// The tail after one more raw vector: the oldest drops out.
pub open spec fn rolled<T>(tail: Seq<T>, raw: Seq<T>) -> Seq<T> {
    if tail.len() == 0 {
        tail
    } else {
        tail.skip(raw.len() as int) + raw
    }
}

/// `len` copies of `fill`.
pub open spec fn filled<T>(len: nat, fill: T) -> Seq<T> {
    Seq::new(len, |i: int| fill)
}

fn repeat<T: Copy>(len: usize, fill: T) -> (v: Vec<T>)
    ensures
        v@ == filled(len as nat, fill),
{
    let mut v: Vec<T> = Vec::new();
    extend(&mut v, len, fill);
    assert(v@ =~= filled(len as nat, fill));
    v
}

impl<T> LayerCache<T> {
    spec fn wf(&self, cfg: &V3Config, precision: KvPrecision) -> bool {
        let s = self.slots as nat;
        &&& 1 <= self.slots <= self.cap
        &&& match precision {
            KvPrecision::F32 => {
                &&& self.k@.len() == s * cfg.k_width()
                &&& self.v@.len() == s * cfg.v_width()
                &&& self.kq@.len() == 0
                &&& self.vq@.len() == 0
                &&& self.k_scale@.len() == 0
                &&& self.v_scale@.len() == 0
            },
            KvPrecision::Int8 => {
                &&& self.k@.len() == 0
                &&& self.v@.len() == 0
                &&& self.kq@.len() == s * cfg.k_width()
                &&& self.vq@.len() == s * cfg.v_width()
                &&& self.k_scale@.len() == s * cfg.num_kv_heads as nat
                &&& self.v_scale@.len() == s * cfg.num_kv_heads as nat
            },
        }
        &&& self.q_tail@.len() == conv_reach(cfg) * cfg.q_width()
        &&& self.k_tail@.len() == conv_reach(cfg) * cfg.k_width()
        &&& self.v_tail@.len() == conv_reach(cfg) * cfg.v_width()
    }

    spec fn tail(&self, which: Qkv) -> Seq<T> {
        match which {
            Qkv::Q => self.q_tail@,
            Qkv::K => self.k_tail@,
            Qkv::V => self.v_tail@,
        }
    }

    spec fn bytes(&self) -> nat {
        (self.k@.len() + self.v@.len() + self.k_scale@.len() + self.v_scale@.len()) * 4
            + self.kq@.len() + self.vq@.len() + (self.q_tail@.len() + self.k_tail@.len()
            + self.v_tail@.len()) * 4
    }
}

impl<T> V3Cache<T> {
    /// The geometry the cache was made for.
    pub closed spec fn geometry(&self) -> V3Config {
        self.cfg
    }

    /// How entries are stored.
    pub closed spec fn mode(&self) -> KvPrecision {
        self.precision
    }

    /// What unwritten entries hold.
    pub closed spec fn blank(&self) -> T {
        self.zero
    }

    /// What unwritten scales hold.
    pub closed spec fn unit(&self) -> T {
        self.one
    }

    /// Positions written so far.
    pub closed spec fn position(&self) -> nat {
        self.pos as nat
    }

    /// Retained token ids, oldest first.
    pub closed spec fn history(&self) -> Seq<u32> {
        self.tokens@
    }

    /// Ring capacity of layer `li`.
    pub closed spec fn ring(&self, li: int) -> nat {
        self.layers@[li].slots as nat
    }

    /// The most positions layer `li` will ever hold.
    pub closed spec fn cap(&self, li: int) -> nat {
        self.layers@[li].cap as nat
    }

    /// The first position layer `li` may attend to at `pos`: neither its window
    /// nor its ring reaches further back.
    pub open spec fn span_start(&self, li: usize, pos: nat) -> nat {
        larger(
            first_visible(pos as int, self.geometry().span_of(li)) as nat,
            if pos + 1 >= self.ring(li as int) {
                (pos + 1 - self.ring(li as int)) as nat
            } else {
                0
            },
        )
    }

    /// Stored keys of layer `li`, row per slot.
    pub closed spec fn keys(&self, li: int) -> Seq<T> {
        self.layers@[li].k@
    }

    /// Stored values of layer `li`, row per slot.
    pub closed spec fn values(&self, li: int) -> Seq<T> {
        self.layers@[li].v@
    }

    /// Stored 8-bit keys of layer `li`.
    pub closed spec fn int_keys(&self, li: int) -> Seq<i8> {
        self.layers@[li].kq@
    }

    /// Stored 8-bit values of layer `li`.
    pub closed spec fn int_values(&self, li: int) -> Seq<i8> {
        self.layers@[li].vq@
    }

    /// Key scales of layer `li`, one per slot and head.
    pub closed spec fn key_scales(&self, li: int) -> Seq<T> {
        self.layers@[li].k_scale@
    }

    /// Value scales of layer `li`, one per slot and head.
    pub closed spec fn value_scales(&self, li: int) -> Seq<T> {
        self.layers@[li].v_scale@
    }

    /// Raw vectors retained for the convolution of layer `li`.
    pub closed spec fn conv(&self, li: int, which: Qkv) -> Seq<T> {
        self.layers@[li].tail(which)
    }

    /// Engram values retained for one site.
    pub closed spec fn engram(&self, site: int) -> Seq<T> {
        self.engram_tail@[site]@
    }

    /// Every buffer is as long as the geometry and the rings say.
    pub closed spec fn wf(&self) -> bool {
        &&& tails_fit(&self.cfg)
        &&& self.layers@.len() == self.cfg.num_layers
        &&& self.engram_tail@.len() == self.cfg.engram.sites@.len()
        &&& forall|li: int|
            0 <= li < self.layers@.len() ==> (#[trigger] self.layers@[li]).wf(
                &self.cfg,
                self.precision,
            ) && self.layers@[li].cap == layer_cap(&self.cfg, li as usize)
        &&& forall|s: int|
            0 <= s < self.engram_tail@.len() ==> (#[trigger] self.engram_tail@[s])@.len()
                == engram_reach(&self.cfg) * self.cfg.d_model as nat
    }

    /// Everything but the token history and the position is the same.
    pub open spec fn same_layers(&self, other: &V3Cache<T>) -> bool {
        &&& self.geometry() == other.geometry()
        &&& self.mode() == other.mode()
        &&& self.blank() == other.blank()
        &&& self.unit() == other.unit()
        &&& forall|li: int|
            0 <= li < other.geometry().num_layers ==> #[trigger] self.same_ring(other, li)
        &&& forall|li: int, which: Qkv|
            0 <= li < other.geometry().num_layers ==> #[trigger] self.conv(li, which)
                == other.conv(li, which)
        &&& forall|s: int|
            0 <= s < other.geometry().engram.sites@.len() ==> #[trigger] self.engram(s)
                == other.engram(s)
    }

    /// Layer `li` holds the same keys and values.
    pub open spec fn same_ring(&self, other: &V3Cache<T>, li: int) -> bool {
        &&& self.ring(li) == other.ring(li)
        &&& self.cap(li) == other.cap(li)
        &&& self.keys(li) == other.keys(li)
        &&& self.values(li) == other.values(li)
        &&& self.int_keys(li) == other.int_keys(li)
        &&& self.int_values(li) == other.int_values(li)
        &&& self.key_scales(li) == other.key_scales(li)
        &&& self.value_scales(li) == other.value_scales(li)
    }

    /// All but the key/value ring of layer `li` is the same.
    pub open spec fn same_outside_ring(&self, other: &V3Cache<T>, li: int) -> bool {
        &&& self.geometry() == other.geometry()
        &&& self.mode() == other.mode()
        &&& self.blank() == other.blank()
        &&& self.unit() == other.unit()
        &&& self.position() == other.position()
        &&& self.history() == other.history()
        &&& forall|l: int|
            0 <= l < other.geometry().num_layers && l != li ==> #[trigger] self.same_ring(other, l)
        &&& forall|l: int, which: Qkv|
            0 <= l < other.geometry().num_layers ==> #[trigger] self.conv(l, which) == other.conv(
                l,
                which,
            )
        &&& forall|s: int|
            0 <= s < other.geometry().engram.sites@.len() ==> #[trigger] self.engram(s)
                == other.engram(s)
    }

    /// Bytes held by the first `n` layers.
    pub closed spec fn layer_bytes(&self, n: nat) -> nat
        decreases n,
    {
        if n == 0 {
            0
        } else {
            self.layer_bytes((n - 1) as nat) + self.layers@[n - 1].bytes()
        }
    }

    /// Bytes held by the first `n` Engram tails.
    pub closed spec fn engram_bytes(&self, n: nat) -> nat
        decreases n,
    {
        if n == 0 {
            0
        } else {
            self.engram_bytes((n - 1) as nat) + self.engram_tail@[n - 1]@.len() * 4
        }
    }

    /// Bytes held by the whole session: four per scalar and token, one per
    /// 8-bit entry.
    pub open spec fn total_bytes(&self) -> nat {
        self.layer_bytes(self.geometry().num_layers as nat) + self.engram_bytes(
            self.geometry().engram.sites@.len(),
        ) + self.history().len() * 4
    }
}

impl<T: Copy> V3Cache<T> {
    /// A cache for a session expected to reach `hint` positions.
    ///
    /// `hint` only sizes the first allocation: exceeding it grows rather than
    /// fails.
    pub fn new(cfg: &V3Config, hint: usize, zero: T, one: T) -> (cache: Self)
        requires
            cfg.max_seq_len >= 1,
            tails_fit(cfg),
            forall|li: usize|
                li < cfg.num_layers ==> ring_fits(cfg, #[trigger] first_slots(cfg, hint as nat, li)),
        ensures
            cache.is_fresh(cfg, hint as nat, KvPrecision::F32, zero, one),
    {
        V3Cache::with_precision(cfg, hint, KvPrecision::F32, zero, one)
    }
}

impl<T> V3Cache<T> {
    /// A cache as it comes out of its constructor.
    pub open spec fn is_fresh(
        &self,
        cfg: &V3Config,
        hint: nat,
        precision: KvPrecision,
        zero: T,
        one: T,
    ) -> bool {
        &&& self.wf()
        &&& self.geometry().same_as(cfg)
        &&& self.mode() == precision
        &&& self.blank() == zero
        &&& self.unit() == one
        &&& self.position() == 0
        &&& self.history() == Seq::<u32>::empty()
        &&& forall|li: int|
            0 <= li < cfg.num_layers ==> {
                let s = first_slots(cfg, hint, li as usize);
                let int8 = precision == KvPrecision::Int8;
                &&& #[trigger] self.ring(li) == s
                &&& self.cap(li) == layer_cap(cfg, li as usize)
                &&& self.keys(li) == filled(if int8 { 0 } else { s * cfg.k_width() }, zero)
                &&& self.values(li) == filled(if int8 { 0 } else { s * cfg.v_width() }, zero)
                &&& self.int_keys(li) == filled(if int8 { s * cfg.k_width() } else { 0 }, 0i8)
                &&& self.int_values(li) == filled(if int8 { s * cfg.v_width() } else { 0 }, 0i8)
                &&& self.key_scales(li) == filled(
                    if int8 { s * cfg.num_kv_heads as nat } else { 0 },
                    one,
                )
                &&& self.value_scales(li) == filled(
                    if int8 { s * cfg.num_kv_heads as nat } else { 0 },
                    one,
                )
            }
        &&& forall|li: int, which: Qkv|
            0 <= li < cfg.num_layers ==> #[trigger] self.conv(li, which) == filled(
                conv_reach(cfg) * projection_width(cfg, which),
                zero,
            )
        &&& forall|s: int|
            0 <= s < cfg.engram.sites@.len() ==> #[trigger] self.engram(s) == filled(
                engram_reach(cfg) * cfg.d_model as nat,
                zero,
            )
    }
}

fn at_most(a: usize, b: usize) -> (m: usize)
    ensures
        m == smaller(a as nat, b as nat),
{
    if a <= b {
        a
    } else {
        b
    }
}

impl<T: Copy> LayerCache<T> {
    /// An empty layer of `slots` positions.
    fn blank(
        cfg: &V3Config,
        slots: usize,
        cap: usize,
        precision: KvPrecision,
        zero: T,
        one: T,
    ) -> (layer: Self)
        requires
            tails_fit(cfg),
            1 <= slots <= cap,
            ring_fits(cfg, slots as nat),
        ensures
            layer.wf(cfg, precision),
            layer.slots == slots,
            layer.cap == cap,
            layer.k@ == filled(
                if precision == KvPrecision::Int8 { 0 } else { slots as nat * cfg.k_width() },
                zero,
            ),
            layer.v@ == filled(
                if precision == KvPrecision::Int8 { 0 } else { slots as nat * cfg.v_width() },
                zero,
            ),
            layer.kq@ == filled(
                if precision == KvPrecision::Int8 { slots as nat * cfg.k_width() } else { 0 },
                0i8,
            ),
            layer.vq@ == filled(
                if precision == KvPrecision::Int8 { slots as nat * cfg.v_width() } else { 0 },
                0i8,
            ),
            layer.k_scale@ == filled(
                if precision == KvPrecision::Int8 { slots as nat * cfg.num_kv_heads as nat } else {
                    0
                },
                one,
            ),
            layer.v_scale@ == filled(
                if precision == KvPrecision::Int8 { slots as nat * cfg.num_kv_heads as nat } else {
                    0
                },
                one,
            ),
            forall|which: Qkv| #[trigger]
                layer.tail(which) == filled(
                    conv_reach(cfg) * projection_width(cfg, which),
                    zero,
                ),
    {
        let back: usize = if cfg.qkv_conv_taps == 0 {
            0
        } else {
            cfg.qkv_conv_taps - 1
        };
        let full: usize = if precision == KvPrecision::Int8 {
            0
        } else {
            slots
        };
        let packed: usize = slots - full;
        let (q_dim, k_dim, v_dim) = (cfg.q_dim(), cfg.k_dim(), cfg.v_dim());
        proof {
            assert(0 * cfg.k_width() == 0) by (nonlinear_arith);
            assert(0 * cfg.v_width() == 0) by (nonlinear_arith);
            assert(0 * cfg.num_kv_heads as nat == 0) by (nonlinear_arith);
        }
        LayerCache {
            k: repeat(full * k_dim, zero),
            v: repeat(full * v_dim, zero),
            kq: repeat(packed * k_dim, 0i8),
            vq: repeat(packed * v_dim, 0i8),
            k_scale: repeat(packed * cfg.num_kv_heads, one),
            v_scale: repeat(packed * cfg.num_kv_heads, one),
            slots,
            cap,
            q_tail: repeat(back * q_dim, zero),
            k_tail: repeat(back * k_dim, zero),
            v_tail: repeat(back * v_dim, zero),
        }
    }
}

impl<T: Copy> V3Cache<T> {
    /// A cache that stores its keys and values at `precision` from the first
    /// write.
    ///
    /// Precision is fixed at construction because it decides the allocation:
    /// an `Int8` cache never allocates the full-width buffers at all.
    pub fn with_precision(
        cfg: &V3Config,
        hint: usize,
        precision: KvPrecision,
        zero: T,
        one: T,
    ) -> (cache: Self)
        requires
            cfg.max_seq_len >= 1,
            tails_fit(cfg),
            forall|li: usize|
                li < cfg.num_layers ==> ring_fits(cfg, #[trigger] first_slots(cfg, hint as nat, li)),
        ensures
            cache.is_fresh(cfg, hint as nat, precision, zero, one),
    {
        let at_least: usize = if hint < 1 {
            1
        } else {
            hint
        };
        let start: usize = at_most(at_least, cfg.max_seq_len);
        let own = cfg.clone();
        let mut layers: Vec<LayerCache<T>> = Vec::new();
        let mut li: usize = 0;
        while li < cfg.num_layers
            invariant
                li <= cfg.num_layers,
                cfg.max_seq_len >= 1,
                tails_fit(cfg),
                own.same_as(cfg),
                start == smaller(larger(hint as nat, 1), cfg.max_seq_len as nat),
                forall|li: usize|
                    li < cfg.num_layers ==> ring_fits(
                        cfg,
                        #[trigger] first_slots(cfg, hint as nat, li),
                    ),
                layers@.len() == li,
                forall|l: int|
                    0 <= l < li ==> {
                        let layer = #[trigger] layers@[l];
                        let s = first_slots(cfg, hint as nat, l as usize);
                        let int8 = precision == KvPrecision::Int8;
                        &&& layer.wf(&own, precision)
                        &&& layer.slots == s
                        &&& layer.cap == layer_cap(cfg, l as usize)
                        &&& layer.k@ == filled(if int8 { 0 } else { s * cfg.k_width() }, zero)
                        &&& layer.v@ == filled(if int8 { 0 } else { s * cfg.v_width() }, zero)
                        &&& layer.kq@ == filled(if int8 { s * cfg.k_width() } else { 0 }, 0i8)
                        &&& layer.vq@ == filled(if int8 { s * cfg.v_width() } else { 0 }, 0i8)
                        &&& layer.k_scale@ == filled(
                            if int8 { s * cfg.num_kv_heads as nat } else { 0 },
                            one,
                        )
                        &&& layer.v_scale@ == filled(
                            if int8 { s * cfg.num_kv_heads as nat } else { 0 },
                            one,
                        )
                        &&& forall|which: Qkv| #[trigger]
                            layer.tail(which) == filled(
                                conv_reach(cfg) * projection_width(cfg, which),
                                zero,
                            )
                    },
            decreases cfg.num_layers - li,
        {
            let cap: usize = match cfg.attention_span(li) {
                Some(w) => at_most(w, cfg.max_seq_len),
                None => cfg.max_seq_len,
            };
            let slots: usize = at_most(start, cap);
            assert(slots == first_slots(cfg, hint as nat, li));
            let layer = LayerCache::blank(cfg, slots, cap, precision, zero, one);
            layers.push(layer);
            li = li + 1;
        }
        let reach: usize = if cfg.engram.conv_taps == 0 {
            0
        } else {
            (cfg.engram.conv_taps - 1) * cfg.engram.conv_dilation
        };
        let mut engram_tail: Vec<Vec<T>> = Vec::new();
        let mut s: usize = 0;
        while s < cfg.engram.sites.len()
            invariant
                s <= cfg.engram.sites@.len(),
                reach == engram_reach(cfg),
                tails_fit(cfg),
                engram_tail@.len() == s,
                forall|i: int|
                    0 <= i < s ==> (#[trigger] engram_tail@[i])@ == filled(
                        engram_reach(cfg) * cfg.d_model as nat,
                        zero,
                    ),
            decreases cfg.engram.sites.len() - s,
        {
            engram_tail.push(repeat(reach * cfg.d_model, zero));
            s = s + 1;
        }
        let tokens: Vec<u32> = Vec::new();
        V3Cache { cfg: own, precision, zero, one, layers, tokens, engram_tail, pos: 0 }
    }
}

impl<T: Copy> LayerCache<T> {
    /// Make `pos` addressable, up to the cap.
    ///
    /// A local layer stops at its window and then wraps; a global layer keeps
    /// growing. Doubling keeps the amortised cost linear without reserving the
    /// maximum up front.
    fn ensure(&mut self, cfg: &V3Config, precision: KvPrecision, pos: usize, zero: T, one: T)
        requires
            old(self).wf(cfg, precision),
            tails_fit(cfg),
            pos < usize::MAX,
            ring_fits(
                cfg,
                grown_slots(old(self).slots as nat, old(self).cap as nat, pos as nat),
            ),
        ensures
            final(self).wf(cfg, precision),
            final(self).cap == old(self).cap,
            final(self).slots == grown_slots(
                old(self).slots as nat,
                old(self).cap as nat,
                pos as nat,
            ),
            ({
                let s = final(self).slots as nat;
                let f32s = precision == KvPrecision::F32;
                &&& final(self).k@ == extended(
                    old(self).k@,
                    if f32s { s * cfg.k_width() } else { 0 },
                    zero,
                )
                &&& final(self).v@ == extended(
                    old(self).v@,
                    if f32s { s * cfg.v_width() } else { 0 },
                    zero,
                )
                &&& final(self).kq@ == extended(
                    old(self).kq@,
                    if f32s { 0 } else { s * cfg.k_width() },
                    0i8,
                )
                &&& final(self).vq@ == extended(
                    old(self).vq@,
                    if f32s { 0 } else { s * cfg.v_width() },
                    0i8,
                )
                &&& final(self).k_scale@ == extended(
                    old(self).k_scale@,
                    if f32s { 0 } else { s * cfg.num_kv_heads as nat },
                    one,
                )
                &&& final(self).v_scale@ == extended(
                    old(self).v_scale@,
                    if f32s { 0 } else { s * cfg.num_kv_heads as nat },
                    one,
                )
            }),
            final(self).q_tail == old(self).q_tail,
            final(self).k_tail == old(self).k_tail,
            final(self).v_tail == old(self).v_tail,
    {
        if pos < self.slots || self.slots >= self.cap {
            return;
        }
        let doubled: usize = if self.slots <= usize::MAX / 2 {
            self.slots * 2
        } else {
            usize::MAX
        };
        let reach: usize = if doubled >= pos + 1 {
            doubled
        } else {
            pos + 1
        };
        let want: usize = at_most(reach, self.cap);
        assert(want == grown_slots(self.slots as nat, self.cap as nat, pos as nat));
        let (k_dim, v_dim) = (cfg.k_dim(), cfg.v_dim());
        proof {
            let a = self.slots as int;
            let b = want as int;
            let kw = cfg.k_width() as int;
            let vw = cfg.v_width() as int;
            let h = cfg.num_kv_heads as int;
            assert(a * kw <= b * kw && a * vw <= b * vw && a * h <= b * h) by (nonlinear_arith)
                requires
                    0 <= a <= b,
                    kw >= 0,
                    vw >= 0,
                    h >= 0,
            ;
        }
        match precision {
            KvPrecision::F32 => {
                extend(&mut self.k, want * k_dim, zero);
                extend(&mut self.v, want * v_dim, zero);
            },
            KvPrecision::Int8 => {
                extend(&mut self.kq, want * k_dim, 0i8);
                extend(&mut self.vq, want * v_dim, 0i8);
                extend(&mut self.k_scale, want * cfg.num_kv_heads, one);
                extend(&mut self.v_scale, want * cfg.num_kv_heads, one);
            },
        }
        self.slots = want;
    }
}

impl<T: Copy> V3Cache<T> {
    pub fn precision(&self) -> (p: KvPrecision)
        ensures
            p == self.mode(),
    {
        self.precision
    }

    /// The geometry the cache was made for.
    pub fn config(&self) -> (cfg: &V3Config)
        ensures
            *cfg == self.geometry(),
    {
        &self.cfg
    }

    /// What unwritten entries hold.
    pub fn blank_entry(&self) -> (zero: T)
        ensures
            zero == self.blank(),
    {
        self.zero
    }

    /// The widths and tails of a cache can be addressed, and its rings stay
    /// within their caps.
    pub proof fn a_cache_is_addressable(&self)
        requires
            self.wf(),
        ensures
            tails_fit(&self.geometry()),
            forall|li: int|
                0 <= li < self.geometry().num_layers ==> 1 <= #[trigger] self.ring(li) <= self.cap(
                    li,
                ),
    {
        assert forall|li: int| 0 <= li < self.geometry().num_layers implies 1
            <= #[trigger] self.ring(li) <= self.cap(li) by {
            assert(self.layers@[li].wf(&self.cfg, self.precision));
        }
    }

    /// A ring has a row for each of its slots, in the buffers of its precision
    /// and in no other.
    pub proof fn a_ring_has_its_length(&self, li: int)
        requires
            self.wf(),
            0 <= li < self.geometry().num_layers,
        ensures
            ({
                let slots = self.ring(li);
                let (kw, vw) = (self.geometry().k_width(), self.geometry().v_width());
                let heads = self.geometry().num_kv_heads as nat;
                match self.mode() {
                    KvPrecision::F32 => {
                        &&& self.keys(li).len() == slots * kw
                        &&& self.values(li).len() == slots * vw
                        &&& self.int_keys(li).len() == 0
                        &&& self.int_values(li).len() == 0
                        &&& self.key_scales(li).len() == 0
                        &&& self.value_scales(li).len() == 0
                    },
                    KvPrecision::Int8 => {
                        &&& self.keys(li).len() == 0
                        &&& self.values(li).len() == 0
                        &&& self.int_keys(li).len() == slots * kw
                        &&& self.int_values(li).len() == slots * vw
                        &&& self.key_scales(li).len() == slots * heads
                        &&& self.value_scales(li).len() == slots * heads
                    },
                }
            }),
    {
        assert(self.layers@[li].wf(&self.cfg, self.precision));
    }

    /// Positions written so far.
    pub fn len(&self) -> (n: usize)
        ensures
            n == self.position(),
    {
        self.pos
    }

    pub fn is_empty(&self) -> (empty: bool)
        ensures
            empty == (self.position() == 0),
    {
        self.pos == 0
    }

    /// Current write position.
    pub fn pos(&self) -> (n: usize)
        ensures
            n == self.position(),
    {
        self.pos
    }

    /// Token ids retained for the n-gram hash, oldest first.
    pub fn token_history(&self) -> (tokens: &[u32])
        ensures
            tokens@ == self.history(),
    {
        &self.tokens
    }

    /// Ring capacity for layer `li`.
    pub fn slots(&self, li: usize) -> (n: usize)
        requires
            self.wf(),
            li < self.geometry().num_layers,
        ensures
            n == self.ring(li as int),
            1 <= n <= self.cap(li as int),
    {
        assert(self.layers@[li as int].wf(&self.cfg, self.precision));
        self.layers[li].slots
    }

    /// Bytes currently held, so a caller on a constrained target can see what
    /// a session actually costs rather than guessing.
    pub fn bytes(&self) -> (total: usize)
        requires
            self.wf(),
            self.total_bytes() <= usize::MAX,
        ensures
            total == self.total_bytes(),
    {
        let mut total: usize = 0;
        let mut li: usize = 0;
        while li < self.layers.len()
            invariant
                self.wf(),
                self.total_bytes() <= usize::MAX,
                li <= self.layers@.len(),
                total == self.layer_bytes(li as nat),
            decreases self.layers.len() - li,
        {
            let l = &self.layers[li];
            proof {
                self.lemma_layer_bytes_grow(li as nat + 1, self.layers@.len());
            }
            total = total + ((l.k.len() + l.v.len() + l.k_scale.len() + l.v_scale.len()) * 4
                + l.kq.len() + l.vq.len() + (l.q_tail.len() + l.k_tail.len() + l.v_tail.len()) * 4);
            li = li + 1;
        }
        let mut s: usize = 0;
        while s < self.engram_tail.len()
            invariant
                self.wf(),
                self.total_bytes() <= usize::MAX,
                s <= self.engram_tail@.len(),
                total == self.layer_bytes(self.cfg.num_layers as nat) + self.engram_bytes(s as nat),
            decreases self.engram_tail.len() - s,
        {
            proof {
                self.lemma_engram_bytes_grow(s as nat + 1, self.engram_tail@.len());
            }
            total = total + self.engram_tail[s].len() * 4;
            s = s + 1;
        }
        total + self.tokens.len() * 4
    }

    proof fn lemma_layer_bytes_grow(&self, a: nat, b: nat)
        requires
            a <= b,
        ensures
            self.layer_bytes(a) <= self.layer_bytes(b),
        decreases b,
    {
        if a < b {
            self.lemma_layer_bytes_grow(a, (b - 1) as nat);
        }
    }

    proof fn lemma_engram_bytes_grow(&self, a: nat, b: nat)
        requires
            a <= b,
        ensures
            self.engram_bytes(a) <= self.engram_bytes(b),
        decreases b,
    {
        if a < b {
            self.lemma_engram_bytes_grow(a, (b - 1) as nat);
        }
    }

    /// Record a token, dropping history no longer reachable by any hash.
    pub fn push_token(&mut self, tok: u32)
        requires
            old(self).wf(),
        ensures
            final(self).wf(),
            final(self).history() == recent(
                old(self).history().push(tok),
                largest_order(old(self).geometry().engram.orders@),
            ),
            final(self).position() == old(self).position(),
            final(self).same_layers(old(self)),
    {
        let keep: usize = max_order(&self.cfg.engram.orders);
        self.tokens.push(tok);
        let mut kept: Vec<u32> = Vec::new();
        let start: usize = if self.tokens.len() > keep {
            self.tokens.len() - keep
        } else {
            0
        };
        let mut i: usize = start;
        while i < self.tokens.len()
            invariant
                start <= i <= self.tokens@.len(),
                kept@ == self.tokens@.subrange(start as int, i as int),
            decreases self.tokens.len() - i,
        {
            kept.push(self.tokens[i]);
            i = i + 1;
            assert(kept@ =~= self.tokens@.subrange(start as int, i as int));
        }
        assert(kept@ =~= recent(self.tokens@, keep as nat));
        self.tokens = kept;
    }

    /// Seed the token history the n-gram hash reads, oldest first.
    pub fn seed_tokens(&mut self, tokens: &[u32])
        requires
            old(self).wf(),
        ensures
            final(self).wf(),
            final(self).history() == recent(
                tokens@,
                largest_order(old(self).geometry().engram.orders@),
            ),
            final(self).position() == old(self).position(),
            final(self).same_layers(old(self)),
    {
        let keep: usize = max_order(&self.cfg.engram.orders);
        let start: usize = if tokens.len() > keep {
            tokens.len() - keep
        } else {
            0
        };
        let mut kept: Vec<u32> = Vec::new();
        let mut i: usize = start;
        while i < tokens.len()
            invariant
                start <= i <= tokens@.len(),
                kept@ == tokens@.subrange(start as int, i as int),
            decreases tokens.len() - i,
        {
            kept.push(tokens[i]);
            i = i + 1;
            assert(kept@ =~= tokens@.subrange(start as int, i as int));
        }
        assert(kept@ =~= recent(tokens@, keep as nat));
        self.tokens = kept;
    }

    /// Set the next write position after a batched prefill.
    pub fn set_pos(&mut self, pos: usize)
        requires
            old(self).wf(),
        ensures
            final(self).wf(),
            final(self).position() == pos,
            final(self).history() == old(self).history(),
            final(self).same_layers(old(self)),
    {
        self.pos = pos;
    }

    /// Advance to the next position. Call once per decoded token, after every
    /// layer has written its key and value.
    pub fn advance(&mut self)
        requires
            old(self).wf(),
            old(self).position() < usize::MAX,
        ensures
            final(self).wf(),
            final(self).position() == old(self).position() + 1,
            final(self).history() == old(self).history(),
            final(self).same_layers(old(self)),
    {
        self.pos = self.pos + 1;
    }

    /// The inclusive logical range layer `li` may attend to at `pos`.
    ///
    /// Clamped to the ring's capacity: a global layer past the context would
    /// otherwise ask for more history than it stores and read itself as its
    /// own past.
    pub fn span(&self, li: usize, pos: usize) -> (range: (usize, usize))
        requires
            self.wf(),
            li < self.geometry().num_layers,
            pos < usize::MAX,
        ensures
            range.1 == pos,
            range.0 == self.span_start(li, pos as nat),
            range.0 <= range.1,
            range.1 - range.0 < self.ring(li as int),
    {
        assert(self.layers@[li as int].wf(&self.cfg, self.precision));
        let slots: usize = self.layers[li].slots;
        let lo: usize = match self.cfg.attention_span(li) {
            Some(w) => if pos + 1 > w {
                pos + 1 - w
            } else {
                0
            },
            None => 0,
        };
        let held: usize = if pos + 1 >= slots {
            pos + 1 - slots
        } else {
            0
        };
        if lo >= held {
            (lo, pos)
        } else {
            (held, pos)
        }
    }

    /// True once any layer without a window has run past what it can store, so
    /// attention is no longer seeing the history it should.
    pub fn is_saturated(&self) -> (yes: bool)
        requires
            self.wf(),
        ensures
            yes <==> exists|li: usize|
                li < self.geometry().num_layers && #[trigger] self.geometry().span_of(li) is None
                    && self.position() > self.ring(li as int),
    {
        let mut li: usize = 0;
        while li < self.cfg.num_layers
            invariant
                self.wf(),
                li <= self.cfg.num_layers,
                forall|l: usize|
                    l < li && #[trigger] self.cfg.span_of(l) is None ==> self.pos
                        <= self.layers@[l as int].slots,
            decreases self.cfg.num_layers - li,
        {
            let unbounded: bool = match self.cfg.attention_span(li) {
                Some(_) => false,
                None => true,
            };
            if unbounded && self.pos > self.layers[li].slots {
                assert(self.geometry().span_of(li) is None);
                return true;
            }
            li = li + 1;
        }
        false
    }

    /// Write this position's key and value into a full-width ring.
    pub fn write_kv(&mut self, li: usize, pos: usize, k: &[T], v: &[T])
        requires
            old(self).wf(),
            old(self).mode() == KvPrecision::F32,
            li < old(self).geometry().num_layers,
            pos < usize::MAX,
            k@.len() == old(self).geometry().k_width(),
            v@.len() == old(self).geometry().v_width(),
            ring_fits(
                &old(self).geometry(),
                grown_slots(old(self).ring(li as int), old(self).cap(li as int), pos as nat),
            ),
        ensures
            final(self).wf(),
            ({
                let l = li as int;
                let s = grown_slots(old(self).ring(l), old(self).cap(l), pos as nat);
                let kw = old(self).geometry().k_width();
                let vw = old(self).geometry().v_width();
                let z = old(self).blank();
                &&& final(self).ring(l) == s
                &&& final(self).cap(l) == old(self).cap(l)
                &&& final(self).keys(l) == set_row(
                    extended(old(self).keys(l), s * kw, z),
                    pos as int % s as int,
                    kw,
                    k@,
                )
                &&& final(self).values(l) == set_row(
                    extended(old(self).values(l), s * vw, z),
                    pos as int % s as int,
                    vw,
                    v@,
                )
                &&& final(self).int_keys(l) == old(self).int_keys(l)
                &&& final(self).int_values(l) == old(self).int_values(l)
                &&& final(self).key_scales(l) == old(self).key_scales(l)
                &&& final(self).value_scales(l) == old(self).value_scales(l)
            }),
            final(self).same_outside_ring(old(self), li as int),
    {
        let (zero, one) = (self.zero, self.one);
        let precision = self.precision;
        assert(self.layers@[li as int].wf(&self.cfg, self.precision));
        self.layers[li].ensure(&self.cfg, precision, pos, zero, one);
        let slots: usize = self.layers[li].slots;
        let slot: usize = pos % slots;
        proof {
            let a = slot as int + 1;
            let b = slots as int;
            let kw = self.cfg.k_width() as int;
            let vw = self.cfg.v_width() as int;
            assert(a * kw <= b * kw && a * vw <= b * vw) by (nonlinear_arith)
                requires
                    0 <= a <= b,
                    kw >= 0,
                    vw >= 0,
            ;
            lemma_extended_none(old(self).layers@[li as int].kq@, 0i8);
            lemma_extended_none(old(self).layers@[li as int].vq@, 0i8);
            lemma_extended_none(old(self).layers@[li as int].k_scale@, one);
            lemma_extended_none(old(self).layers@[li as int].v_scale@, one);
        }
        put_row(&mut self.layers[li].k, slot, k);
        put_row(&mut self.layers[li].v, slot, v);
    }

    /// Write this position's quantised key and value, with one scale per head
    /// vector, into an 8-bit ring.
    pub fn write_kv_int8(
        &mut self,
        li: usize,
        pos: usize,
        k: &[i8],
        k_scale: &[T],
        v: &[i8],
        v_scale: &[T],
    )
        requires
            old(self).wf(),
            old(self).mode() == KvPrecision::Int8,
            li < old(self).geometry().num_layers,
            pos < usize::MAX,
            k@.len() == old(self).geometry().k_width(),
            v@.len() == old(self).geometry().v_width(),
            k_scale@.len() == old(self).geometry().num_kv_heads,
            v_scale@.len() == old(self).geometry().num_kv_heads,
            ring_fits(
                &old(self).geometry(),
                grown_slots(old(self).ring(li as int), old(self).cap(li as int), pos as nat),
            ),
        ensures
            final(self).wf(),
            ({
                let l = li as int;
                let s = grown_slots(old(self).ring(l), old(self).cap(l), pos as nat);
                let at = pos as int % s as int;
                let kw = old(self).geometry().k_width();
                let vw = old(self).geometry().v_width();
                let h = old(self).geometry().num_kv_heads as nat;
                let u = old(self).unit();
                &&& final(self).ring(l) == s
                &&& final(self).cap(l) == old(self).cap(l)
                &&& final(self).int_keys(l) == set_row(
                    extended(old(self).int_keys(l), s * kw, 0i8),
                    at,
                    kw,
                    k@,
                )
                &&& final(self).int_values(l) == set_row(
                    extended(old(self).int_values(l), s * vw, 0i8),
                    at,
                    vw,
                    v@,
                )
                &&& final(self).key_scales(l) == set_row(
                    extended(old(self).key_scales(l), s * h, u),
                    at,
                    h,
                    k_scale@,
                )
                &&& final(self).value_scales(l) == set_row(
                    extended(old(self).value_scales(l), s * h, u),
                    at,
                    h,
                    v_scale@,
                )
                &&& final(self).keys(l) == old(self).keys(l)
                &&& final(self).values(l) == old(self).values(l)
            }),
            final(self).same_outside_ring(old(self), li as int),
    {
        let (zero, one) = (self.zero, self.one);
        let precision = self.precision;
        assert(self.layers@[li as int].wf(&self.cfg, self.precision));
        self.layers[li].ensure(&self.cfg, precision, pos, zero, one);
        let slots: usize = self.layers[li].slots;
        let slot: usize = pos % slots;
        proof {
            let a = slot as int + 1;
            let b = slots as int;
            let kw = self.cfg.k_width() as int;
            let vw = self.cfg.v_width() as int;
            let h = self.cfg.num_kv_heads as int;
            assert(a * kw <= b * kw && a * vw <= b * vw && a * h <= b * h) by (nonlinear_arith)
                requires
                    0 <= a <= b,
                    kw >= 0,
                    vw >= 0,
                    h >= 0,
            ;
            lemma_extended_none(old(self).layers@[li as int].k@, zero);
            lemma_extended_none(old(self).layers@[li as int].v@, zero);
        }
        put_row(&mut self.layers[li].kq, slot, k);
        put_row(&mut self.layers[li].vq, slot, v);
        put_row(&mut self.layers[li].k_scale, slot, k_scale);
        put_row(&mut self.layers[li].v_scale, slot, v_scale);
    }

    /// How layer `li` hands its keys and values to attention.
    pub fn kv(&self, li: usize) -> (store: KvStore<'_, T>)
        requires
            self.wf(),
            li < self.geometry().num_layers,
        ensures
            match store {
                KvStore::F32 { k, v } => {
                    &&& self.mode() == KvPrecision::F32
                    &&& k@ == self.keys(li as int)
                    &&& v@ == self.values(li as int)
                },
                KvStore::Int8 { k, k_scale, v, v_scale } => {
                    &&& self.mode() == KvPrecision::Int8
                    &&& k@ == self.int_keys(li as int)
                    &&& k_scale@ == self.key_scales(li as int)
                    &&& v@ == self.int_values(li as int)
                    &&& v_scale@ == self.value_scales(li as int)
                },
            },
    {
        let l = &self.layers[li];
        match self.precision {
            KvPrecision::F32 => KvStore::F32 { k: &l.k, v: &l.v },
            KvPrecision::Int8 => KvStore::Int8 {
                k: &l.kq,
                k_scale: &l.k_scale,
                v: &l.vq,
                v_scale: &l.v_scale,
            },
        }
    }

    /// What a query at `pos` reads of layer `li`.
    pub fn window(&self, li: usize, pos: usize) -> (ring: Ring<'_, T>)
        requires
            self.wf(),
            li < self.geometry().num_layers,
            pos < usize::MAX,
        ensures
            ring.wf(),
            ring.slots == self.ring(li as int),
            ring.hi == pos,
            ring.lo == self.span_start(li, pos as nat),
            match ring.kv {
                KvStore::F32 { k, v } => {
                    &&& self.mode() == KvPrecision::F32
                    &&& k@ == self.keys(li as int)
                    &&& v@ == self.values(li as int)
                },
                KvStore::Int8 { k, k_scale, v, v_scale } => {
                    &&& self.mode() == KvPrecision::Int8
                    &&& k@ == self.int_keys(li as int)
                    &&& k_scale@ == self.key_scales(li as int)
                    &&& v@ == self.int_values(li as int)
                    &&& v_scale@ == self.value_scales(li as int)
                },
            },
    {
        let (lo, hi) = self.span(li, pos);
        Ring { kv: self.kv(li), slots: self.slots(li), lo, hi }
    }
}

impl<T> V3Cache<T> {
    /// All but the retained raw vectors of one projection of layer `li` is the
    /// same.
    pub open spec fn same_outside_conv(&self, other: &V3Cache<T>, li: int, which: Qkv) -> bool {
        &&& self.geometry() == other.geometry()
        &&& self.mode() == other.mode()
        &&& self.blank() == other.blank()
        &&& self.unit() == other.unit()
        &&& self.position() == other.position()
        &&& self.history() == other.history()
        &&& forall|l: int|
            0 <= l < other.geometry().num_layers ==> #[trigger] self.same_ring(other, l)
        &&& forall|l: int, w: Qkv|
            0 <= l < other.geometry().num_layers && !(l == li && w == which)
                ==> #[trigger] self.conv(l, w) == other.conv(l, w)
        &&& forall|s: int|
            0 <= s < other.geometry().engram.sites@.len() ==> #[trigger] self.engram(s)
                == other.engram(s)
    }

    /// All but the retained values of one Engram site is the same.
    pub open spec fn same_outside_engram(&self, other: &V3Cache<T>, site: int) -> bool {
        &&& self.geometry() == other.geometry()
        &&& self.mode() == other.mode()
        &&& self.blank() == other.blank()
        &&& self.unit() == other.unit()
        &&& self.position() == other.position()
        &&& self.history() == other.history()
        &&& forall|l: int|
            0 <= l < other.geometry().num_layers ==> #[trigger] self.same_ring(other, l)
        &&& forall|l: int, w: Qkv|
            0 <= l < other.geometry().num_layers ==> #[trigger] self.conv(l, w) == other.conv(l, w)
        &&& forall|s: int|
            0 <= s < other.geometry().engram.sites@.len() && s != site ==> #[trigger] self.engram(s)
                == other.engram(s)
    }
}

/// Roll a tail forward by one raw vector.
fn roll<T: Copy>(tail: &mut Vec<T>, raw: &[T])
    requires
        old(tail)@.len() == 0 || raw@.len() <= old(tail)@.len(),
    ensures
        final(tail)@ == rolled(old(tail)@, raw@),
        final(tail)@.len() == old(tail)@.len(),
{
    let ghost start = tail@;
    let total: usize = tail.len();
    if total == 0 {
        return;
    }
    let dim: usize = raw.len();
    let kept: usize = total - dim;
    let mut i: usize = 0;
    while i < kept
        invariant
            i <= kept,
            kept + dim == total,
            tail@.len() == total,
            start.len() == total,
            forall|j: int| 0 <= j < i ==> tail@[j] == start[j + dim],
            forall|j: int| i <= j < total ==> tail@[j] == start[j],
        decreases kept - i,
    {
        let x = tail[i + dim];
        tail[i] = x;
        i = i + 1;
    }
    let mut c: usize = 0;
    while c < dim
        invariant
            c <= dim,
            dim == raw@.len(),
            kept + dim == total,
            tail@.len() == total,
            start.len() == total,
            forall|j: int| 0 <= j < kept ==> tail@[j] == start[j + dim],
            forall|j: int| 0 <= j < c ==> tail@[kept + j] == raw@[j],
        decreases dim - c,
    {
        tail[kept + c] = raw[c];
        c = c + 1;
    }
    proof {
        let want = rolled(start, raw@);
        assert forall|j: int| 0 <= j < total implies tail@[j] == want[j] by {
            if j >= kept {
                assert(tail@[kept + (j - kept)] == raw@[j - kept]);
            }
        }
        assert(tail@ =~= want);
    }
}

/// Replace a tail by one of the same length.
fn reseed<T: Copy>(tail: &mut Vec<T>, raw: &[T])
    requires
        old(tail)@.len() == raw@.len(),
    ensures
        final(tail)@ == raw@,
{
    let mut i: usize = 0;
    let total: usize = raw.len();
    while i < total
        invariant
            i <= total,
            total == raw@.len(),
            tail@.len() == total,
            forall|j: int| 0 <= j < i ==> tail@[j] == raw@[j],
        decreases total - i,
    {
        tail[i] = raw[i];
        i = i + 1;
    }
    assert(tail@ =~= raw@);
}

proof fn lemma_tail_holds_a_row(reach: nat, width: nat)
    ensures
        reach * width == 0 || width <= reach * width,
{
    if reach == 0 {
        assert(reach * width == 0) by (nonlinear_arith)
            requires
                reach == 0,
        ;
    } else {
        assert(width <= reach * width) by (nonlinear_arith)
            requires
                reach >= 1,
        ;
    }
}

impl<T: Copy> V3Cache<T> {
    /// The raw vectors the convolution of layer `li` looks back on, oldest
    /// first. Which of them a step reads, [`conv_reads`] says.
    pub fn conv_tail(&self, li: usize, which: Qkv) -> (tail: &[T])
        requires
            self.wf(),
            li < self.geometry().num_layers,
        ensures
            tail@ == self.conv(li as int, which),
            tail@.len() == conv_reach(&self.geometry()) * projection_width(
                &self.geometry(),
                which,
            ),
    {
        let l = &self.layers[li];
        assert(self.layers@[li as int].wf(&self.cfg, self.precision));
        match which {
            Qkv::Q => &l.q_tail,
            Qkv::K => &l.k_tail,
            Qkv::V => &l.v_tail,
        }
    }

    /// Roll one projection's tail forward by this position's raw vector.
    pub fn roll_conv(&mut self, li: usize, which: Qkv, raw: &[T])
        requires
            old(self).wf(),
            li < old(self).geometry().num_layers,
            raw@.len() == projection_width(&old(self).geometry(), which),
        ensures
            final(self).wf(),
            final(self).conv(li as int, which) == rolled(old(self).conv(li as int, which), raw@),
            final(self).same_outside_conv(old(self), li as int, which),
    {
        proof {
            assert(self.layers@[li as int].wf(&self.cfg, self.precision));
            lemma_tail_holds_a_row(conv_reach(&self.cfg), raw@.len());
        }
        match which {
            Qkv::Q => roll(&mut self.layers[li].q_tail, raw),
            Qkv::K => roll(&mut self.layers[li].k_tail, raw),
            Qkv::V => roll(&mut self.layers[li].v_tail, raw),
        }
    }

    /// Seed the conv tail for a layer after a batched prefill: the last raw
    /// vectors of this projection, oldest first.
    pub fn seed_conv_tail(&mut self, li: usize, which: Qkv, raw: &[T])
        requires
            old(self).wf(),
            li < old(self).geometry().num_layers,
            raw@.len() == conv_reach(&old(self).geometry()) * projection_width(
                &old(self).geometry(),
                which,
            ),
        ensures
            final(self).wf(),
            final(self).conv(li as int, which) == raw@,
            final(self).same_outside_conv(old(self), li as int, which),
    {
        assert(self.layers@[li as int].wf(&self.cfg, self.precision));
        match which {
            Qkv::Q => reseed(&mut self.layers[li].q_tail, raw),
            Qkv::K => reseed(&mut self.layers[li].k_tail, raw),
            Qkv::V => reseed(&mut self.layers[li].v_tail, raw),
        }
    }

    /// The values one Engram site's convolution looks back on, oldest first.
    pub fn engram_values(&self, site: usize) -> (tail: &[T])
        requires
            self.wf(),
            site < self.geometry().engram.sites@.len(),
        ensures
            tail@ == self.engram(site as int),
            tail@.len() == engram_reach(&self.geometry()) * self.geometry().d_model as nat,
    {
        assert(self.engram_tail@[site as int]@.len() == engram_reach(&self.cfg)
            * self.cfg.d_model as nat);
        &self.engram_tail[site]
    }

    /// Roll one site's tail forward by this position's value.
    pub fn roll_engram(&mut self, site: usize, raw: &[T])
        requires
            old(self).wf(),
            site < old(self).geometry().engram.sites@.len(),
            raw@.len() == old(self).geometry().d_model,
        ensures
            final(self).wf(),
            final(self).engram(site as int) == rolled(old(self).engram(site as int), raw@),
            final(self).same_outside_engram(old(self), site as int),
    {
        proof {
            assert(self.engram_tail@[site as int]@.len() == engram_reach(&self.cfg)
                * self.cfg.d_model as nat);
            lemma_tail_holds_a_row(engram_reach(&self.cfg), raw@.len());
        }
        roll(&mut self.engram_tail[site], raw);
    }

    /// Seed one site's Engram value tail, oldest first.
    pub fn seed_engram_tail(&mut self, site: usize, raw: &[T])
        requires
            old(self).wf(),
            site < old(self).geometry().engram.sites@.len(),
            raw@.len() == engram_reach(&old(self).geometry()) * old(self).geometry().d_model as nat,
        ensures
            final(self).wf(),
            final(self).engram(site as int) == raw@,
            final(self).same_outside_engram(old(self), site as int),
    {
        assert(self.engram_tail@[site as int]@.len() == engram_reach(&self.cfg)
            * self.cfg.d_model as nat);
        reseed(&mut self.engram_tail[site], raw);
    }
}

/// What a convolution of `n_taps` reads back at `pos`, besides the position
/// itself: tap `j` reads row `n_taps - 1 - j` of the tail, and taps that reach
/// before the start of the session read nothing.
pub fn conv_reads(n_taps: usize, pos: usize) -> (reads: Vec<(usize, usize)>)
    requires
        n_taps > 0,
    ensures
        reads@ == Seq::new(
            smaller((n_taps - 1) as nat, pos as nat),
            |i: int| ((i + 1) as usize, (n_taps - 1 - (i + 1)) as usize),
        ),
{
    let mut reads: Vec<(usize, usize)> = Vec::new();
    let last: usize = at_most(n_taps - 1, pos);
    let mut j: usize = 1;
    while j <= last
        invariant
            1 <= j <= last + 1,
            last == smaller((n_taps - 1) as nat, pos as nat),
            n_taps > 0,
            reads@ == Seq::new(
                (j - 1) as nat,
                |i: int| ((i + 1) as usize, (n_taps - 1 - (i + 1)) as usize),
            ),
        decreases last + 1 - j,
    {
        reads.push((j, n_taps - 1 - j));
        j = j + 1;
        assert(reads@ =~= Seq::new(
            (j - 1) as nat,
            |i: int| ((i + 1) as usize, (n_taps - 1 - (i + 1)) as usize),
        ));
    }
    reads
}

/// Taps below `upto` that the Engram convolution reads back at `pos`, with the
/// row of the tail each reads: tap `j` reaches `j * dilation` back, and is
/// gated off until `pos >= j * max_order`.
pub open spec fn engram_taps(
    upto: nat,
    n_taps: nat,
    dilation: nat,
    max_order: nat,
    pos: nat,
) -> Seq<(usize, usize)>
    decreases upto,
{
    if upto <= 1 {
        Seq::empty()
    } else {
        let before = engram_taps((upto - 1) as nat, n_taps, dilation, max_order, pos);
        let j = (upto - 1) as nat;
        if j * dilation <= pos && pos >= j * max_order {
            before.push((j as usize, ((n_taps - 1) * dilation - j * dilation) as usize))
        } else {
            before
        }
    }
}

/// What the Engram convolution reads back at `pos`, besides the position
/// itself.
pub fn engram_reads(n_taps: usize, dilation: usize, max_order: usize, pos: usize) -> (reads: Vec<
    (usize, usize),
>)
    requires
        n_taps > 0,
        (n_taps - 1) * dilation <= usize::MAX,
        (n_taps - 1) * max_order <= usize::MAX,
    ensures
        reads@ == engram_taps(
            n_taps as nat,
            n_taps as nat,
            dilation as nat,
            max_order as nat,
            pos as nat,
        ),
{
    let reach: usize = (n_taps - 1) * dilation;
    let mut reads: Vec<(usize, usize)> = Vec::new();
    let mut j: usize = 1;
    while j < n_taps
        invariant
            1 <= j <= n_taps,
            reach == (n_taps - 1) * dilation,
            (n_taps - 1) * max_order <= usize::MAX,
            reads@ == engram_taps(
                j as nat,
                n_taps as nat,
                dilation as nat,
                max_order as nat,
                pos as nat,
            ),
        decreases n_taps - j,
    {
        proof {
            let n = n_taps as int - 1;
            let d = dilation as int;
            let m = max_order as int;
            assert(0 <= j * d <= n * d && 0 <= j * m <= n * m) by (nonlinear_arith)
                requires
                    0 <= j <= n,
                    d >= 0,
                    m >= 0,
            ;
        }
        let back: usize = j * dilation;
        if back <= pos && pos >= j * max_order {
            reads.push((j, reach - back));
        }
        j = j + 1;
    }
    reads
}

/// A fresh tail is the tail of a sequence of no positions.
pub proof fn a_fresh_tail_is_the_tail_of_nothing<T>(dim: nat, n: nat, zero: T)
    ensures
        filled(n * dim, zero) == tail_rows(Seq::<T>::empty(), 0, dim, n, zero),
{
    assert(0 * dim == 0) by (nonlinear_arith);
    assert((n - 0) * dim == n * dim);
    assert(filled(n * dim, zero) =~= tail_rows(Seq::<T>::empty(), 0, dim, n, zero));
}

/// Rolling position by position leaves what seeding after a batched pass
/// leaves: the tail of the sequence so far.
pub proof fn rolling_follows_the_sequence<T>(
    buf: Seq<T>,
    seq: nat,
    dim: nat,
    n: nat,
    zero: T,
    raw: Seq<T>,
)
    requires
        buf.len() == seq * dim,
        raw.len() == dim,
    ensures
        rolled(tail_rows(buf, seq, dim, n, zero), raw) == tail_rows(
            buf + raw,
            seq + 1,
            dim,
            n,
            zero,
        ),
{
    let d = dim as int;
    let s = seq as int;
    let k = n as int;
    assert((s + 1) * d == s * d + d) by (nonlinear_arith);
    assert((s - k) * d == s * d - k * d) by (nonlinear_arith);
    assert((s + 1 - k) * d == s * d + d - k * d) by (nonlinear_arith);
    assert((k - s) * d == k * d - s * d) by (nonlinear_arith);
    assert((k - (s + 1)) * d == k * d - s * d - d) by (nonlinear_arith);
    assert(s * d >= 0 && k * d >= 0) by (nonlinear_arith)
        requires
            s >= 0,
            k >= 0,
            d >= 0,
    ;
    if k <= s {
        assert(k * d <= s * d) by (nonlinear_arith)
            requires
                k <= s,
                d >= 0,
        ;
    } else {
        assert(s * d + d <= k * d) by (nonlinear_arith)
            requires
                s + 1 <= k,
                d >= 0,
        ;
    }
    if n == 0 {
        assert(0 * d == 0) by (nonlinear_arith);
    } else {
        assert(d <= k * d) by (nonlinear_arith)
            requires
                k >= 1,
                d >= 0,
        ;
    }
    let old_tail = tail_rows(buf, seq, dim, n, zero);
    let new_tail = tail_rows(buf + raw, seq + 1, dim, n, zero);
    assert(old_tail.len() == k * d);
    assert(new_tail.len() == k * d);
    assert(rolled(old_tail, raw) =~= new_tail);
}

/// Tap `j` of the convolution reads the raw vector of `j` positions ago.
pub proof fn a_tap_reads_its_position<T>(
    buf: Seq<T>,
    seq: nat,
    dim: nat,
    n: nat,
    zero: T,
    j: nat,
)
    requires
        buf.len() == seq * dim,
        1 <= j <= n,
        j <= seq,
    ensures
        row(tail_rows(buf, seq, dim, n, zero), n - j, dim) == row(buf, seq - j, dim),
{
    let d = dim as int;
    let s = seq as int;
    let k = n as int;
    let b = j as int;
    assert((s - k) * d == s * d - k * d) by (nonlinear_arith);
    assert((k - s) * d == k * d - s * d) by (nonlinear_arith);
    assert((k - b) * d == k * d - b * d) by (nonlinear_arith);
    assert((k - b + 1) * d == k * d - b * d + d) by (nonlinear_arith);
    assert((s - b) * d == s * d - b * d) by (nonlinear_arith);
    assert((s - b + 1) * d == s * d - b * d + d) by (nonlinear_arith);
    assert(d <= b * d) by (nonlinear_arith)
        requires
            b >= 1,
            d >= 0,
    ;
    assert(b * d <= k * d && b * d <= s * d) by (nonlinear_arith)
        requires
            b <= k,
            b <= s,
            d >= 0,
    ;
    if k <= s {
        assert(k * d <= s * d) by (nonlinear_arith)
            requires
                k <= s,
                d >= 0,
        ;
    } else {
        assert(s * d <= k * d) by (nonlinear_arith)
            requires
                s <= k,
                d >= 0,
        ;
    }
    assert(row(tail_rows(buf, seq, dim, n, zero), n - j, dim) =~= row(buf, seq - j, dim));
}

/// Stepping through tokens retains what seeding with all of them retains.
pub proof fn pushing_follows_seeding(tokens: Seq<u32>, tok: u32, keep: nat)
    ensures
        recent(recent(tokens, keep).push(tok), keep) == recent(tokens.push(tok), keep),
{
    assert(recent(recent(tokens, keep).push(tok), keep) =~= recent(tokens.push(tok), keep));
}

/// A ring buffer of `slots` rows holds, of the rows `log` written to it in
/// order, the most recent `slots`; and it has kept them all while it is still
/// below its cap.
pub open spec fn remembers<E>(
    buf: Seq<E>,
    slots: nat,
    cap: nat,
    width: nat,
    log: Seq<Seq<E>>,
) -> bool {
    &&& log.len() <= slots || slots == cap
    &&& forall|p: int|
        0 <= p < log.len() && log.len() - p <= slots ==> row(buf, p % slots as int, width)
            == #[trigger] log[p]
}

/// Reading after writing: writing the next position of a session, growing or
/// wrapping as needed, keeps every position the ring still covers and adds the
/// new one.
pub proof fn a_ring_remembers_its_window<E>(
    buf: Seq<E>,
    slots: nat,
    cap: nat,
    width: nat,
    log: Seq<Seq<E>>,
    new: Seq<E>,
    fill: E,
)
    requires
        1 <= slots <= cap,
        buf.len() == slots * width,
        remembers(buf, slots, cap, width, log),
        new.len() == width,
    ensures
        ({
            let s = grown_slots(slots, cap, log.len());
            remembers(
                set_row(
                    extended(buf, s * width, fill),
                    log.len() as int % s as int,
                    width,
                    new,
                ),
                s,
                cap,
                width,
                log.push(new),
            )
        }),
{
    let c = log.len() as int;
    let s = grown_slots(slots, cap, log.len()) as int;
    let w = width as int;
    let s0 = slots as int;
    let wide = extended(buf, (s * w) as nat, fill);
    let at = c % s;
    let after = set_row(wide, at, width, new);
    assert(s0 * w <= s * w) by (nonlinear_arith)
        requires
            s0 <= s,
            w >= 0,
    ;
    assert(wide.len() == s * w);
    assert((at + 1) * w <= s * w) by (nonlinear_arith)
        requires
            0 <= at < s,
            w >= 0,
    ;
    assert forall|p: int| 0 <= p < c + 1 && c + 1 - p <= s implies row(after, p % s, width)
        == #[trigger] log.push(new)[p] by {
        let q = p % s;
        assert((q + 1) * w <= s * w) by (nonlinear_arith)
            requires
                0 <= q < s,
                w >= 0,
        ;
        set_row_changes_one_row(wide, at, q, width, new);
        if p < c {
            crate::v3::attention::ring_positions_do_not_collide(p, c, s);
            assert(row(buf, p % s0, width) == log[p]);
            let q0 = p % s0;
            if s != s0 {
                // Growing happens only while every position is still at the
                // slot of its own number.
                assert(c == s0);
                vstd::arithmetic::div_mod::lemma_small_mod(p as nat, s as nat);
                vstd::arithmetic::div_mod::lemma_small_mod(p as nat, s0 as nat);
            }
            assert(q == q0);
            assert((q + 1) * w <= s0 * w) by (nonlinear_arith)
                requires
                    0 <= q < s0,
                    w >= 0,
            ;
            assert(q * w >= 0) by (nonlinear_arith)
                requires
                    q >= 0,
                    w >= 0,
            ;
            assert((q + 1) * w == q * w + w) by (nonlinear_arith);
            assert(row(wide, q, width) =~= row(buf, q, width));
        }
    }
}

/// What a full-width session of positions `0..ks.len()` left in layer `li`.
pub open spec fn session_remembered<T>(
    cache: &V3Cache<T>,
    li: int,
    ks: Seq<Seq<T>>,
    vs: Seq<Seq<T>>,
) -> bool {
    &&& ks.len() == vs.len()
    &&& remembers(cache.keys(li), cache.ring(li), cache.cap(li), cache.geometry().k_width(), ks)
    &&& remembers(cache.values(li), cache.ring(li), cache.cap(li), cache.geometry().v_width(), vs)
}

/// A session that writes its positions in order can read back, at every
/// position of its window, the keys and values it wrote there. `before` and
/// `after` are the cache around [`V3Cache::write_kv`] at the next position.
pub proof fn writing_in_order_is_remembered<T>(
    before: &V3Cache<T>,
    after: &V3Cache<T>,
    li: int,
    ks: Seq<Seq<T>>,
    vs: Seq<Seq<T>>,
    k: Seq<T>,
    v: Seq<T>,
)
    requires
        before.wf(),
        before.mode() == KvPrecision::F32,
        0 <= li < before.geometry().num_layers,
        session_remembered(before, li, ks, vs),
        k.len() == before.geometry().k_width(),
        v.len() == before.geometry().v_width(),
        after.geometry() == before.geometry(),
        after.ring(li) == grown_slots(before.ring(li), before.cap(li), ks.len()),
        after.cap(li) == before.cap(li),
        after.keys(li) == set_row(
            extended(
                before.keys(li),
                after.ring(li) * before.geometry().k_width(),
                before.blank(),
            ),
            ks.len() as int % after.ring(li) as int,
            before.geometry().k_width(),
            k,
        ),
        after.values(li) == set_row(
            extended(
                before.values(li),
                after.ring(li) * before.geometry().v_width(),
                before.blank(),
            ),
            ks.len() as int % after.ring(li) as int,
            before.geometry().v_width(),
            v,
        ),
    ensures
        session_remembered(after, li, ks.push(k), vs.push(v)),
{
    assert(before.layers@[li].wf(&before.cfg, before.precision));
    a_ring_remembers_its_window(
        before.keys(li),
        before.ring(li),
        before.cap(li),
        before.geometry().k_width(),
        ks,
        k,
        before.blank(),
    );
    a_ring_remembers_its_window(
        before.values(li),
        before.ring(li),
        before.cap(li),
        before.geometry().v_width(),
        vs,
        v,
        before.blank(),
    );
}

/// What an 8-bit session of positions `0..ks.len()` left in layer `li`: the
/// codes of its keys and values, and their scales.
pub open spec fn int_session_remembered<T>(
    cache: &V3Cache<T>,
    li: int,
    ks: Seq<Seq<i8>>,
    k_scales: Seq<Seq<T>>,
    vs: Seq<Seq<i8>>,
    v_scales: Seq<Seq<T>>,
) -> bool {
    let (slots, cap) = (cache.ring(li), cache.cap(li));
    let (kw, vw) = (cache.geometry().k_width(), cache.geometry().v_width());
    let heads = cache.geometry().num_kv_heads as nat;
    &&& ks.len() == vs.len() == k_scales.len() == v_scales.len()
    &&& remembers(cache.int_keys(li), slots, cap, kw, ks)
    &&& remembers(cache.int_values(li), slots, cap, vw, vs)
    &&& remembers(cache.key_scales(li), slots, cap, heads, k_scales)
    &&& remembers(cache.value_scales(li), slots, cap, heads, v_scales)
}

/// The same of an 8-bit session, which reads back its codes and their scales.
/// `before` and `after` are the cache around [`V3Cache::write_kv_int8`] at the
/// next position.
pub proof fn writing_codes_in_order_is_remembered<T>(
    before: &V3Cache<T>,
    after: &V3Cache<T>,
    li: int,
    ks: Seq<Seq<i8>>,
    k_scales: Seq<Seq<T>>,
    vs: Seq<Seq<i8>>,
    v_scales: Seq<Seq<T>>,
    k: Seq<i8>,
    k_scale: Seq<T>,
    v: Seq<i8>,
    v_scale: Seq<T>,
)
    requires
        before.wf(),
        before.mode() == KvPrecision::Int8,
        0 <= li < before.geometry().num_layers,
        int_session_remembered(before, li, ks, k_scales, vs, v_scales),
        k.len() == before.geometry().k_width(),
        v.len() == before.geometry().v_width(),
        k_scale.len() == before.geometry().num_kv_heads,
        v_scale.len() == before.geometry().num_kv_heads,
        after.geometry() == before.geometry(),
        after.ring(li) == grown_slots(before.ring(li), before.cap(li), ks.len()),
        after.cap(li) == before.cap(li),
        ({
            let s = after.ring(li);
            let at = ks.len() as int % s as int;
            let (kw, vw) = (before.geometry().k_width(), before.geometry().v_width());
            let h = before.geometry().num_kv_heads as nat;
            let u = before.unit();
            &&& after.int_keys(li) == set_row(
                extended(before.int_keys(li), s * kw, 0i8),
                at,
                kw,
                k,
            )
            &&& after.int_values(li) == set_row(
                extended(before.int_values(li), s * vw, 0i8),
                at,
                vw,
                v,
            )
            &&& after.key_scales(li) == set_row(
                extended(before.key_scales(li), s * h, u),
                at,
                h,
                k_scale,
            )
            &&& after.value_scales(li) == set_row(
                extended(before.value_scales(li), s * h, u),
                at,
                h,
                v_scale,
            )
        }),
    ensures
        int_session_remembered(
            after,
            li,
            ks.push(k),
            k_scales.push(k_scale),
            vs.push(v),
            v_scales.push(v_scale),
        ),
{
    assert(before.layers@[li].wf(&before.cfg, before.precision));
    let (s, c) = (before.ring(li), before.cap(li));
    let (kw, vw) = (before.geometry().k_width(), before.geometry().v_width());
    let h = before.geometry().num_kv_heads as nat;
    let u = before.unit();
    a_ring_remembers_its_window(before.int_keys(li), s, c, kw, ks, k, 0i8);
    a_ring_remembers_its_window(before.int_values(li), s, c, vw, vs, v, 0i8);
    a_ring_remembers_its_window(before.key_scales(li), s, c, h, k_scales, k_scale, u);
    a_ring_remembers_its_window(before.value_scales(li), s, c, h, v_scales, v_scale, u);
}

/// A fresh cache has remembered the session of no positions.
pub proof fn a_fresh_cache_remembers_nothing<T>(
    cache: &V3Cache<T>,
    cfg: &V3Config,
    hint: nat,
    zero: T,
    one: T,
    li: int,
)
    requires
        cache.is_fresh(cfg, hint, KvPrecision::F32, zero, one) || cache.is_fresh(
            cfg,
            hint,
            KvPrecision::Int8,
            zero,
            one,
        ),
        0 <= li < cfg.num_layers,
    ensures
        session_remembered(cache, li, Seq::empty(), Seq::empty()),
        int_session_remembered(
            cache,
            li,
            Seq::empty(),
            Seq::empty(),
            Seq::empty(),
            Seq::empty(),
        ),
{
}

/// Whatever position of its span a query looks up, it finds the key and the
/// value that were written there. `lo` is the span's start at the session's
/// last position.
pub proof fn a_query_reads_what_was_written<T>(
    cache: &V3Cache<T>,
    li: int,
    ks: Seq<Seq<T>>,
    vs: Seq<Seq<T>>,
    lo: int,
    p: int,
)
    requires
        session_remembered(cache, li, ks, vs),
        0 <= lo <= p < ks.len(),
        ks.len() - 1 - lo < cache.ring(li),
    ensures
        row(cache.keys(li), p % cache.ring(li) as int, cache.geometry().k_width()) == ks[p],
        row(cache.values(li), p % cache.ring(li) as int, cache.geometry().v_width()) == vs[p],
{
}

/// A decode step attends over exactly what a pass over the whole sequence
/// attends over at that position: its window into the ring starts where the
/// sequence's does, and the slots it reads hold, oldest first, the rows of
/// those positions. `buf` is any of the layer's buffers, and `log` the rows
/// that were written to it, up to the query's own.
pub proof fn a_step_attends_like_the_sequence<T, E>(
    cache: &V3Cache<T>,
    li: usize,
    buf: Seq<E>,
    width: nat,
    log: Seq<Seq<E>>,
)
    requires
        cache.wf(),
        li < cache.geometry().num_layers,
        remembers(buf, cache.ring(li as int), cache.cap(li as int), width, log),
        1 <= log.len() <= cache.geometry().max_seq_len,
    ensures
        ({
            let pos = log.len() - 1;
            let lo = first_visible(pos, cache.geometry().span_of(li));
            let at = slots_read(lo, pos, cache.ring(li as int) as int);
            &&& cache.span_start(li, pos as nat) == lo
            &&& 0 <= lo <= pos
            &&& at.len() == pos - lo + 1
            &&& forall|i: int|
                0 <= i < at.len() ==> row(buf, #[trigger] at[i] as int, width) == log[lo + i]
        }),
{
    assert(cache.layers@[li as int].wf(&cache.cfg, cache.precision));
    let pos = log.len() - 1;
    let lo = first_visible(pos, cache.geometry().span_of(li));
    let ring = cache.ring(li as int);
    let at = slots_read(lo, pos, ring as int);
    assert forall|i: int| 0 <= i < at.len() implies row(buf, #[trigger] at[i] as int, width)
        == log[lo + i] by {
        let p = lo + i;
        vstd::arithmetic::div_mod::lemma_mod_bound(p, ring as int);
        assert(at[i] == p % ring as int);
        assert(log[p] == row(buf, p % ring as int, width));
    }
}

impl V3Config {
    /// Bytes of one position of one layer. An 8-bit entry costs one byte, and
    /// every stored head vector carries a four-byte scale, for keys and for
    /// values.
    pub open spec fn position_bytes(&self, precision: KvPrecision) -> nat {
        match precision {
            KvPrecision::F32 => self.kv_per_position() * 4,
            KvPrecision::Int8 => self.kv_per_position() + self.num_kv_heads as nat * 8,
        }
    }

    /// Bytes of the key/value rings for a session of `seq_len` positions.
    pub open spec fn ring_cost(&self, seq_len: nat, precision: KvPrecision) -> nat {
        self.total_positions(self.num_layers as nat, seq_len) * self.position_bytes(precision)
    }

    fn position_bytes_checked(&self, precision: KvPrecision) -> (bytes: Option<usize>)
        ensures
            match bytes {
                Some(n) => n == self.position_bytes(precision),
                None => self.position_bytes(precision) > usize::MAX,
            },
    {
        let heads: usize = self.num_kv_heads;
        let ghost wide = self.qk_head_dim as nat + self.v_head_dim as nat;
        if heads == 0 {
            assert(0 * wide == 0) by (nonlinear_arith);
            return Some(0);
        }
        assert(heads as nat * wide >= wide) by (nonlinear_arith)
            requires
                heads >= 1,
                wide >= 0,
        ;
        match self.qk_head_dim.checked_add(self.v_head_dim) {
            None => None,
            Some(width) => match heads.checked_mul(width) {
                None => None,
                Some(per) => match precision {
                    KvPrecision::F32 => per.checked_mul(4),
                    KvPrecision::Int8 => match heads.checked_mul(8) {
                        None => None,
                        Some(scales) => per.checked_add(scales),
                    },
                },
            },
        }
    }

    /// Bytes of the key/value rings for a session of `seq_len` positions
    /// stored at `precision`; `None` where they cannot be addressed.
    pub fn kv_bytes_checked(&self, seq_len: usize, precision: KvPrecision) -> (total: Option<usize>)
        ensures
            match total {
                Some(n) => n == self.ring_cost(seq_len as nat, precision),
                None => self.ring_cost(seq_len as nat, precision) > usize::MAX,
            },
    {
        let ghost each_nat = self.position_bytes(precision);
        let ghost all = self.total_positions(self.num_layers as nat, seq_len as nat);
        let each: Option<usize> = self.position_bytes_checked(precision);
        match each {
            Some(e) => {
                if e == 0 {
                    assert(all * 0 == 0) by (nonlinear_arith);
                    return Some(0);
                }
            },
            None => {},
        }
        assert(each_nat >= 1);
        assert(all * each_nat >= all) by (nonlinear_arith)
            requires
                each_nat >= 1,
                all >= 0,
        ;
        let mut positions: usize = 0;
        let mut layer: usize = 0;
        while layer < self.num_layers
            invariant
                layer <= self.num_layers,
                all == self.total_positions(self.num_layers as nat, seq_len as nat),
                all * each_nat >= all,
                each_nat == self.position_bytes(precision),
                positions == self.total_positions(layer as nat, seq_len as nat),
            decreases self.num_layers - layer,
        {
            let slots: usize = match self.attention_span(layer) {
                Some(w) => at_most(seq_len, w),
                None => seq_len,
            };
            proof {
                assert(slots == self.kept_positions(layer, seq_len as nat));
                lemma_positions_grow(self, layer as nat + 1, self.num_layers as nat, seq_len as nat);
            }
            match positions.checked_add(slots) {
                Some(sum) => {
                    positions = sum;
                },
                None => {
                    return None;
                },
            }
            layer = layer + 1;
        }
        if positions == 0 {
            assert(0 * each_nat == 0) by (nonlinear_arith);
            return Some(0);
        }
        match each {
            Some(e) => positions.checked_mul(e),
            None => {
                assert(all * each_nat >= each_nat) by (nonlinear_arith)
                    requires
                        all >= 1,
                        each_nat >= 0,
                ;
                None
            },
        }
    }

    /// Bytes of the key/value rings for a session of `seq_len` positions
    /// stored at `precision`.
    pub fn kv_bytes_at(&self, seq_len: usize, precision: KvPrecision) -> (total: usize)
        requires
            self.qk_head_dim + self.v_head_dim <= usize::MAX,
            self.position_bytes(precision) <= usize::MAX,
            self.total_positions(self.num_layers as nat, seq_len as nat) <= usize::MAX,
            self.ring_cost(seq_len as nat, precision) <= usize::MAX,
        ensures
            total == self.ring_cost(seq_len as nat, precision),
    {
        let per_pos: usize = self.num_kv_heads * (self.qk_head_dim + self.v_head_dim);
        let each: usize = match precision {
            KvPrecision::F32 => per_pos * 4,
            KvPrecision::Int8 => per_pos + self.num_kv_heads * 8,
        };
        let mut positions: usize = 0;
        let mut layer: usize = 0;
        while layer < self.num_layers
            invariant
                layer <= self.num_layers,
                self.total_positions(self.num_layers as nat, seq_len as nat) <= usize::MAX,
                positions == self.total_positions(layer as nat, seq_len as nat),
            decreases self.num_layers - layer,
        {
            let slots: usize = match self.attention_span(layer) {
                Some(w) => at_most(seq_len, w),
                None => seq_len,
            };
            proof {
                assert(slots == self.kept_positions(layer, seq_len as nat));
                lemma_positions_grow(self, layer as nat + 1, self.num_layers as nat, seq_len as nat);
            }
            positions = positions + slots;
            layer = layer + 1;
        }
        positions * each
    }
}

proof fn lemma_positions_grow(c: &V3Config, a: nat, b: nat, seq_len: nat)
    requires
        a <= b,
    ensures
        c.total_positions(a, seq_len) <= c.total_positions(b, seq_len),
    decreases b,
{
    if a < b {
        lemma_positions_grow(c, a, (b - 1) as nat, seq_len);
    }
}

/// The estimate a caller sizes a budget by never exceeds what a cache for that
/// session holds.
pub proof fn the_estimate_never_exceeds_the_cache<T>(
    cache: &V3Cache<T>,
    cfg: &V3Config,
    hint: nat,
    precision: KvPrecision,
    zero: T,
    one: T,
)
    requires
        1 <= hint <= cfg.max_seq_len,
        cache.is_fresh(cfg, hint, precision, zero, one),
    ensures
        cfg.ring_cost(hint, precision) <= cache.total_bytes(),
{
    lemma_ring_bytes(cache, cfg, cfg.num_layers as nat, hint, precision, zero, one);
}

proof fn lemma_ring_bytes<T>(
    cache: &V3Cache<T>,
    cfg: &V3Config,
    n: nat,
    hint: nat,
    precision: KvPrecision,
    zero: T,
    one: T,
)
    requires
        1 <= hint <= cfg.max_seq_len,
        cache.is_fresh(cfg, hint, precision, zero, one),
        n <= cfg.num_layers,
    ensures
        cfg.total_positions(n, hint) * (match precision {
            KvPrecision::F32 => cfg.kv_per_position() * 4,
            KvPrecision::Int8 => cfg.kv_per_position() + cfg.num_kv_heads as nat * 8,
        }) <= cache.layer_bytes(n),
    decreases n,
{
    let each = match precision {
        KvPrecision::F32 => cfg.kv_per_position() * 4,
        KvPrecision::Int8 => cfg.kv_per_position() + cfg.num_kv_heads as nat * 8,
    } as int;
    if n > 0 {
        let m = (n - 1) as nat;
        lemma_ring_bytes(cache, cfg, m, hint, precision, zero, one);
        let li = m as int;
        let s = first_slots(cfg, hint, m as usize) as int;
        assert(cache.ring(li) == s);
        assert(s == cfg.kept_positions(m as usize, hint));
        let h = cfg.num_kv_heads as int;
        let qk = cfg.qk_head_dim as int;
        let vh = cfg.v_head_dim as int;
        assert(s * (h * qk) + s * (h * vh) == s * (h * (qk + vh))) by (nonlinear_arith);
        assert(s * (h * (qk + vh) * 4) == s * (h * (qk + vh)) * 4) by (nonlinear_arith);
        assert(s * (h * (qk + vh) + h * 8) == s * (h * (qk + vh)) + s * h * 8) by (nonlinear_arith);
        let layer = cache.layers@[li];
        assert(layer.k@ == cache.keys(li));
        assert(layer.v@ == cache.values(li));
        assert(layer.kq@ == cache.int_keys(li));
        assert(layer.vq@ == cache.int_values(li));
        assert(layer.k_scale@ == cache.key_scales(li));
        assert(layer.v_scale@ == cache.value_scales(li));
        assert(s * each <= layer.bytes());
        let t = cfg.total_positions(m, hint) as int;
        assert((t + s) * each == t * each + s * each) by (nonlinear_arith);
    } else {
        assert(0 * each == 0) by (nonlinear_arith);
    }
}

proof fn lemma_extended_none<T>(s: Seq<T>, fill: T)
    ensures
        extended(s, 0, fill) == s,
{
    if s.len() == 0 {
        assert(extended(s, 0, fill) =~= s);
    }
}

/// A ring in single precision costs four bytes to a scalar. One in codes costs
/// a byte to a scalar, and a scale of four bytes for each head's key and for
/// its value.
pub proof fn a_ring_costs_its_scalars_and_scales(c: &V3Config, seq_len: nat)
    ensures
        c.ring_cost(seq_len, KvPrecision::F32) == c.kv_cost(seq_len, 4),
        c.ring_cost(seq_len, KvPrecision::Int8) == c.kv_cost(seq_len, 1) + c.total_positions(
            c.num_layers as nat,
            seq_len,
        ) * (4 * c.num_kv_heads + 4 * c.num_kv_heads),
{
    let n = c.total_positions(c.num_layers as nat, seq_len) as int;
    let p = c.kv_per_position() as int;
    let h = c.num_kv_heads as int;
    assert(n * (p * 4) == n * p * 4) by (nonlinear_arith);
    assert(n * (p + h * 8) == n * p * 1 + n * (4 * h + 4 * h)) by (nonlinear_arith);
}

/// No layer's ring is larger than the context or than its window, and one of
/// the two it is; a layer that sees everything keeps the whole context.
pub proof fn a_ring_is_capped_by_context_and_window(cfg: &V3Config, li: usize)
    ensures
        layer_cap(cfg, li) <= cfg.max_seq_len,
        cfg.global_layers@.contains(li) || cfg.sliding_window == 0 ==> layer_cap(cfg, li)
            == cfg.max_seq_len,
        !cfg.global_layers@.contains(li) && cfg.sliding_window > 0 ==> layer_cap(cfg, li)
            <= cfg.sliding_window && (layer_cap(cfg, li) == cfg.sliding_window || layer_cap(cfg, li)
            == cfg.max_seq_len),
{
}

/// A ring starts with what the session is expected to need, at least one
/// position, and never with more than its cap.
pub proof fn a_ring_starts_as_large_as_expected(cfg: &V3Config, hint: nat, li: usize)
    ensures
        first_slots(cfg, hint, li) <= layer_cap(cfg, li),
        0 < hint <= layer_cap(cfg, li) ==> first_slots(cfg, hint, li) == hint,
        hint >= layer_cap(cfg, li) && layer_cap(cfg, li) > 0 ==> first_slots(cfg, hint, li)
            == layer_cap(cfg, li),
        layer_cap(cfg, li) > 0 ==> first_slots(cfg, 0, li) == 1,
{
}

/// A ring that grows makes the position addressable or reaches its cap, at
/// least doubles unless it reaches its cap, and grows no further than either
/// asks. One that has room, or is at its cap, stays.
pub proof fn a_ring_grows_by_doubling(slots: nat, cap: nat, pos: nat)
    ensures
        pos < slots || cap <= slots ==> grown_slots(slots, cap, pos) == slots,
        slots <= pos && slots < cap ==> {
            let n = grown_slots(slots, cap, pos);
            &&& slots < n <= cap
            &&& pos < n || n == cap
            &&& 2 * slots <= n || n == cap
            &&& n <= 2 * slots || n <= pos + 1
        },
{
}

/// The convolutions look back on one position less than they have taps, each a
/// dilation further back.
pub proof fn a_tail_reaches_to_the_furthest_tap(cfg: &V3Config)
    ensures
        cfg.qkv_conv_taps > 0 ==> conv_reach(cfg) + 1 == cfg.qkv_conv_taps,
        cfg.qkv_conv_taps == 0 ==> conv_reach(cfg) == 0,
        cfg.engram.conv_taps > 0 ==> engram_reach(cfg) + cfg.engram.conv_dilation
            == cfg.engram.conv_taps * cfg.engram.conv_dilation,
        cfg.engram.conv_taps == 0 ==> engram_reach(cfg) == 0,
{
    let t = cfg.engram.conv_taps as int;
    let d = cfg.engram.conv_dilation as int;
    assert((t - 1) * d + d == t * d) by (nonlinear_arith);
}

} // verus!
