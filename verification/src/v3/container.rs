//! What a v3 container declares: header geometry and the tensor directory.

use vstd::prelude::*;
use crate::lists::holds;
use crate::v3::config::{V3Config, V3Engram};

verus! {

/// Packed 2- and 4-bit weights.
pub const DT_CQ: u8 = 0;

pub const DT_FP16: u8 = 1;

/// Opaque bytes; the embedded tokenizer.
pub const DT_RAW: u8 = 2;

pub const DT_FP32: u8 = 3;

/// One entry of the nameless tensor directory.
#[derive(Clone, Copy, Debug, PartialEq, Eq)]
pub struct Record {
    pub dtype: u8,
    pub ndim: u8,
    /// Axes beyond `ndim` are zero.
    pub shape: [usize; 4],
    /// Position of the payload, counted from the start of the file.
    pub offset: u64,
    pub nbytes: u64,
    pub group: usize,
    pub bits: u32,
}

/// The geometry a v3 header declares, field by field.
#[derive(Debug, PartialEq, Eq)]
pub struct CactV3Geometry {
    pub num_tensors: usize,
    pub kv_window: usize,
    pub kv_bits: u32,
    pub vocab_size: usize,
    pub out_vocab: usize,
    pub d_model: usize,
    pub num_heads: usize,
    pub num_kv_heads: usize,
    pub num_layers: usize,
    pub qk_head_dim: usize,
    pub v_head_dim: usize,
    pub max_seq_len: usize,
    pub hada_n: usize,
    pub mhc_lanes: usize,
    pub sliding_window: usize,
    /// Layers attending over the whole sequence, ascending.
    pub global: Vec<usize>,
    pub qkv_conv_taps: usize,
    pub engram_slots: usize,
    pub engram_sub_dim: usize,
    pub num_engram_tables: usize,
    pub engram_conv_taps: usize,
    pub engram_conv_dilation: usize,
    pub engram_seed_heads: usize,
    pub engram_orders: Vec<usize>,
    pub engram_sites: Vec<usize>,
    /// Rotary base, as the bits of an IEEE-754 single.
    pub rope_theta: u32,
}

impl CactV3Geometry {
    /// Layers attending over the whole sequence.
    pub fn global_layers(&self) -> (layers: Vec<usize>)
        ensures
            layers@ == self.global@,
    {
        let layers = self.global.clone();
        assert(layers@ =~= self.global@);
        layers
    }

    /// True when `layer` attends over the whole sequence.
    pub fn is_global(&self, layer: usize) -> (yes: bool)
        ensures
            yes == self.global@.contains(layer),
    {
        holds(&self.global, layer)
    }

    /// Rows of the query projection, `num_heads * qk_head_dim`.
    pub fn q_dim(&self) -> (w: usize)
        requires
            self.num_heads * self.qk_head_dim <= usize::MAX,
        ensures
            w == self.num_heads * self.qk_head_dim,
    {
        self.num_heads * self.qk_head_dim
    }
}

/// A file that is not a readable v3 container.
#[derive(Debug, Clone, PartialEq, Eq)]
pub enum CactError {
    /// The header or the directory runs past the end of the file.
    Truncated { need: usize, got: usize },
    /// The file does not start with the v3 tag.
    BadTag { tag: u32 },
    /// A declared list is longer than the header has room for.
    BadCount { what: &'static str, got: usize },
    /// A tensor's payload lies outside the file.
    OutOfBounds { index: usize },
    /// A tensor that is read as plain numbers holds something else.
    NotFloats { index: usize },
}

/// A container whose header is self-inconsistent.
#[derive(Debug, Clone, PartialEq, Eq)]
pub enum V3GeometryError {
    NoEngramOrders,
    TableCountNotDivisible { tables: usize, orders: usize },
    SubDimMismatch { declared: usize, derived: usize },
    HeadsNotDivisible { heads: usize, kv_heads: usize },
}

/// The width of a table row that follows from the table count. No tables leave
/// nothing to divide the model by, and give no width.
pub open spec fn derived_sub_dim(g: &CactV3Geometry) -> nat {
    if g.num_engram_tables == 0 {
        0
    } else {
        g.d_model as nat / g.num_engram_tables as nat
    }
}

/// The reason a header is refused, in the order the reasons are looked for.
pub open spec fn geometry_fault(g: &CactV3Geometry) -> Option<V3GeometryError> {
    let orders = g.engram_orders@.len();
    if orders == 0 {
        Some(V3GeometryError::NoEngramOrders)
    } else if g.num_engram_tables as nat % orders != 0 {
        Some(
            V3GeometryError::TableCountNotDivisible {
                tables: g.num_engram_tables,
                orders: orders as usize,
            },
        )
    } else if g.num_engram_tables == 0 || derived_sub_dim(g) != g.engram_sub_dim {
        Some(
            V3GeometryError::SubDimMismatch {
                declared: g.engram_sub_dim,
                derived: derived_sub_dim(g) as usize,
            },
        )
    } else if g.num_kv_heads == 0 || g.num_heads % g.num_kv_heads != 0 {
        Some(V3GeometryError::HeadsNotDivisible { heads: g.num_heads, kv_heads: g.num_kv_heads })
    } else {
        None
    }
}

/// `cfg` carries what `g` declares, and the head count per n-gram order that
/// follows from its table count.
pub open spec fn carries(cfg: &V3Config, g: &CactV3Geometry) -> bool {
    &&& cfg.vocab_size == g.vocab_size
    &&& cfg.out_vocab == g.out_vocab
    &&& cfg.d_model == g.d_model
    &&& cfg.num_heads == g.num_heads
    &&& cfg.num_kv_heads == g.num_kv_heads
    &&& cfg.num_layers == g.num_layers
    &&& cfg.qk_head_dim == g.qk_head_dim
    &&& cfg.v_head_dim == g.v_head_dim
    &&& cfg.max_seq_len == g.max_seq_len
    &&& cfg.hada_n == g.hada_n
    &&& cfg.mhc_lanes == g.mhc_lanes
    &&& cfg.rope_theta == g.rope_theta
    &&& cfg.sliding_window == g.sliding_window
    &&& cfg.global_layers@ == g.global@
    &&& cfg.qkv_conv_taps == g.qkv_conv_taps
    &&& cfg.engram.orders@ == g.engram_orders@
    &&& cfg.engram.heads == g.num_engram_tables as nat / g.engram_orders@.len()
    &&& cfg.engram.slots == g.engram_slots
    &&& cfg.engram.sub_dim == g.engram_sub_dim
    &&& cfg.engram.sites@ == g.engram_sites@
    &&& cfg.engram.conv_taps == g.engram_conv_taps
    &&& cfg.engram.conv_dilation == g.engram_conv_dilation
    &&& cfg.engram.seed_heads == g.engram_seed_heads
}

/// Derive the model geometry from what a v3 container declares.
///
/// Everything is read from the header. The one derived value is the Engram
/// head count, recovered by dividing the table count by the number of orders;
/// a header whose table count disagrees with its own row width, or that has
/// orders and no tables, is refused here rather than indexing the wrong hash
/// table later.
pub fn config_from_geometry(g: &CactV3Geometry) -> (r: Result<V3Config, V3GeometryError>)
    ensures
        match r {
            Ok(cfg) => geometry_fault(g) is None && carries(&cfg, g) && cfg.engram.table_count()
                == g.num_engram_tables,
            Err(e) => geometry_fault(g) == Some(e),
        },
{
    let orders = g.engram_orders.clone();
    assert(orders@ =~= g.engram_orders@);
    if orders.len() == 0 {
        return Err(V3GeometryError::NoEngramOrders);
    }
    if g.num_engram_tables % orders.len() != 0 {
        return Err(
            V3GeometryError::TableCountNotDivisible {
                tables: g.num_engram_tables,
                orders: orders.len(),
            },
        );
    }
    if g.num_engram_tables == 0 {
        return Err(
            V3GeometryError::SubDimMismatch { declared: g.engram_sub_dim, derived: 0 },
        );
    }
    let heads: usize = g.num_engram_tables / orders.len();
    proof {
        vstd::arithmetic::div_mod::lemma_fundamental_div_mod(
            g.num_engram_tables as int,
            orders@.len() as int,
        );
    }
    assert(orders@.len() * heads == g.num_engram_tables);
    let expect_sub_dim: usize = g.d_model / (orders.len() * heads);
    if expect_sub_dim != g.engram_sub_dim {
        return Err(
            V3GeometryError::SubDimMismatch {
                declared: g.engram_sub_dim,
                derived: expect_sub_dim,
            },
        );
    }
    if g.num_kv_heads == 0 || g.num_heads % g.num_kv_heads != 0 {
        return Err(
            V3GeometryError::HeadsNotDivisible { heads: g.num_heads, kv_heads: g.num_kv_heads },
        );
    }
    let sites = g.engram_sites.clone();
    assert(sites@ =~= g.engram_sites@);
    Ok(
        V3Config {
            vocab_size: g.vocab_size,
            out_vocab: g.out_vocab,
            d_model: g.d_model,
            num_heads: g.num_heads,
            num_kv_heads: g.num_kv_heads,
            num_layers: g.num_layers,
            qk_head_dim: g.qk_head_dim,
            v_head_dim: g.v_head_dim,
            max_seq_len: g.max_seq_len,
            hada_n: g.hada_n,
            mhc_lanes: g.mhc_lanes,
            rope_theta: g.rope_theta,
            sliding_window: g.sliding_window,
            global_layers: g.global_layers(),
            qkv_conv_taps: g.qkv_conv_taps,
            engram: V3Engram {
                orders,
                heads,
                slots: g.engram_slots,
                sub_dim: g.engram_sub_dim,
                sites,
                conv_taps: g.engram_conv_taps,
                conv_dilation: g.engram_conv_dilation,
                seed_heads: g.engram_seed_heads,
            },
        },
    )
}

/// A header is accepted exactly where its counts multiply out: every order has
/// as many tables as every other, the rows of all tables side by side fill the
/// model up to less than one number to a table, and every key/value head serves
/// as many heads. Of several reasons against it the first is told.
pub proof fn a_header_is_accepted_where_it_multiplies_out(g: &CactV3Geometry)
    ensures
        geometry_fault(g) is None <==> {
            &&& exists|heads: nat|
                heads > 0 && #[trigger] (heads * g.engram_orders@.len()) == g.num_engram_tables
                    && g.engram_orders@.len() > 0
            &&& g.engram_sub_dim * g.num_engram_tables <= g.d_model
            &&& g.d_model < (g.engram_sub_dim + 1) * g.num_engram_tables
            &&& exists|serves: nat|
                #[trigger] (serves * g.num_kv_heads) == g.num_heads && g.num_kv_heads > 0
        },
        geometry_fault(g) == Some(V3GeometryError::NoEngramOrders) <==> g.engram_orders@.len() == 0,
        geometry_fault(g) is Some && geometry_fault(g)->0 is TableCountNotDivisible <==> {
            &&& g.engram_orders@.len() > 0
            &&& forall|heads: nat|
                #[trigger] (heads * g.engram_orders@.len()) != g.num_engram_tables
        },
{
    let tables = g.num_engram_tables as int;
    let orders = g.engram_orders@.len() as int;
    let sub = g.engram_sub_dim as int;
    let d = g.d_model as int;
    let kv = g.num_kv_heads as int;
    let h = g.num_heads as int;
    if orders > 0 {
        lemma_divides(tables as nat, orders as nat);
    }
    if kv > 0 {
        lemma_divides(h as nat, kv as nat);
    }
    if tables > 0 {
        vstd::arithmetic::div_mod::lemma_fundamental_div_mod(d, tables);
        let q = d / tables;
        let r = d % tables;
        assert(q == sub <==> sub * tables <= d && d < (sub + 1) * tables) by (nonlinear_arith)
            requires
                d == tables * q + r,
                0 <= r < tables,
        ;
    } else {
        assert((sub + 1) * tables <= 0) by (nonlinear_arith)
            requires
                tables == 0,
        ;
    }
}

proof fn lemma_divides(n: nat, by: nat)
    requires
        by > 0,
    ensures
        n % by == 0 <==> exists|k: nat| #[trigger] (k * by) == n,
        n > 0 && n % by == 0 ==> exists|k: nat| k > 0 && #[trigger] (k * by) == n,
{
    vstd::arithmetic::div_mod::lemma_fundamental_div_mod(n as int, by as int);
    let q = (n / by) as nat;
    assert(q * by == by * q) by (nonlinear_arith);
    if n % by == 0 {
        assert(q * by == n);
        if n > 0 {
            assert(q > 0) by (nonlinear_arith)
                requires
                    q * by == n,
                    n > 0,
            ;
        }
    }
    if exists|k: nat| #[trigger] (k * by) == n {
        let k = choose|k: nat| #[trigger] (k * by) == n;
        vstd::arithmetic::div_mod::lemma_mod_multiples_basic(k as int, by as int);
    }
}

} // verus!
