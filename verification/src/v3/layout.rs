//! Where every tensor lives in a v3 container's nameless directory.
//!
//! The directory carries no names, so nothing but this ordering says which
//! slot is the query projection of layer 7. Every slot whose shape the geometry
//! determines is checked, so a layout drift fails at load.

use vstd::prelude::*;
use crate::v3::config::V3Config;
use crate::v3::container::{Record, DT_RAW};

verus! {

/// Directory indices for one v3 layer, in canon order.
#[derive(Debug, Clone, PartialEq, Eq)]
pub struct V3LayerIdx {
    pub norm_in: usize,
    pub q_proj: usize,
    pub k_proj: usize,
    pub v_proj: usize,
    /// Causal depthwise conv taps over Q, K and V. `None` when the model
    /// declares `qkv_conv_taps == 0`.
    pub qkv_taps: Option<[usize; 3]>,
    pub q_norm: usize,
    pub k_norm: usize,
    pub gate_proj: usize,
    pub out_proj: usize,
    pub post_norm: usize,
    pub attn_gate: usize,
    pub pre_hada: usize,
    /// HadamardMLP: d1, d2, b2, d3, d4, w1a, w1b, w2a, w2b, w3a, w3b,
    /// cond_v, cond_u, in that order.
    pub mlp: [usize; 13],
}

/// Directory indices for the lane-mixing parameters.
#[derive(Debug, Clone, PartialEq, Eq)]
pub struct V3MhcIdx {
    /// a_pre, a_post, a_res, b_pre, b_post, b_res.
    pub scalars: [usize; 6],
    /// phi_pre, phi_post, phi_res. `phi_res` carries `lanes^2` on its
    /// trailing axis where the others carry `lanes`.
    pub phi: [usize; 3],
}

/// Directory indices for one Engram site.
#[derive(Debug, Clone, PartialEq, Eq)]
pub struct V3EngramIdx {
    pub tables: usize,
    pub key_proj: usize,
    pub value_proj: usize,
    pub taps: usize,
}

/// The canon resolved to directory indices.
#[derive(Debug, Clone, PartialEq, Eq)]
pub struct V3Layout {
    pub embedding: usize,
    pub layers: Vec<V3LayerIdx>,
    pub mhc: V3MhcIdx,
    /// The two derived Hadamard permutations, stored as FP32.
    pub hada_perms: [usize; 2],
    pub engrams: Vec<V3EngramIdx>,
    pub final_norm: usize,
    /// The head manifest, present only when probe heads were exported.
    pub head_manifest: Option<usize>,
    /// Remaining head tensors, positional after the manifest.
    pub head_tensors: Vec<usize>,
    pub tokenizer: Option<usize>,
}

/// A container whose directory does not match its own header.
#[allow(inconsistent_fields)]
#[derive(Debug, Clone, PartialEq, Eq)]
pub enum V3LayoutError {
    /// The directory ran out before the canon did.
    TooFewTensors { need: usize, got: usize },
    /// A slot's shape contradicts the declared geometry.
    BadShape { index: usize, what: &'static str, want: [usize; 2], got: [usize; 2] },
}

/// Tensors one layer contributes: 24, and three more with conv taps.
pub open spec fn per_layer(taps: nat) -> nat {
    if taps > 0 {
        27
    } else {
        24
    }
}

/// First slot of layer `i`.
pub open spec fn layer_base(cfg: &V3Config, i: int) -> int {
    1 + i * per_layer(cfg.qkv_conv_taps as nat)
}

/// First slot after the layers: the lane-mixing scalars.
pub open spec fn mhc_base(cfg: &V3Config) -> int {
    layer_base(cfg, cfg.num_layers as int)
}

/// First slot of Engram site `i`.
pub open spec fn engram_base(cfg: &V3Config, i: int) -> int {
    mhc_base(cfg) + 11 + 4 * i
}

/// Slot of the final norm, the last tensor every container has.
pub open spec fn final_norm_slot(cfg: &V3Config) -> int {
    engram_base(cfg, cfg.engram.sites@.len() as int)
}

/// Tensors the canon needs before any head or tokenizer.
pub open spec fn canon_len(cfg: &V3Config) -> int {
    final_norm_slot(cfg) + 1
}

/// `l` names the slots from `base` on, in canon order.
pub open spec fn is_layer_at(l: &V3LayerIdx, base: int, taps: nat) -> bool {
    let t: int = if taps > 0 {
        3
    } else {
        0
    };
    &&& l.norm_in == base
    &&& l.q_proj == base + 1
    &&& l.k_proj == base + 2
    &&& l.v_proj == base + 3
    &&& match l.qkv_taps {
        Some(a) => taps > 0 && a[0] == base + 4 && a[1] == base + 5 && a[2] == base + 6,
        None => taps == 0,
    }
    &&& l.q_norm == base + t + 4
    &&& l.k_norm == base + t + 5
    &&& l.gate_proj == base + t + 6
    &&& l.out_proj == base + t + 7
    &&& l.post_norm == base + t + 8
    &&& l.attn_gate == base + t + 9
    &&& l.pre_hada == base + t + 10
    &&& forall|j: int| 0 <= j < 13 ==> #[trigger] l.mlp[j] == base + t + 11 + j
}

/// `e` names the four slots from `base` on.
pub open spec fn is_engram_at(e: &V3EngramIdx, base: int) -> bool {
    &&& e.tables == base
    &&& e.key_proj == base + 1
    &&& e.value_proj == base + 2
    &&& e.taps == base + 3
}

/// Where the tokenizer is: the first RAW record.
pub open spec fn is_tokenizer(records: Seq<Record>, at: Option<usize>) -> bool {
    match at {
        Some(i) => i < records.len() && records[i as int].dtype == DT_RAW && forall|j: int|
            0 <= j < i ==> #[trigger] records[j].dtype != DT_RAW,
        None => forall|j: int| 0 <= j < records.len() ==> #[trigger] records[j].dtype != DT_RAW,
    }
}

impl V3Layout {
    /// The slots follow the canon for `cfg` in a directory of `records`.
    pub open spec fn follows_canon(&self, cfg: &V3Config, records: Seq<Record>) -> bool {
        let head_end: int = match self.tokenizer {
            Some(t) => t as int,
            None => records.len() as int,
        };
        let after = canon_len(cfg);
        &&& self.embedding == 0
        &&& self.layers@.len() == cfg.num_layers
        &&& forall|i: int|
            0 <= i < self.layers@.len() ==> is_layer_at(
                &#[trigger] self.layers@[i],
                layer_base(cfg, i),
                cfg.qkv_conv_taps as nat,
            )
        &&& forall|j: int| 0 <= j < 6 ==> #[trigger] self.mhc.scalars[j] == mhc_base(cfg) + j
        &&& forall|j: int| 0 <= j < 3 ==> #[trigger] self.mhc.phi[j] == mhc_base(cfg) + 6 + j
        &&& self.hada_perms[0] == mhc_base(cfg) + 9
        &&& self.hada_perms[1] == mhc_base(cfg) + 10
        &&& self.engrams@.len() == cfg.engram.sites@.len()
        &&& forall|i: int|
            0 <= i < self.engrams@.len() ==> is_engram_at(
                &#[trigger] self.engrams@[i],
                engram_base(cfg, i),
            )
        &&& self.final_norm == final_norm_slot(cfg)
        &&& is_tokenizer(records, self.tokenizer)
        &&& match self.head_manifest {
            Some(m) => after < head_end && m == after,
            None => after >= head_end,
        }
        &&& self.head_tensors@ == Seq::new(
            (if after < head_end {
                head_end - after - 1
            } else {
                0
            }) as nat,
            |k: int| (after + 1 + k) as usize,
        )
    }
}

/// How many slots have a shape that the geometry determines.
pub open spec fn checks_len(cfg: &V3Config) -> int {
    1 + 5 * cfg.num_layers + 3 * cfg.engram.sites@.len()
}

/// The `k`-th shape the geometry determines: slot, name, rows and columns.
pub open spec fn shape_check(cfg: &V3Config, k: int) -> (int, Seq<char>, nat, nat) {
    let d = cfg.d_model as nat;
    let layers = cfg.num_layers as int;
    if k == 0 {
        (0, "embedding"@, cfg.vocab_size as nat, d)
    } else if k <= 5 * layers {
        let base = layer_base(cfg, (k - 1) / 5);
        let t: int = if cfg.qkv_conv_taps > 0 {
            3
        } else {
            0
        };
        let c = (k - 1) % 5;
        if c == 0 {
            (base + 1, "q_proj"@, cfg.q_width(), d)
        } else if c == 1 {
            (base + 2, "k_proj"@, cfg.k_width(), d)
        } else if c == 2 {
            (base + 3, "v_proj"@, cfg.v_width(), d)
        } else if c == 3 {
            (base + t + 6, "gate_proj"@, cfg.out_width(), d)
        } else {
            (base + t + 7, "out_proj"@, d, cfg.out_width())
        }
    } else {
        let base = engram_base(cfg, (k - 1 - 5 * layers) / 3);
        let c = (k - 1 - 5 * layers) % 3;
        if c == 0 {
            (
                base,
                "engram tables"@,
                cfg.engram.table_count() * cfg.engram.slots as nat,
                cfg.engram.sub_dim as nat,
            )
        } else if c == 1 {
            (base + 1, "engram key_proj"@, d, d)
        } else {
            (base + 2, "engram value_proj"@, d, d)
        }
    }
}

/// The `k`-th determined shape is what the directory declares.
pub open spec fn shape_ok(cfg: &V3Config, records: Seq<Record>, k: int) -> bool {
    let (index, what, rows, cols) = shape_check(cfg, k);
    records[index].shape[0] == rows && records[index].shape[1] == cols
}

/// `k` is the first determined shape that the directory contradicts.
pub open spec fn first_bad_shape(cfg: &V3Config, records: Seq<Record>, k: int) -> bool {
    &&& 0 <= k < checks_len(cfg)
    &&& !shape_ok(cfg, records, k)
    &&& forall|j: int| 0 <= j < k ==> #[trigger] shape_ok(cfg, records, j)
}

/// What the walk and the shape checks answer.
pub open spec fn layout_answer(
    cfg: &V3Config,
    records: Seq<Record>,
    r: Result<V3Layout, V3LayoutError>,
) -> bool {
    match r {
        Ok(l) => {
            &&& canon_len(cfg) <= records.len()
            &&& l.follows_canon(cfg, records)
            &&& forall|k: int| 0 <= k < checks_len(cfg) ==> #[trigger] shape_ok(cfg, records, k)
        },
        Err(V3LayoutError::TooFewTensors { need, got }) => {
            &&& records.len() < canon_len(cfg)
            &&& got == records.len()
            &&& need == records.len() + 1
        },
        Err(e) => {
            &&& canon_len(cfg) <= records.len()
            &&& exists|k: int| #[trigger]
                first_bad_shape(cfg, records, k) && is_shape_error(cfg, records, k, e)
        },
    }
}

/// `e` reports the `k`-th determined shape.
pub open spec fn is_shape_error(
    cfg: &V3Config,
    records: Seq<Record>,
    k: int,
    e: V3LayoutError,
) -> bool {
    let (slot, name, rows, cols) = shape_check(cfg, k);
    match e {
        V3LayoutError::BadShape { index, what, want, got } => {
            &&& index == slot
            &&& what@ == name
            &&& want[0] == rows
            &&& want[1] == cols
            &&& got[0] == records[slot].shape[0]
            &&& got[1] == records[slot].shape[1]
        },
        _ => false,
    }
}

/// The products that the shape checks form fit in a machine word.
pub open spec fn widths_fit(cfg: &V3Config) -> bool {
    &&& cfg.num_layers > 0 ==> cfg.q_width() <= usize::MAX && cfg.k_width() <= usize::MAX
        && cfg.v_width() <= usize::MAX && cfg.out_width() <= usize::MAX
    &&& cfg.engram.sites@.len() > 0 ==> cfg.engram.table_count() <= usize::MAX
        && cfg.engram.table_count() * cfg.engram.slots as nat <= usize::MAX
}

/// Whether the products that the shape checks form fit in a machine word.
pub fn check_widths(cfg: &V3Config) -> (fit: bool)
    ensures
        fit == widths_fit(cfg),
{
    if cfg.num_layers > 0 {
        if cfg.num_heads.checked_mul(cfg.qk_head_dim).is_none() || cfg.num_kv_heads.checked_mul(
            cfg.qk_head_dim,
        ).is_none() || cfg.num_kv_heads.checked_mul(cfg.v_head_dim).is_none()
            || cfg.num_heads.checked_mul(cfg.v_head_dim).is_none() {
            return false;
        }
    }
    if cfg.engram.sites.len() > 0 {
        match cfg.engram.orders.len().checked_mul(cfg.engram.heads) {
            Some(tables) => {
                if tables.checked_mul(cfg.engram.slots).is_none() {
                    return false;
                }
            },
            None => {
                return false;
            },
        }
    }
    true
}

/// Walks the canon, so an exhausted directory reports which slot ran out.
struct Cursor {
    i: usize,
    n: usize,
}

impl Cursor {
    /// Claim the next `count` slots and return the first of them.
    fn take(&mut self, count: usize) -> (r: Result<usize, V3LayoutError>)
        requires
            old(self).i <= old(self).n < usize::MAX,
        ensures
            final(self).n == old(self).n,
            match r {
                Ok(first) => {
                    &&& old(self).i + count <= old(self).n
                    &&& first == old(self).i
                    &&& final(self).i == old(self).i + count
                },
                Err(V3LayoutError::TooFewTensors { need, got }) => old(self).i + count > old(self).n
                    && got == old(self).n && need == old(self).n + 1,
                Err(_) => false,
            },
    {
        if self.n - self.i < count {
            return Err(V3LayoutError::TooFewTensors { need: self.n + 1, got: self.n });
        }
        let first: usize = self.i;
        self.i = self.i + count;
        Ok(first)
    }
}

/// The slots of one layer that starts at `base`.
fn layer_slots(base: usize, taps: usize) -> (l: V3LayerIdx)
    requires
        base + per_layer(taps as nat) <= usize::MAX,
    ensures
        is_layer_at(&l, base as int, taps as nat),
{
    let b: usize = if taps > 0 {
        base + 7
    } else {
        base + 4
    };
    V3LayerIdx {
        norm_in: base,
        q_proj: base + 1,
        k_proj: base + 2,
        v_proj: base + 3,
        qkv_taps: if taps > 0 {
            Some([base + 4, base + 5, base + 6])
        } else {
            None
        },
        q_norm: b,
        k_norm: b + 1,
        gate_proj: b + 2,
        out_proj: b + 3,
        post_norm: b + 4,
        attn_gate: b + 5,
        pre_hada: b + 6,
        mlp: [
            b + 7,
            b + 8,
            b + 9,
            b + 10,
            b + 11,
            b + 12,
            b + 13,
            b + 14,
            b + 15,
            b + 16,
            b + 17,
            b + 18,
            b + 19,
        ],
    }
}

/// Compare one slot's declared shape with the one the geometry asks for.
fn check_shape(
    records: &[Record],
    index: usize,
    what: &'static str,
    want: [usize; 2],
) -> (r: Result<(), V3LayoutError>)
    requires
        index < records@.len(),
    ensures
        match r {
            Ok(_) => records@[index as int].shape[0] == want[0] && records@[index as int].shape[1]
                == want[1],
            Err(V3LayoutError::BadShape { index: i, what: w, want: wt, got }) => {
                &&& i == index
                &&& w@ == what@
                &&& wt == want
                &&& got[0] == records@[index as int].shape[0]
                &&& got[1] == records@[index as int].shape[1]
                &&& (got[0] != want[0] || got[1] != want[1])
            },
            Err(_) => false,
        },
{
    let rows: usize = records[index].shape[0];
    let cols: usize = records[index].shape[1];
    if rows != want[0] || cols != want[1] {
        return Err(V3LayoutError::BadShape { index, what, want, got: [rows, cols] });
    }
    Ok(())
}

impl V3Layout {
    /// Walk the canon for `cfg`, validating shapes against `records`.
    pub fn derive(cfg: &V3Config, records: &[Record]) -> (r: Result<V3Layout, V3LayoutError>)
        requires
            widths_fit(cfg),
            records@.len() < usize::MAX,
        ensures
            layout_answer(cfg, records@, r),
    {
        let n: usize = records.len();
        let mut cur = Cursor { i: 0, n };
        let per: usize = if cfg.qkv_conv_taps > 0 {
            27
        } else {
            24
        };
        let ghost p = per as int;
        let ghost count = cfg.num_layers as int;
        proof {
            assert(count * p >= 0) by (nonlinear_arith)
                requires
                    count >= 0,
                    p >= 0,
            ;
        }
        let embedding: usize = match cur.take(1) {
            Ok(i) => i,
            Err(e) => return Err(e),
        };
        let mut layers: Vec<V3LayerIdx> = Vec::new();
        let mut li: usize = 0;
        assert(0 * p == 0);
        while li < cfg.num_layers
            invariant
                cur.n == n,
                cur.i <= n < usize::MAX,
                n == records@.len(),
                p == per,
                per == per_layer(cfg.qkv_conv_taps as nat),
                count == cfg.num_layers,
                li <= cfg.num_layers,
                layers@.len() == li,
                cur.i == layer_base(cfg, li as int),
                forall|i: int|
                    0 <= i < li ==> is_layer_at(
                        &#[trigger] layers@[i],
                        layer_base(cfg, i),
                        cfg.qkv_conv_taps as nat,
                    ),
            decreases cfg.num_layers - li,
        {
            proof {
                let l = li as int;
                assert((l + 1) * p == l * p + p) by (nonlinear_arith);
                assert((l + 1) * p <= count * p) by (nonlinear_arith)
                    requires
                        l + 1 <= count,
                        p >= 0,
                ;
            }
            let base: usize = match cur.take(per) {
                Ok(i) => i,
                Err(e) => return Err(e),
            };
            layers.push(layer_slots(base, cfg.qkv_conv_taps));
            li = li + 1;
        }
        let m: usize = match cur.take(11) {
            Ok(i) => i,
            Err(e) => return Err(e),
        };
        let scalars: [usize; 6] = [m, m + 1, m + 2, m + 3, m + 4, m + 5];
        let phi: [usize; 3] = [m + 6, m + 7, m + 8];
        let hada_perms: [usize; 2] = [m + 9, m + 10];
        let mut engrams: Vec<V3EngramIdx> = Vec::new();
        let mut ei: usize = 0;
        while ei < cfg.engram.sites.len()
            invariant
                cur.n == n,
                cur.i <= n < usize::MAX,
                n == records@.len(),
                ei <= cfg.engram.sites@.len(),
                engrams@.len() == ei,
                cur.i == engram_base(cfg, ei as int),
                forall|i: int|
                    0 <= i < ei ==> is_engram_at(&#[trigger] engrams@[i], engram_base(cfg, i)),
            decreases cfg.engram.sites.len() - ei,
        {
            let base: usize = match cur.take(4) {
                Ok(i) => i,
                Err(e) => return Err(e),
            };
            engrams.push(
                V3EngramIdx {
                    tables: base,
                    key_proj: base + 1,
                    value_proj: base + 2,
                    taps: base + 3,
                },
            );
            ei = ei + 1;
        }
        let final_norm: usize = match cur.take(1) {
            Ok(i) => i,
            Err(e) => return Err(e),
        };
        // The tokenizer is the single RAW record and rides at the end.
        let tokenizer: Option<usize> = raw_record(records);
        let head_end: usize = match tokenizer {
            Some(t) => t,
            None => n,
        };
        let after: usize = cur.i;
        let mut head_manifest: Option<usize> = None;
        let mut head_tensors: Vec<usize> = Vec::new();
        if after < head_end {
            head_manifest = Some(after);
            let mut h: usize = after + 1;
            while h < head_end
                invariant
                    after < h <= head_end,
                    head_tensors@ == Seq::new((h - after - 1) as nat, |k: int| (after + 1 + k) as usize),
                decreases head_end - h,
            {
                head_tensors.push(h);
                assert(head_tensors@ =~= Seq::new(
                    (h + 1 - after - 1) as nat,
                    |k: int| (after + 1 + k) as usize,
                ));
                h = h + 1;
            }
        }
        let layout = V3Layout {
            embedding,
            layers,
            mhc: V3MhcIdx { scalars, phi },
            hada_perms,
            engrams,
            final_norm,
            head_manifest,
            head_tensors,
            tokenizer,
        };
        assert(layout.follows_canon(cfg, records@)) by {
            let head_end_i: int = match layout.tokenizer {
                Some(t) => t as int,
                None => records@.len() as int,
            };
            assert(layout.head_tensors@ =~= Seq::new(
                (if after < head_end_i {
                    head_end_i - after - 1
                } else {
                    0
                }) as nat,
                |k: int| (after + 1 + k) as usize,
            ));
        }
        match layout.validate(cfg, records) {
            Ok(_) => Ok(layout),
            Err(e) => Err(e),
        }
    }

    /// Check the slots whose shapes the geometry fully determines. A correct
    /// tensor in the wrong slot is exactly what this catches.
    fn validate(&self, cfg: &V3Config, records: &[Record]) -> (r: Result<(), V3LayoutError>)
        requires
            widths_fit(cfg),
            canon_len(cfg) <= records@.len(),
            self.follows_canon(cfg, records@),
        ensures
            match r {
                Ok(_) => forall|k: int|
                    0 <= k < checks_len(cfg) ==> #[trigger] shape_ok(cfg, records@, k),
                Err(e) => exists|k: int| #[trigger]
                    first_bad_shape(cfg, records@, k) && is_shape_error(cfg, records@, k, e),
            },
    {
        let d: usize = cfg.d_model;
        proof {
            let count = cfg.num_layers as int;
            let p = per_layer(cfg.qkv_conv_taps as nat) as int;
            assert(count * p >= 0) by (nonlinear_arith)
                requires
                    count >= 0,
                    p >= 0,
            ;
        }
        match check_shape(records, self.embedding, "embedding", [cfg.vocab_size, d]) {
            Ok(_) => {},
            Err(e) => {
                assert(first_bad_shape(cfg, records@, 0));
                return Err(e);
            },
        }
        assert(shape_ok(cfg, records@, 0));
        let mut i: usize = 0;
        while i < self.layers.len()
            invariant
                widths_fit(cfg),
                canon_len(cfg) <= records@.len(),
                self.follows_canon(cfg, records@),
                d == cfg.d_model,
                i <= self.layers@.len(),
                forall|k: int| 0 <= k < 1 + 5 * i ==> #[trigger] shape_ok(cfg, records@, k),
            decreases self.layers.len() - i,
        {
            match self.validate_layer(cfg, records, i) {
                Ok(_) => {},
                Err(e) => return Err(e),
            }
            i = i + 1;
        }
        let mut j: usize = 0;
        while j < self.engrams.len()
            invariant
                widths_fit(cfg),
                canon_len(cfg) <= records@.len(),
                self.follows_canon(cfg, records@),
                d == cfg.d_model,
                j <= self.engrams@.len(),
                forall|k: int|
                    0 <= k < 1 + 5 * cfg.num_layers + 3 * j ==> #[trigger] shape_ok(
                        cfg,
                        records@,
                        k,
                    ),
            decreases self.engrams.len() - j,
        {
            let ghost k0 = 1 + 5 * cfg.num_layers + 3 * j;
            let e = &self.engrams[j];
            assert(is_engram_at(e, engram_base(cfg, j as int)));
            let rows: usize = cfg.engram.num_tables() * cfg.engram.slots;
            match check_shape(records, e.tables, "engram tables", [rows, cfg.engram.sub_dim]) {
                Ok(_) => {},
                Err(err) => {
                    assert(first_bad_shape(cfg, records@, k0));
                    return Err(err);
                },
            }
            assert(shape_ok(cfg, records@, k0));
            match check_shape(records, e.key_proj, "engram key_proj", [d, d]) {
                Ok(_) => {},
                Err(err) => {
                    assert(first_bad_shape(cfg, records@, k0 + 1));
                    return Err(err);
                },
            }
            assert(shape_ok(cfg, records@, k0 + 1));
            match check_shape(records, e.value_proj, "engram value_proj", [d, d]) {
                Ok(_) => {},
                Err(err) => {
                    assert(first_bad_shape(cfg, records@, k0 + 2));
                    return Err(err);
                },
            }
            assert(shape_ok(cfg, records@, k0 + 2));
            j = j + 1;
        }
        Ok(())
    }

    /// The five checks of layer `i`.
    fn validate_layer(&self, cfg: &V3Config, records: &[Record], i: usize) -> (r: Result<
        (),
        V3LayoutError,
    >)
        requires
            widths_fit(cfg),
            canon_len(cfg) <= records@.len(),
            self.follows_canon(cfg, records@),
            i < cfg.num_layers,
            forall|k: int| 0 <= k < 1 + 5 * i ==> #[trigger] shape_ok(cfg, records@, k),
        ensures
            match r {
                Ok(_) => forall|k: int|
                    0 <= k < 1 + 5 * (i + 1) ==> #[trigger] shape_ok(cfg, records@, k),
                Err(e) => exists|k: int| #[trigger]
                    first_bad_shape(cfg, records@, k) && is_shape_error(cfg, records@, k, e),
            },
    {
        let d: usize = cfg.d_model;
        let ghost k0 = 1 + 5 * i;
        let l = &self.layers[i];
        proof {
            assert(is_layer_at(l, layer_base(cfg, i as int), cfg.qkv_conv_taps as nat));
            let p = per_layer(cfg.qkv_conv_taps as nat) as int;
            let count = cfg.num_layers as int;
            let ii = i as int;
            assert((ii + 1) * p == ii * p + p) by (nonlinear_arith);
            assert((ii + 1) * p <= count * p) by (nonlinear_arith)
                requires
                    ii + 1 <= count,
                    p >= 0,
            ;
            assert(ii * p >= 0) by (nonlinear_arith)
                requires
                    ii >= 0,
                    p >= 0,
            ;
        }
        match check_shape(records, l.q_proj, "q_proj", [cfg.q_dim(), d]) {
            Ok(_) => {},
            Err(e) => {
                assert(first_bad_shape(cfg, records@, k0));
                return Err(e);
            },
        }
        assert(shape_ok(cfg, records@, k0));
        match check_shape(records, l.k_proj, "k_proj", [cfg.k_dim(), d]) {
            Ok(_) => {},
            Err(e) => {
                assert(first_bad_shape(cfg, records@, k0 + 1));
                return Err(e);
            },
        }
        assert(shape_ok(cfg, records@, k0 + 1));
        match check_shape(records, l.v_proj, "v_proj", [cfg.v_dim(), d]) {
            Ok(_) => {},
            Err(e) => {
                assert(first_bad_shape(cfg, records@, k0 + 2));
                return Err(e);
            },
        }
        assert(shape_ok(cfg, records@, k0 + 2));
        // Gating is elementwise over the attention output, not per head.
        match check_shape(records, l.gate_proj, "gate_proj", [cfg.attn_out_dim(), d]) {
            Ok(_) => {},
            Err(e) => {
                assert(first_bad_shape(cfg, records@, k0 + 3));
                return Err(e);
            },
        }
        assert(shape_ok(cfg, records@, k0 + 3));
        match check_shape(records, l.out_proj, "out_proj", [d, cfg.attn_out_dim()]) {
            Ok(_) => {},
            Err(e) => {
                assert(first_bad_shape(cfg, records@, k0 + 4));
                return Err(e);
            },
        }
        assert(shape_ok(cfg, records@, k0 + 4));
        Ok(())
    }
}

/// The first RAW record, if there is one.
fn raw_record(records: &[Record]) -> (at: Option<usize>)
    ensures
        is_tokenizer(records@, at),
{
    let mut i: usize = 0;
    while i < records.len()
        invariant
            i <= records@.len(),
            forall|j: int| 0 <= j < i ==> #[trigger] records@[j].dtype != DT_RAW,
        decreases records.len() - i,
    {
        if records[i].dtype == DT_RAW {
            return Some(i);
        }
        i = i + 1;
    }
    None
}

/// Conv taps add three slots to every layer, so everything behind them moves
/// by three per layer.
pub proof fn conv_taps_shift_the_canon(with: &V3Config, without: &V3Config, i: int)
    requires
        with.qkv_conv_taps > 0,
        without.qkv_conv_taps == 0,
        with.num_layers == without.num_layers,
        with.engram.sites@.len() == without.engram.sites@.len(),
    ensures
        layer_base(with, i) == layer_base(without, i) + 3 * i,
        final_norm_slot(with) == final_norm_slot(without) + 3 * with.num_layers,
{
    assert(i * 27 == i * 24 + 3 * i);
}

/// No slot serves two layers, and no layer slot serves the blocks after them.
pub proof fn layers_do_not_share_slots(cfg: &V3Config, i: int, j: int)
    requires
        0 <= i < j < cfg.num_layers,
    ensures
        layer_base(cfg, i) + per_layer(cfg.qkv_conv_taps as nat) <= layer_base(cfg, j),
        layer_base(cfg, j) + per_layer(cfg.qkv_conv_taps as nat) <= mhc_base(cfg),
{
    let p = per_layer(cfg.qkv_conv_taps as nat) as int;
    let n = cfg.num_layers as int;
    assert((i + 1) * p == i * p + p) by (nonlinear_arith);
    assert((j + 1) * p == j * p + p) by (nonlinear_arith);
    assert((i + 1) * p <= j * p) by (nonlinear_arith)
        requires
            i + 1 <= j,
            p >= 0,
    ;
    assert((j + 1) * p <= n * p) by (nonlinear_arith)
        requires
            j + 1 <= n,
            p >= 0,
    ;
}

/// The slots of a layer in the order in which the tensors stand.
pub open spec fn layer_walk(l: &V3LayerIdx) -> Seq<usize> {
    seq![l.norm_in, l.q_proj, l.k_proj, l.v_proj] + (match l.qkv_taps {
        Some(taps) => taps@,
        None => Seq::empty(),
    }) + seq![
        l.q_norm,
        l.k_norm,
        l.gate_proj,
        l.out_proj,
        l.post_norm,
        l.attn_gate,
        l.pre_hada,
    ] + l.mlp@
}

/// Numbers in a row from `from` on.
pub open spec fn in_a_row(list: Seq<usize>, from: int) -> bool {
    forall|i: int| 0 <= i < list.len() ==> #[trigger] list[i] == from + i
}

/// The canon, walked: the embedding stands first, then the layers, each of
/// twenty-four tensors or of twenty-seven with conv taps, then the six lane
/// scalars, the three lane matrices, the two permutations, the Engram sites of
/// four tensors each, and the final norm. Every part stands right behind the
/// one before it.
pub proof fn the_canon_stands_in_a_row(
    l: &V3Layout,
    cfg: &V3Config,
    records: Seq<Record>,
    i: int,
    site: int,
)
    requires
        l.follows_canon(cfg, records),
        0 <= i < cfg.num_layers,
        0 <= site < cfg.engram.sites@.len(),
    ensures
        ({
            let per: int = if cfg.qkv_conv_taps > 0 {
                27
            } else {
                24
            };
            let behind = 1 + cfg.num_layers * per;
            let e = l.engrams@[site];
            &&& l.embedding == 0
            &&& layer_walk(&l.layers@[i]).len() == per
            &&& in_a_row(layer_walk(&l.layers@[i]), 1 + i * per)
            &&& in_a_row(l.mhc.scalars@, behind)
            &&& in_a_row(l.mhc.phi@, behind + 6)
            &&& in_a_row(l.hada_perms@, behind + 9)
            &&& in_a_row(
                seq![e.tables, e.key_proj, e.value_proj, e.taps],
                behind + 11 + 4 * site,
            )
            &&& l.final_norm == behind + 11 + 4 * cfg.engram.sites@.len()
        }),
{
    let layer = &l.layers@[i];
    let per: int = if cfg.qkv_conv_taps > 0 {
        27
    } else {
        24
    };
    assert(is_layer_at(&l.layers@[i], layer_base(cfg, i), cfg.qkv_conv_taps as nat));
    assert(is_engram_at(&l.engrams@[site], engram_base(cfg, site)));
    let w = layer_walk(layer);
    assert forall|j: int| 0 <= j < w.len() implies #[trigger] w[j] == 1 + i * per + j by {
        if j >= per - 13 {
            assert(w[j] == layer.mlp@[j - (per - 13)]);
            assert(layer.mlp[j - (per - 13)] == layer.mlp@[j - (per - 13)]);
        }
    }
    assert forall|j: int| 0 <= j < 6 implies #[trigger] l.mhc.scalars@[j] == mhc_base(cfg) + j by {
        assert(l.mhc.scalars[j] == l.mhc.scalars@[j]);
    }
    assert forall|j: int| 0 <= j < 3 implies #[trigger] l.mhc.phi@[j] == mhc_base(cfg) + 6 + j by {
        assert(l.mhc.phi[j] == l.mhc.phi@[j]);
    }
    assert forall|j: int| 0 <= j < 2 implies #[trigger] l.hada_perms@[j] == mhc_base(cfg) + 9
        + j by {
        assert(l.hada_perms[j] == l.hada_perms@[j]);
    }
}

/// A directory of this shape at this slot.
pub open spec fn has_shape(records: Seq<Record>, slot: usize, rows: int, cols: int) -> bool {
    records[slot as int].shape[0] == rows && records[slot as int].shape[1] == cols
}

/// A directory that is accepted has, at the slots that the layout names, the
/// shapes that the geometry asks for.
pub proof fn an_accepted_directory_has_its_shapes(
    cfg: &V3Config,
    records: Seq<Record>,
    l: V3Layout,
    i: int,
    site: int,
)
    requires
        layout_answer(cfg, records, Ok(l)),
        0 <= i < cfg.num_layers,
        0 <= site < cfg.engram.sites@.len(),
    ensures
        ({
            let d = cfg.d_model as int;
            let at = l.layers@[i];
            let e = l.engrams@[site];
            let tables = cfg.engram.orders@.len() * cfg.engram.heads;
            &&& has_shape(records, l.embedding, cfg.vocab_size as int, d)
            &&& has_shape(records, at.q_proj, cfg.num_heads * cfg.qk_head_dim, d)
            &&& has_shape(records, at.k_proj, cfg.num_kv_heads * cfg.qk_head_dim, d)
            &&& has_shape(records, at.v_proj, cfg.num_kv_heads * cfg.v_head_dim, d)
            &&& has_shape(records, at.gate_proj, cfg.num_heads * cfg.v_head_dim, d)
            &&& has_shape(records, at.out_proj, d, cfg.num_heads * cfg.v_head_dim)
            &&& has_shape(
                records,
                e.tables,
                tables * cfg.engram.slots,
                cfg.engram.sub_dim as int,
            )
            &&& has_shape(records, e.key_proj, d, d)
            &&& has_shape(records, e.value_proj, d, d)
        }),
{
    let n = cfg.num_layers as int;
    let k = 1 + 5 * i;
    let m = 1 + 5 * n + 3 * site;
    assert(is_layer_at(&l.layers@[i], layer_base(cfg, i), cfg.qkv_conv_taps as nat));
    assert(is_engram_at(&l.engrams@[site], engram_base(cfg, site)));
    assert(shape_ok(cfg, records, 0));
    assert(shape_ok(cfg, records, k));
    assert(shape_ok(cfg, records, k + 1));
    assert(shape_ok(cfg, records, k + 2));
    assert(shape_ok(cfg, records, k + 3));
    assert(shape_ok(cfg, records, k + 4));
    assert(shape_ok(cfg, records, m));
    assert(shape_ok(cfg, records, m + 1));
    assert(shape_ok(cfg, records, m + 2));
}

/// Behind the final norm stand the head manifest and the tensors of the heads,
/// one after another, up to the tokenizer: the first raw record, or where there
/// is none the end of the directory.
pub proof fn the_heads_stand_before_the_tokenizer(
    l: &V3Layout,
    cfg: &V3Config,
    records: Seq<Record>,
    k: int,
)
    requires
        l.follows_canon(cfg, records),
        records.len() <= usize::MAX,
    ensures
        ({
            let end: int = match l.tokenizer {
                Some(t) => t as int,
                None => records.len() as int,
            };
            &&& l.tokenizer is Some ==> records[end].dtype == 2
            &&& 0 <= k < end ==> records[k].dtype != 2
            &&& l.final_norm + 1 < end ==> {
                &&& l.head_manifest == Some((l.final_norm + 1) as usize)
                &&& l.head_tensors@.len() == end - l.final_norm - 2
            }
            &&& l.final_norm + 1 >= end ==> l.head_manifest is None && l.head_tensors@.len() == 0
            &&& 0 <= k < l.head_tensors@.len() ==> l.head_tensors@[k] == l.final_norm + 2 + k
        }),
{
}

} // verus!
