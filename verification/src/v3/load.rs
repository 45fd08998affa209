//! Taking a model's numbers out of a container.
//!
//! Tensors of plain numbers are read here, as the bits of single-precision
//! numbers. Packed tensors are named by their directory slot, with the rows
//! that a rung keeps of them; unpacking them is a numeric kernel's work.

use vstd::prelude::*;
use crate::floats::whole_part;
use crate::v3::cact::{codes_of, indices_of, whole_parts, CactV3};
use crate::v3::config::V3Config;
use crate::v3::container::{
    carries,
    config_from_geometry,
    geometry_fault,
    CactError,
    CactV3Geometry,
    Record,
};
use crate::v3::heads::{
    head_dims,
    take_head,
    tensors_of_head,
    HeadDims,
    V3HeadIdx,
    HEAD_CONFIDENCE,
};
use crate::v3::kernels::HadaPerms;
use crate::v3::layout::{
    canon_len,
    checks_len,
    engram_base,
    final_norm_slot,
    is_engram_at,
    is_layer_at,
    layer_base,
    mhc_base,
    per_layer,
    shape_ok,
    widths_fit,
    V3LayerIdx,
    V3Layout,
};
use crate::v3::rows::{a_cut_keeps_each_element, rows_fit, rows_of, take_rows};
use crate::v3::slice::{loaded_blocks, plan_rung, RungPlan, V3LoadError};

verus! {

/// Every listed tensor holds plain numbers.
pub open spec fn all_readable(cact: &CactV3, slots: Seq<usize>) -> bool {
    forall|k: int| 0 <= k < slots.len() ==> #[trigger] cact.values_of(slots[k] as int) is Some
}

/// Slot `k` of the list is the first that does not hold plain numbers.
pub open spec fn first_unreadable(cact: &CactV3, slots: Seq<usize>, k: int) -> bool {
    &&& 0 <= k < slots.len()
    &&& cact.values_of(slots[k] as int) is None
    &&& forall|j: int| 0 <= j < k ==> #[trigger] cact.values_of(slots[j] as int) is Some
}

/// The lists are the values of the listed tensors.
pub open spec fn are_values(cact: &CactV3, slots: Seq<usize>, lists: Seq<Vec<u32>>) -> bool {
    &&& lists.len() == slots.len()
    &&& forall|k: int|
        0 <= k < slots.len() ==> cact.values_of(slots[k] as int) == Some(#[trigger] lists[k]@)
}

/// What stops the reading of a list: the first tensor without plain numbers.
pub open spec fn list_fault(cact: &CactV3, slots: Seq<usize>, e: V3LoadError) -> bool {
    exists|k: int| #[trigger]
        first_unreadable(cact, slots, k) && e == V3LoadError::Cact(
            CactError::NotFloats { index: slots[k] },
        )
}

/// Every listed slot is in the directory.
pub open spec fn in_directory(cact: &CactV3, slots: Seq<usize>) -> bool {
    forall|k: int| 0 <= k < slots.len() ==> #[trigger] slots[k] < cact.directory().len()
}

/// Read the listed tensors, in order.
fn read_all(cact: &CactV3, slots: &[usize]) -> (lists: Result<Vec<Vec<u32>>, V3LoadError>)
    requires
        cact.wf(),
        in_directory(cact, slots@),
    ensures
        match lists {
            Ok(lists) => are_values(cact, slots@, lists@),
            Err(e) => !all_readable(cact, slots@) && list_fault(cact, slots@, e),
        },
{
    let mut lists: Vec<Vec<u32>> = Vec::new();
    let mut i: usize = 0;
    while i < slots.len()
        invariant
            i <= slots@.len(),
            cact.wf(),
            in_directory(cact, slots@),
            are_values(cact, slots@.take(i as int), lists@),
        decreases slots.len() - i,
    {
        assert(slots@[i as int] < cact.directory().len());
        match cact.floats(slots[i]) {
            Ok(values) => {
                let ghost before = lists@;
                lists.push(values);
                proof {
                    let longer = slots@.take(i + 1);
                    assert forall|k: int| 0 <= k < longer.len() implies cact.values_of(
                        longer[k] as int,
                    ) == Some(#[trigger] lists@[k]@) by {
                        if k < i {
                            assert(lists@[k] == before[k]);
                            assert(slots@.take(i as int)[k] == longer[k]);
                        }
                    }
                }
            },
            Err(e) => {
                proof {
                    assert forall|j: int| 0 <= j < i implies #[trigger] cact.values_of(
                        slots@[j] as int,
                    ) is Some by {
                        assert(slots@.take(i as int)[j] == slots@[j]);
                        assert(cact.values_of(slots@.take(i as int)[j] as int) == Some(
                            lists@[j]@,
                        ));
                    }
                    assert(first_unreadable(cact, slots@, i as int));
                }
                return Err(V3LoadError::Cact(e));
            },
        }
        i = i + 1;
    }
    assert(slots@.take(i as int) =~= slots@);
    Ok(lists)
}

/// The plain-number tensors of a layer that are read first: the taps where
/// there are any, four norms and the attention gate.
pub open spec fn layer_head_slots(l: V3LayerIdx) -> Seq<usize> {
    let taps: Seq<usize> = match l.qkv_taps {
        Some(t) => seq![t[0], t[1], t[2]],
        None => Seq::empty(),
    };
    taps + seq![l.norm_in, l.q_norm, l.k_norm, l.post_norm, l.attn_gate]
}

/// Those that are read once attention is known to have a gate: the last norm
/// and the thirteen of the Hadamard block.
pub open spec fn layer_tail_slots(l: V3LayerIdx) -> Seq<usize> {
    seq![l.pre_hada] + l.mlp@
}

/// One layer's numbers. Packed tensors are named by their slots.
#[derive(Debug)]
pub struct V3LayerParts {
    pub norm_in: Vec<u32>,
    pub q_proj: usize,
    pub k_proj: usize,
    pub v_proj: usize,
    /// Empty where the model has no convolution.
    pub q_taps: Vec<u32>,
    pub k_taps: Vec<u32>,
    pub v_taps: Vec<u32>,
    pub q_norm: Vec<u32>,
    pub k_norm: Vec<u32>,
    pub gate_proj: usize,
    pub out_proj: usize,
    pub post_norm: Vec<u32>,
    pub attn_gate: u32,
    pub pre_hada: Vec<u32>,
    /// d1, d2, b2, d3, d4, w1a, w1b, w2a, w2b, w3a, w3b, cond_v, cond_u.
    pub mlp: Vec<Vec<u32>>,
    pub cond_rank: usize,
}

impl V3LayerParts {
    /// The parts are what the container holds in a layer's slots.
    pub open spec fn reads(&self, cact: &CactV3, l: &V3LayerIdx) -> bool {
        &&& cact.values_of(l.norm_in as int) == Some(self.norm_in@)
        &&& self.q_proj == l.q_proj
        &&& self.k_proj == l.k_proj
        &&& self.v_proj == l.v_proj
        &&& match l.qkv_taps {
            Some(t) => {
                &&& cact.values_of(t[0] as int) == Some(self.q_taps@)
                &&& cact.values_of(t[1] as int) == Some(self.k_taps@)
                &&& cact.values_of(t[2] as int) == Some(self.v_taps@)
            },
            None => self.q_taps@.len() == 0 && self.k_taps@.len() == 0 && self.v_taps@.len() == 0,
        }
        &&& cact.values_of(l.q_norm as int) == Some(self.q_norm@)
        &&& cact.values_of(l.k_norm as int) == Some(self.k_norm@)
        &&& self.gate_proj == l.gate_proj
        &&& self.out_proj == l.out_proj
        &&& cact.values_of(l.post_norm as int) == Some(self.post_norm@)
        &&& cact.values_of(l.attn_gate as int) matches Some(g) && g.len() > 0 && self.attn_gate
            == g[0]
        &&& cact.values_of(l.pre_hada as int) == Some(self.pre_hada@)
        &&& are_values(cact, l.mlp@, self.mlp@)
        &&& self.cond_rank == cact.directory()[l.mlp[11] as int].shape[1]
    }
}

/// A layer can be read: its tensors of numbers hold numbers, and its attention gate at
/// least one.
pub open spec fn layer_readable(cact: &CactV3, l: &V3LayerIdx) -> bool {
    &&& all_readable(cact, layer_head_slots(*l))
    &&& cact.values_of(l.attn_gate as int)->0.len() > 0
    &&& all_readable(cact, layer_tail_slots(*l))
}

/// Every plain-number tensor of a layer is in the directory.
pub open spec fn layer_in_directory(cact: &CactV3, l: &V3LayerIdx) -> bool {
    in_directory(cact, layer_head_slots(*l)) && in_directory(cact, layer_tail_slots(*l))
}

/// What stops the reading of a layer: the first tensor without numbers, or an
/// attention gate that holds none.
pub open spec fn layer_fault(cact: &CactV3, l: &V3LayerIdx, e: V3LoadError) -> bool {
    let head = layer_head_slots(*l);
    let tail = layer_tail_slots(*l);
    if !all_readable(cact, head) {
        exists|k: int| #[trigger]
            first_unreadable(cact, head, k) && e == V3LoadError::Cact(
                CactError::NotFloats { index: head[k] },
            )
    } else if cact.values_of(l.attn_gate as int)->0.len() == 0 {
        e matches V3LoadError::EmptyScalar(what) && what@ == "attn_gate"@
    } else {
        exists|k: int| #[trigger]
            first_unreadable(cact, tail, k) && e == V3LoadError::Cact(
                CactError::NotFloats { index: tail[k] },
            )
    }
}

/// The values at a place of a list of lists, taken out of it.
fn take_list(lists: &mut Vec<Vec<u32>>, i: usize) -> (list: Vec<u32>)
    requires
        i < old(lists)@.len(),
    ensures
        list@ == old(lists)@[i as int]@,
        final(lists)@.len() == old(lists)@.len(),
        forall|k: int|
            0 <= k < final(lists)@.len() && k != i ==> #[trigger] final(lists)@[k] == old(
                lists,
            )@[k],
{
    let mut empty: Vec<u32> = Vec::new();
    std::mem::swap(&mut empty, &mut lists[i]);
    empty
}

proof fn lemma_values_are_readable(cact: &CactV3, slots: Seq<usize>, lists: Seq<Vec<u32>>)
    requires
        are_values(cact, slots, lists),
    ensures
        all_readable(cact, slots),
{
    assert forall|k: int| 0 <= k < slots.len() implies #[trigger] cact.values_of(
        slots[k] as int,
    ) is Some by {
        assert(cact.values_of(slots[k] as int) == Some(lists[k]@));
    }
}

/// Read one layer.
pub fn layer_from_layout(cact: &CactV3, l: &V3LayerIdx) -> (parts: Result<
    V3LayerParts,
    V3LoadError,
>)
    requires
        cact.wf(),
        layer_in_directory(cact, l),
    ensures
        match parts {
            Ok(p) => layer_readable(cact, l) && p.reads(cact, l),
            Err(e) => !layer_readable(cact, l) && layer_fault(cact, l, e),
        },
{
    let mut slots: Vec<usize> = Vec::new();
    let at: usize = match l.qkv_taps {
        Some(t) => {
            slots.push(t[0]);
            slots.push(t[1]);
            slots.push(t[2]);
            3
        },
        None => 0,
    };
    slots.push(l.norm_in);
    slots.push(l.q_norm);
    slots.push(l.k_norm);
    slots.push(l.post_norm);
    slots.push(l.attn_gate);
    assert(slots@ =~= layer_head_slots(*l));
    let mut lists = match read_all(cact, &slots) {
        Ok(lists) => lists,
        Err(e) => {
            return Err(e);
        },
    };
    let ghost read = lists@;
    proof {
        lemma_values_are_readable(cact, slots@, read);
        assert(slots@[at as int] == l.norm_in && read[at as int]@ == read[at as int]@);
        assert(slots@[at + 1] == l.q_norm && read[at + 1]@ == read[at + 1]@);
        assert(slots@[at + 2] == l.k_norm && read[at + 2]@ == read[at + 2]@);
        assert(slots@[at + 3] == l.post_norm && read[at + 3]@ == read[at + 3]@);
        assert(slots@[at + 4] == l.attn_gate && read[at + 4]@ == read[at + 4]@);
        if at == 3 {
            assert(cact.values_of(slots@[0] as int) == Some(read[0]@));
            assert(cact.values_of(slots@[1] as int) == Some(read[1]@));
            assert(cact.values_of(slots@[2] as int) == Some(read[2]@));
        }
    }
    if lists[at + 4].len() == 0 {
        return Err(V3LoadError::EmptyScalar("attn_gate"));
    }
    let attn_gate: u32 = lists[at + 4][0];
    let mut tail: Vec<usize> = Vec::new();
    tail.push(l.pre_hada);
    let mut i: usize = 0;
    assert(tail@ =~= seq![l.pre_hada] + l.mlp@.take(0));
    while i < 13
        invariant
            i <= 13,
            tail@ == seq![l.pre_hada] + l.mlp@.take(i as int),
        decreases 13 - i,
    {
        tail.push(l.mlp[i]);
        i = i + 1;
        assert(tail@ =~= seq![l.pre_hada] + l.mlp@.take(i as int));
    }
    assert(l.mlp@.take(13) =~= l.mlp@);
    let mut rest = match read_all(cact, &tail) {
        Ok(rest) => rest,
        Err(e) => {
            return Err(e);
        },
    };
    let ghost rest_read = rest@;
    proof {
        lemma_values_are_readable(cact, tail@, rest_read);
        assert(tail@[0] == l.pre_hada && rest_read[0]@ == rest_read[0]@);
        assert(layer_tail_slots(*l)[12] == l.mlp@[11]);
        assert(layer_tail_slots(*l)[12] < cact.directory().len());
    }
    let (q_taps, k_taps, v_taps) = if at == 3 {
        (take_list(&mut lists, 0), take_list(&mut lists, 1), take_list(&mut lists, 2))
    } else {
        (Vec::new(), Vec::new(), Vec::new())
    };
    let norm_in = take_list(&mut lists, at);
    let q_norm = take_list(&mut lists, at + 1);
    let k_norm = take_list(&mut lists, at + 2);
    let post_norm = take_list(&mut lists, at + 3);
    let pre_hada = rest.remove(0);
    assert forall|k: int| 0 <= k < 13 implies cact.values_of(l.mlp@[k] as int) == Some(
        #[trigger] rest@[k]@,
    ) by {
        assert(tail@[k + 1] == l.mlp@[k]);
        assert(rest@[k] == rest_read[k + 1]);
        assert(cact.values_of(tail@[k + 1] as int) == Some(rest_read[k + 1]@));
    }
    let cond_rank: usize = cact.record(l.mlp[11]).shape[1];
    Ok(
        V3LayerParts {
            norm_in,
            q_proj: l.q_proj,
            k_proj: l.k_proj,
            v_proj: l.v_proj,
            q_taps,
            k_taps,
            v_taps,
            q_norm,
            k_norm,
            gate_proj: l.gate_proj,
            out_proj: l.out_proj,
            post_norm,
            attn_gate,
            pre_hada,
            mlp: rest,
            cond_rank,
        },
    )
}

/// The products that reading a container at some depth forms fit in a machine
/// word.
pub open spec fn sizes_fit(cfg: &V3Config) -> bool {
    let lanes = cfg.mhc_lanes as nat;
    &&& widths_fit(cfg)
    &&& lanes * lanes <= usize::MAX
    &&& cfg.num_layers as nat * (lanes * lanes) <= usize::MAX
}

/// A declared geometry that can be worked with: the products that reading forms
/// fit in a machine word.
pub open spec fn loadable(g: &CactV3Geometry) -> bool {
    let lanes = g.mhc_lanes as nat;
    &&& g.num_layers > 0 ==> {
        &&& g.num_heads * g.qk_head_dim <= usize::MAX
        &&& g.num_kv_heads * g.qk_head_dim <= usize::MAX
        &&& g.num_kv_heads * g.v_head_dim <= usize::MAX
        &&& g.num_heads * g.v_head_dim <= usize::MAX
    }
    &&& g.engram_sites@.len() > 0 ==> g.num_engram_tables * g.engram_slots <= usize::MAX
    &&& lanes * lanes <= usize::MAX
    &&& g.num_layers as nat * (lanes * lanes) <= usize::MAX
}

/// Whether a declared geometry can be worked with.
pub fn is_loadable(g: &CactV3Geometry) -> (yes: bool)
    ensures
        yes == loadable(g),
{
    if g.num_layers > 0 {
        if g.num_heads.checked_mul(g.qk_head_dim).is_none() || g.num_kv_heads.checked_mul(
            g.qk_head_dim,
        ).is_none() || g.num_kv_heads.checked_mul(g.v_head_dim).is_none()
            || g.num_heads.checked_mul(g.v_head_dim).is_none() {
            return false;
        }
    }
    if g.engram_sites.len() > 0 && g.num_engram_tables.checked_mul(g.engram_slots).is_none() {
        return false;
    }
    match g.mhc_lanes.checked_mul(g.mhc_lanes) {
        Some(squared) => g.num_layers.checked_mul(squared).is_some(),
        None => false,
    }
}

/// How wide a block's row is in the six lane-mixing tensors.
pub open spec fn scalar_width(lanes: nat, j: int) -> nat {
    if j < 3 {
        1
    } else if j < 5 {
        lanes
    } else {
        lanes * lanes
    }
}

/// The rows of lane-mixing tensor `j` that a load at `depth` keeps: all of
/// them at full depth, those of the kept blocks below it.
pub open spec fn kept_scalars(
    parent: &V3Config,
    plan: &RungPlan,
    values: Seq<u32>,
    j: int,
) -> Seq<u32> {
    if plan.cfg.num_layers == parent.num_layers {
        values
    } else {
        rows_of(values, plan.kept@, scalar_width(parent.mhc_lanes as nat, j))
    }
}

/// Lane-mixing tensor `j` has a row for every kept block.
pub open spec fn scalars_long_enough(
    parent: &V3Config,
    plan: &RungPlan,
    values: Seq<u32>,
    j: int,
) -> bool {
    plan.cfg.num_layers == parent.num_layers || rows_fit(
        values.len(),
        plan.kept@,
        scalar_width(parent.mhc_lanes as nat, j),
    )
}

/// The slots of the tap tensors of the kept Engram sites.
pub open spec fn tap_slots(plan: &RungPlan) -> Seq<usize> {
    Seq::new(
        plan.sites@.len(),
        |i: int| plan.layout.engrams@[plan.sites@[i] as int].taps,
    )
}

/// The slots of the permutations and of the last norm.
pub open spec fn closing_slots(plan: &RungPlan) -> Seq<usize> {
    seq![plan.layout.hada_perms[0], plan.layout.hada_perms[1], plan.layout.final_norm]
}

/// The `i`-th block that a plan keeps can be read.
pub open spec fn block_readable(cact: &CactV3, plan: &RungPlan, i: int) -> bool {
    layer_readable(cact, &plan.layout.layers@[plan.kept@[i] as int])
}

/// Every block that a plan keeps can be read.
pub open spec fn blocks_readable(cact: &CactV3, plan: &RungPlan) -> bool {
    forall|i: int| 0 <= i < plan.kept@.len() ==> #[trigger] block_readable(cact, plan, i)
}

/// Every lane-mixing tensor has a row for every kept block.
pub open spec fn all_long_enough(cact: &CactV3, parent: &V3Config, plan: &RungPlan) -> bool {
    forall|j: int|
        #![trigger plan.layout.mhc.scalars@[j]]
        0 <= j < 6 ==> scalars_long_enough(
            parent,
            plan,
            cact.values_of(plan.layout.mhc.scalars@[j] as int)->0,
            j,
        )
}

/// Everything that a planned load reads can be read.
pub open spec fn plan_readable(cact: &CactV3, parent: &V3Config, plan: &RungPlan) -> bool {
    &&& blocks_readable(cact, plan)
    &&& all_readable(cact, plan.layout.mhc.scalars@)
    &&& all_long_enough(cact, parent, plan)
    &&& all_readable(cact, tap_slots(plan))
    &&& all_readable(cact, closing_slots(plan))
}

/// A model's numbers at some depth.
pub struct V3ModelParts {
    /// The rung's geometry, and the slots and rows it reads.
    pub plan: RungPlan,
    pub layers: Vec<V3LayerParts>,
    /// a_pre, a_post, a_res, b_pre, b_post, b_res.
    pub scalars: Vec<Vec<u32>>,
    /// The taps of each kept Engram site.
    pub taps: Vec<Vec<u32>>,
    pub perms: HadaPerms,
    pub final_norm: Vec<u32>,
}

impl V3ModelParts {
    /// The parts are what a planned load reads.
    pub open spec fn reads(&self, cact: &CactV3, parent: &V3Config) -> bool {
        let plan = &self.plan;
        &&& self.layers@.len() == plan.kept@.len()
        &&& forall|i: int|
            0 <= i < self.layers@.len() ==> reads_block(cact, plan, i, #[trigger] self.layers@[i])
        &&& self.scalars@.len() == 6
        &&& forall|j: int|
            0 <= j < 6 ==> (#[trigger] self.scalars@[j])@ == kept_scalars(
                parent,
                plan,
                cact.values_of(plan.layout.mhc.scalars@[j] as int)->0,
                j,
            )
        &&& are_values(cact, tap_slots(plan), self.taps@)
        &&& self.perms.p1@ == whole_parts(
            cact.values_of(plan.layout.hada_perms[0] as int)->0,
        )
        &&& self.perms.p2@ == whole_parts(
            cact.values_of(plan.layout.hada_perms[1] as int)->0,
        )
        &&& cact.values_of(plan.layout.final_norm as int) == Some(self.final_norm@)
    }
}

proof fn lemma_layer_in_directory(cact: &CactV3, parent: &V3Config, layout: &V3Layout, i: int)
    requires
        layout.follows_canon(parent, cact.directory()),
        canon_len(parent) <= cact.directory().len(),
        0 <= i < parent.num_layers,
    ensures
        layer_in_directory(cact, &layout.layers@[i]),
{
    let l = &layout.layers@[i];
    let taps = parent.qkv_conv_taps as nat;
    let base = layer_base(parent, i);
    let p = per_layer(taps) as int;
    let n = parent.num_layers as int;
    assert(is_layer_at(l, base, taps));
    assert((i + 1) * p == i * p + p) by (nonlinear_arith);
    assert((i + 1) * p <= n * p) by (nonlinear_arith)
        requires
            i + 1 <= n,
            p >= 0,
    ;
    assert(i * p >= 0) by (nonlinear_arith)
        requires
            i >= 0,
            p >= 0,
    ;
    assert(base + p <= mhc_base(parent));
    assert(mhc_base(parent) <= canon_len(parent));
    let head = layer_head_slots(*l);
    let tail = layer_tail_slots(*l);
    assert forall|k: int| 0 <= k < tail.len() implies #[trigger] tail[k] < cact.directory().len() by {
        if k > 0 {
            assert(tail[k] == l.mlp[k - 1]);
        }
    }
}

proof fn lemma_kept_below(n: nat, depth: nat, i: int)
    requires
        n <= usize::MAX,
        depth == n || 2 <= depth <= n,
        0 <= i < depth,
    ensures
        loaded_blocks(n, depth).len() == depth,
        loaded_blocks(n, depth)[i] < n,
{
    if depth != n {
        crate::v3::ladder::rung_is_rung(n, depth);
    }
}

/// A layer's numbers are those of the `i`-th block that a plan keeps.
pub open spec fn reads_block(cact: &CactV3, plan: &RungPlan, i: int, part: V3LayerParts) -> bool {
    let l = &plan.layout.layers@[plan.kept@[i] as int];
    layer_readable(cact, l) && part.reads(cact, l)
}

/// The `i`-th kept block is the first that cannot be read.
pub open spec fn first_bad_block(cact: &CactV3, plan: &RungPlan, i: int) -> bool {
    &&& 0 <= i < plan.kept@.len()
    &&& !block_readable(cact, plan, i)
    &&& forall|k: int| 0 <= k < i ==> #[trigger] block_readable(cact, plan, k)
}

/// What stops the reading of the blocks: the first that cannot be read.
pub open spec fn block_fault(cact: &CactV3, plan: &RungPlan, e: V3LoadError) -> bool {
    exists|i: int| #[trigger]
        first_bad_block(cact, plan, i) && layer_fault(
            cact,
            &plan.layout.layers@[plan.kept@[i] as int],
            e,
        )
}

fn read_layers(cact: &CactV3, parent: &V3Config, plan: &RungPlan) -> (layers: Result<
    Vec<V3LayerParts>,
    V3LoadError,
>)
    requires
        cact.wf(),
        plan.layout.follows_canon(parent, cact.directory()),
        canon_len(parent) <= cact.directory().len(),
        forall|i: int| 0 <= i < plan.kept@.len() ==> #[trigger] plan.kept@[i] < parent.num_layers,
    ensures
        match layers {
            Ok(layers) => {
                &&& layers@.len() == plan.kept@.len()
                &&& forall|i: int|
                    0 <= i < layers@.len() ==> reads_block(cact, plan, i, #[trigger] layers@[i])
            },
            Err(e) => !blocks_readable(cact, plan) && block_fault(cact, plan, e),
        },
{
    let mut layers: Vec<V3LayerParts> = Vec::new();
    let mut i: usize = 0;
    while i < plan.kept.len()
        invariant
            i <= plan.kept@.len(),
            cact.wf(),
            plan.layout.follows_canon(parent, cact.directory()),
            canon_len(parent) <= cact.directory().len(),
            forall|i: int|
                0 <= i < plan.kept@.len() ==> #[trigger] plan.kept@[i] < parent.num_layers,
            layers@.len() == i,
            forall|k: int| 0 <= k < i ==> reads_block(cact, plan, k, #[trigger] layers@[k]),
        decreases plan.kept.len() - i,
    {
        let b: usize = plan.kept[i];
        proof {
            lemma_layer_in_directory(cact, parent, &plan.layout, b as int);
        }
        match layer_from_layout(cact, &plan.layout.layers[b]) {
            Ok(parts) => {
                let ghost before = layers@;
                assert(reads_block(cact, plan, i as int, parts));
                layers.push(parts);
                assert forall|k: int| 0 <= k < i + 1 implies reads_block(
                    cact,
                    plan,
                    k,
                    #[trigger] layers@[k],
                ) by {
                    if k < i {
                        assert(layers@[k] == before[k]);
                    }
                }
            },
            Err(e) => {
                proof {
                    assert(!block_readable(cact, plan, i as int));
                    assert forall|k: int| 0 <= k < i implies #[trigger] block_readable(
                        cact,
                        plan,
                        k,
                    ) by {
                        assert(reads_block(cact, plan, k, layers@[k]));
                    }
                    assert(first_bad_block(cact, plan, i as int));
                }
                return Err(e);
            },
        }
        i = i + 1;
    }
    Ok(layers)
}

/// Whether every kept block has a row.
fn rows_inside(len: usize, kept: &[usize], width: usize) -> (inside: bool)
    ensures
        inside == rows_fit(len as nat, kept@, width as nat),
{
    let mut i: usize = 0;
    while i < kept.len()
        invariant
            i <= kept@.len(),
            forall|k: int| 0 <= k < i ==> (#[trigger] kept@[k] + 1) * width <= len,
        decreases kept.len() - i,
    {
        let r: usize = kept[i];
        let fits: bool = if r == usize::MAX {
            width == 0
        } else {
            match (r + 1).checked_mul(width) {
                Some(end) => end <= len,
                None => false,
            }
        };
        assert(fits == ((r + 1) * width <= len)) by {
            if r == usize::MAX {
                if width > 0 {
                    assert((r + 1) * width >= r + 1) by (nonlinear_arith)
                        requires
                            width >= 1,
                            r >= 0,
                    ;
                } else {
                    assert((r + 1) * width == 0) by (nonlinear_arith)
                        requires
                            width == 0,
                    ;
                }
            }
        }
        if !fits {
            assert((kept@[i as int] + 1) * width > len);
            return false;
        }
        i = i + 1;
    }
    true
}

/// What the loader says where a lane-mixing tensor lacks rows.
pub const SHORT_SCALARS: &'static str = "mHC scalar row out of range";

fn read_scalars(cact: &CactV3, parent: &V3Config, plan: &RungPlan) -> (scalars: Result<
    Vec<Vec<u32>>,
    V3LoadError,
>)
    requires
        cact.wf(),
        in_directory(cact, plan.layout.mhc.scalars@),
        parent.mhc_lanes as nat * parent.mhc_lanes as nat <= usize::MAX,
    ensures
        match scalars {
            Ok(scalars) => {
                &&& all_readable(cact, plan.layout.mhc.scalars@)
                &&& scalars@.len() == 6
                &&& forall|j: int|
                    #![trigger plan.layout.mhc.scalars@[j]]
                    0 <= j < 6 ==> scalars_long_enough(
                        parent,
                        plan,
                        cact.values_of(plan.layout.mhc.scalars@[j] as int)->0,
                        j,
                    )
                &&& forall|j: int|
                    0 <= j < 6 ==> (#[trigger] scalars@[j])@ == kept_scalars(
                        parent,
                        plan,
                        cact.values_of(plan.layout.mhc.scalars@[j] as int)->0,
                        j,
                    )
            },
            Err(e) => if !all_readable(cact, plan.layout.mhc.scalars@) {
                list_fault(cact, plan.layout.mhc.scalars@, e)
            } else {
                &&& !all_long_enough(cact, parent, plan)
                &&& e matches V3LoadError::Shape(what) && what@ == SHORT_SCALARS@
            },
        },
{
    let mut slots: Vec<usize> = Vec::new();
    let mut i: usize = 0;
    while i < 6
        invariant
            i <= 6,
            slots@ == plan.layout.mhc.scalars@.take(i as int),
        decreases 6 - i,
    {
        slots.push(plan.layout.mhc.scalars[i]);
        i = i + 1;
        assert(slots@ =~= plan.layout.mhc.scalars@.take(i as int));
    }
    assert(slots@ =~= plan.layout.mhc.scalars@);
    let mut lists = match read_all(cact, &slots) {
        Ok(lists) => lists,
        Err(e) => {
            return Err(e);
        },
    };
    let ghost read = lists@;
    proof {
        lemma_values_are_readable(cact, slots@, read);
        assert forall|j: int| 0 <= j < 6 implies cact.values_of(
            #[trigger] plan.layout.mhc.scalars@[j] as int,
        ) == Some(read[j]@) by {
            assert(cact.values_of(slots@[j] as int) == Some(read[j]@));
        }
    }
    if plan.cfg.num_layers == parent.num_layers {
        return Ok(lists);
    }
    let lanes: usize = parent.mhc_lanes;
    let squared: usize = lanes * lanes;
    let mut out: Vec<Vec<u32>> = Vec::new();
    let mut j: usize = 0;
    while j < 6
        invariant
            j <= 6,
            lanes == parent.mhc_lanes,
            squared == lanes * lanes,
            lists@ == read,
            read.len() == 6,
            plan.cfg.num_layers != parent.num_layers,
            all_readable(cact, plan.layout.mhc.scalars@),
            forall|j: int|
                0 <= j < 6 ==> cact.values_of(#[trigger] plan.layout.mhc.scalars@[j] as int)
                    == Some(read[j]@),
            out@.len() == j,
            forall|k: int|
                0 <= k < j ==> scalars_long_enough(parent, plan, (#[trigger] read[k])@, k),
            forall|k: int|
                0 <= k < j ==> (#[trigger] out@[k])@ == kept_scalars(parent, plan, read[k]@, k),
        decreases 6 - j,
    {
        let width: usize = if j < 3 {
            1
        } else if j < 5 {
            lanes
        } else {
            squared
        };
        assert(width == scalar_width(parent.mhc_lanes as nat, j as int));
        assert(cact.values_of(plan.layout.mhc.scalars@[j as int] as int) == Some(read[j as int]@));
        if !rows_inside(lists[j].len(), &plan.kept, width) {
            return Err(V3LoadError::Shape(SHORT_SCALARS));
        }
        assert(scalars_long_enough(parent, plan, read[j as int]@, j as int));
        let ghost before = out@;
        out.push(take_rows(&lists[j], &plan.kept, width));
        proof {
            assert forall|k: int| 0 <= k < j + 1 implies (#[trigger] out@[k])@ == kept_scalars(
                parent,
                plan,
                read[k]@,
                k,
            ) by {
                if k < j {
                    assert(out@[k] == before[k]);
                }
            }
        }
        j = j + 1;
    }
    Ok(out)
}

/// What stops a planned load, once the plan is made: the first block that
/// cannot be read; else the first lane-mixing tensor without numbers; else a
/// lane-mixing tensor that lacks rows; else the first of the Engram taps
/// without numbers; else the first of the permutations and the last norm.
pub open spec fn part_fault(cact: &CactV3, parent: &V3Config, plan: &RungPlan, e: V3LoadError) -> bool {
    if !blocks_readable(cact, plan) {
        block_fault(cact, plan, e)
    } else if !all_readable(cact, plan.layout.mhc.scalars@) {
        list_fault(cact, plan.layout.mhc.scalars@, e)
    } else if !all_long_enough(cact, parent, plan) {
        e matches V3LoadError::Shape(what) && what@ == SHORT_SCALARS@
    } else if !all_readable(cact, tap_slots(plan)) {
        list_fault(cact, tap_slots(plan), e)
    } else {
        list_fault(cact, closing_slots(plan), e)
    }
}

fn read_planned(cact: &CactV3, parent: &V3Config, plan: RungPlan) -> (parts: Result<
    V3ModelParts,
    V3LoadError,
>)
    requires
        cact.wf(),
        plan.layout.follows_canon(parent, cact.directory()),
        canon_len(parent) <= cact.directory().len(),
        forall|i: int| 0 <= i < plan.kept@.len() ==> #[trigger] plan.kept@[i] < parent.num_layers,
        forall|i: int|
            0 <= i < plan.sites@.len() ==> #[trigger] plan.sites@[i] < parent.engram.sites@.len(),
        parent.mhc_lanes as nat * parent.mhc_lanes as nat <= usize::MAX,
    ensures
        match parts {
            Ok(p) => p.plan == plan && plan_readable(cact, parent, &plan) && p.reads(cact, parent),
            Err(e) => !plan_readable(cact, parent, &plan) && part_fault(cact, parent, &plan, e),
        },
{
    proof {
        let n = parent.num_layers as int;
        let p = per_layer(parent.qkv_conv_taps as nat) as int;
        assert(n * p >= 0) by (nonlinear_arith)
            requires
                n >= 0,
                p >= 0,
        ;
        assert forall|k: int| 0 <= k < 6 implies #[trigger] plan.layout.mhc.scalars@[k]
            < cact.directory().len() by {
            assert(plan.layout.mhc.scalars[k] == mhc_base(parent) + k);
        }
        assert forall|k: int| 0 <= k < tap_slots(&plan).len() implies #[trigger] tap_slots(&plan)[k]
            < cact.directory().len() by {
            let s = plan.sites@[k] as int;
            assert(is_engram_at(&plan.layout.engrams@[s], engram_base(parent, s)));
        }
        assert(plan.layout.final_norm == final_norm_slot(parent));
        assert(in_directory(cact, closing_slots(&plan)));
    }
    let layers = match read_layers(cact, parent, &plan) {
        Ok(layers) => layers,
        Err(e) => {
            return Err(e);
        },
    };
    proof {
        assert forall|i: int| 0 <= i < plan.kept@.len() implies #[trigger] block_readable(
            cact,
            &plan,
            i,
        ) by {
            assert(reads_block(cact, &plan, i, layers@[i]));
        }
    }
    let scalars = match read_scalars(cact, parent, &plan) {
        Ok(scalars) => scalars,
        Err(e) => {
            return Err(e);
        },
    };
    let mut slots: Vec<usize> = Vec::new();
    let mut i: usize = 0;
    while i < plan.sites.len()
        invariant
            i <= plan.sites@.len(),
            plan.layout.engrams@.len() == parent.engram.sites@.len(),
            forall|i: int|
                0 <= i < plan.sites@.len() ==> #[trigger] plan.sites@[i]
                    < parent.engram.sites@.len(),
            slots@ == tap_slots(&plan).take(i as int),
        decreases plan.sites.len() - i,
    {
        slots.push(plan.layout.engrams[plan.sites[i]].taps);
        i = i + 1;
        assert(slots@ =~= tap_slots(&plan).take(i as int));
    }
    assert(slots@ =~= tap_slots(&plan));
    let taps = match read_all(cact, &slots) {
        Ok(taps) => taps,
        Err(e) => {
            return Err(e);
        },
    };
    proof {
        lemma_values_are_readable(cact, slots@, taps@);
    }
    let mut closing: Vec<usize> = Vec::new();
    closing.push(plan.layout.hada_perms[0]);
    closing.push(plan.layout.hada_perms[1]);
    closing.push(plan.layout.final_norm);
    assert(closing@ =~= closing_slots(&plan));
    let mut last = match read_all(cact, &closing) {
        Ok(last) => last,
        Err(e) => {
            return Err(e);
        },
    };
    proof {
        lemma_values_are_readable(cact, closing@, last@);
        assert(cact.values_of(closing@[0] as int) == Some(last@[0]@));
        assert(cact.values_of(closing@[1] as int) == Some(last@[1]@));
        assert(cact.values_of(closing@[2] as int) == Some(last@[2]@));
    }
    let p1 = indices_of(&last[0]);
    let p2 = indices_of(&last[1]);
    let final_norm = take_list(&mut last, 2);
    Ok(V3ModelParts { plan, layers, scalars, taps, perms: HadaPerms { p1, p2 }, final_norm })
}

/// Read the numbers of a container's model at `depth`: the whole stack at full
/// depth, a rung of the ladder below it.
///
/// The slice is exact. Per-layer tensors are kept whole, the lane-mixing
/// tensors are cut row by row, and the Engram tables of surviving sites are
/// kept entire and renumbered. Nothing is quantised anew.
pub fn model_from_cact_at_depth(cact: &CactV3, depth: usize) -> (parts: Result<
    V3ModelParts,
    V3LoadError,
>)
    requires
        cact.wf(),
        cact.directory().len() < usize::MAX,
        loadable(&cact.geometry()),
    ensures
        match parts {
            Ok(p) => exists|parent: V3Config| #[trigger]
                carries(&parent, &cact.geometry()) && {
                    &&& geometry_fault(&cact.geometry()) is None
                    &&& directory_fits(&parent, cact.directory())
                    &&& depth == parent.num_layers || 2 <= depth <= parent.num_layers
                    &&& p.plan.reads_rung(&parent, cact.directory(), depth as nat)
                    &&& plan_readable(cact, &parent, &p.plan)
                    &&& p.reads(cact, &parent)
                },
            Err(e) => load_fault(cact, depth, e),
        },
{
    let parent = match config_from_geometry(cact.geometry_ref()) {
        Ok(cfg) => cfg,
        Err(e) => {
            return Err(V3LoadError::Geometry(e));
        },
    };
    assert(carries(&parent, &cact.geometry()));
    assert(sizes_fit(&parent));
    let plan = match plan_rung(&parent, cact.records(), depth) {
        Ok(plan) => plan,
        Err(e) => {
            return Err(e);
        },
    };
    proof {
        let n = parent.num_layers as nat;
        assert forall|i: int| 0 <= i < plan.kept@.len() implies #[trigger] plan.kept@[i] < n by {
            lemma_kept_length(n, depth as nat);
            lemma_kept_below(n, depth as nat, i);
        }
        if depth != parent.num_layers {
            crate::v3::slice::a_site_survives_with_its_block(
                parent.engram.sites@,
                loaded_blocks(n, depth as nat),
            );
        }
    }
    match read_planned(cact, &parent, plan) {
        Ok(parts) => Ok(parts),
        Err(e) => {
            assert(plan.reads_rung(&parent, cact.directory(), depth as nat));
            Err(e)
        },
    }
}

proof fn lemma_kept_length(n: nat, depth: nat)
    requires
        n <= usize::MAX,
        depth == n || 2 <= depth <= n,
    ensures
        loaded_blocks(n, depth).len() == depth,
{
    if depth != n {
        crate::v3::ladder::rung_is_rung(n, depth);
    }
}

/// What stops a load at `depth`: the geometry, the depth, the layout, or a
/// part that cannot be read.
pub open spec fn load_fault(cact: &CactV3, depth: usize, e: V3LoadError) -> bool {
    match e {
        V3LoadError::Geometry(g) => geometry_fault(&cact.geometry()) == Some(g),
        _ => {
            &&& geometry_fault(&cact.geometry()) is None
            &&& exists|parent: V3Config| #[trigger]
                carries(&parent, &cact.geometry()) && plan_fault(cact, &parent, depth, e)
        },
    }
}

/// The directory has every tensor of the canon, in the shapes that the geometry
/// determines.
pub open spec fn directory_fits(parent: &V3Config, records: Seq<Record>) -> bool {
    &&& canon_len(parent) <= records.len()
    &&& forall|k: int| 0 <= k < checks_len(parent) ==> #[trigger] shape_ok(parent, records, k)
}

/// What stops a load whose geometry is sound: the depth; else the directory;
/// else a part that cannot be read.
pub open spec fn plan_fault(cact: &CactV3, parent: &V3Config, depth: usize, e: V3LoadError) -> bool {
    if depth != parent.num_layers && !(2 <= depth <= parent.num_layers) {
        e matches V3LoadError::Shape(what) && what@ == "depth is outside the ladder"@
    } else if !directory_fits(parent, cact.directory()) {
        e matches V3LoadError::Layout(l) && crate::v3::layout::layout_answer(
            parent,
            cact.directory(),
            Err(l),
        )
    } else {
        exists|plan: RungPlan| #[trigger]
            plan.reads_rung(parent, cact.directory(), depth as nat) && !plan_readable(
                cact,
                parent,
                &plan,
            ) && part_fault(cact, parent, &plan, e)
    }
}

/// Read the numbers of a container's whole model.
pub fn model_from_cact(cact: &CactV3) -> (parts: Result<V3ModelParts, V3LoadError>)
    requires
        cact.wf(),
        cact.directory().len() < usize::MAX,
        loadable(&cact.geometry()),
    ensures
        match parts {
            Ok(p) => exists|parent: V3Config| #[trigger]
                carries(&parent, &cact.geometry()) && {
                    &&& geometry_fault(&cact.geometry()) is None
                    &&& directory_fits(&parent, cact.directory())
                    &&& p.plan.reads_rung(
                        &parent,
                        cact.directory(),
                        parent.num_layers as nat,
                    )
                    &&& plan_readable(cact, &parent, &p.plan)
                    &&& p.reads(cact, &parent)
                },
            Err(e) => load_fault(cact, cact.geometry().num_layers, e),
        },
{
    let depth: usize = cact.geometry_ref().num_layers;
    model_from_cact_at_depth(cact, depth)
}

/// Where head `i` of a manifest starts among the head tensors.
pub open spec fn head_start(codes: Seq<u8>, i: int) -> nat
    decreases i,
{
    if i <= 0 {
        0
    } else {
        head_start(codes, i - 1) + tensors_of_head(codes[i - 1])
    }
}

/// One head's numbers. Packed tensors are named by their slots.
#[derive(Debug)]
pub struct HeadParts {
    pub code: u8,
    pub slots: V3HeadIdx,
    pub dims: HeadDims,
    pub gain: Vec<u32>,
    pub row_bias: Vec<u32>,
    pub bias: Vec<u32>,
}

/// Where head `i` stands in the list of head tensors.
pub open spec fn head_slot(tensors: Seq<usize>, codes: Seq<u8>, i: int, k: int) -> int {
    tensors[head_start(codes, i) + k] as int
}

/// Head `i` has all its tensors.
pub open spec fn head_complete(tensors: Seq<usize>, codes: Seq<u8>, i: int) -> bool {
    head_start(codes, i) + tensors_of_head(codes[i]) <= tensors.len()
}

/// The probes of head `i` come out even over the cells, and its gain has an
/// entry for each.
pub open spec fn head_even(
    cact: &CactV3,
    num_layers: nat,
    tensors: Seq<usize>,
    codes: Seq<u8>,
    i: int,
) -> bool {
    let rows = cact.directory()[head_slot(tensors, codes, i, 0)].shape[0];
    rows as nat % (num_layers + 1) == 0 && cact.values_of(
        head_slot(tensors, codes, i, 1),
    )->0.len() == rows
}

/// Head `i` can be read.
pub open spec fn head_readable(
    cact: &CactV3,
    num_layers: nat,
    tensors: Seq<usize>,
    codes: Seq<u8>,
    i: int,
) -> bool {
    &&& head_complete(tensors, codes, i)
    &&& cact.values_of(head_slot(tensors, codes, i, 1)) is Some
    &&& head_even(cact, num_layers, tensors, codes, i)
    &&& cact.values_of(head_slot(tensors, codes, i, 3)) is Some
    &&& cact.values_of(head_slot(tensors, codes, i, 5)) is Some
}

/// The parts are those of head `i`.
pub open spec fn reads_head(
    cact: &CactV3,
    num_layers: nat,
    tensors: Seq<usize>,
    codes: Seq<u8>,
    i: int,
    h: HeadParts,
) -> bool {
    &&& head_readable(cact, num_layers, tensors, codes, i)
    &&& h.code == codes[i]
    &&& h.slots.probes == head_slot(tensors, codes, i, 0)
    &&& h.slots.gain == head_slot(tensors, codes, i, 1)
    &&& h.slots.query == head_slot(tensors, codes, i, 2)
    &&& h.slots.row_bias == head_slot(tensors, codes, i, 3)
    &&& h.slots.proj == head_slot(tensors, codes, i, 4)
    &&& h.slots.bias == head_slot(tensors, codes, i, 5)
    &&& h.dims.cells == num_layers + 1
    &&& h.dims.probes_per_cell == cact.directory()[h.slots.probes as int].shape[0] as nat / (
    num_layers + 1)
    &&& h.dims.queries == cact.directory()[h.slots.query as int].shape[0]
    &&& h.dims.out_dim == cact.directory()[h.slots.proj as int].shape[0]
    &&& cact.values_of(h.slots.gain as int) == Some(h.gain@)
    &&& cact.values_of(h.slots.row_bias as int) == Some(h.row_bias@)
    &&& cact.values_of(h.slots.bias as int) == Some(h.bias@)
}

/// What stops the reading of head `i`.
pub open spec fn head_fault(
    cact: &CactV3,
    num_layers: nat,
    tensors: Seq<usize>,
    codes: Seq<u8>,
    i: int,
    e: V3LoadError,
) -> bool {
    if !head_complete(tensors, codes, i) {
        e matches V3LoadError::Shape(what) && what@ == "head tensors ran out"@
    } else if cact.values_of(head_slot(tensors, codes, i, 1)) is None {
        e == V3LoadError::Cact(
            CactError::NotFloats { index: head_slot(tensors, codes, i, 1) as usize },
        )
    } else if !head_even(cact, num_layers, tensors, codes, i) {
        e matches V3LoadError::Shape(what) && what@
            == "probe head shapes disagree with num_layers + 1 cells"@
    } else if cact.values_of(head_slot(tensors, codes, i, 3)) is None {
        e == V3LoadError::Cact(
            CactError::NotFloats { index: head_slot(tensors, codes, i, 3) as usize },
        )
    } else {
        e == V3LoadError::Cact(
            CactError::NotFloats { index: head_slot(tensors, codes, i, 5) as usize },
        )
    }
}

/// Read one head, whose tensors start at `at`.
fn read_head(
    cact: &CactV3,
    num_layers: usize,
    tensors: &[usize],
    at: usize,
    code: u8,
    codes: Ghost<Seq<u8>>,
    i: Ghost<int>,
) -> (head: Result<(HeadParts, usize), V3LoadError>)
    requires
        cact.wf(),
        num_layers < usize::MAX,
        in_directory(cact, tensors@),
        at <= tensors@.len(),
        0 <= i@ < codes@.len(),
        code == codes@[i@],
        at == head_start(codes@, i@),
    ensures
        match head {
            Ok((h, next)) => next == head_start(codes@, i@ + 1) && next <= tensors@.len()
                && reads_head(cact, num_layers as nat, tensors@, codes@, i@, h),
            Err(e) => !head_readable(cact, num_layers as nat, tensors@, codes@, i@) && head_fault(
                cact,
                num_layers as nat,
                tensors@,
                codes@,
                i@,
                e,
            ),
        },
{
    let (slots, next) = match take_head(tensors, at, code) {
        Ok(found) => found,
        Err(e) => {
            return Err(e);
        },
    };
    proof {
        assert(tensors@[at as int] < cact.directory().len());
        assert(tensors@[at + 1] < cact.directory().len());
        assert(tensors@[at + 2] < cact.directory().len());
        assert(tensors@[at + 3] < cact.directory().len());
        assert(tensors@[at + 4] < cact.directory().len());
        assert(tensors@[at + 5] < cact.directory().len());
    }
    let gain = match cact.floats(slots.gain) {
        Ok(v) => v,
        Err(e) => {
            return Err(V3LoadError::Cact(e));
        },
    };
    let dims = match head_dims(&slots, cact.records(), gain.len(), num_layers) {
        Ok(dims) => dims,
        Err(e) => {
            return Err(e);
        },
    };
    let row_bias = match cact.floats(slots.row_bias) {
        Ok(v) => v,
        Err(e) => {
            return Err(V3LoadError::Cact(e));
        },
    };
    let bias = match cact.floats(slots.bias) {
        Ok(v) => v,
        Err(e) => {
            return Err(V3LoadError::Cact(e));
        },
    };
    Ok((HeadParts { code, slots, dims, gain, row_bias, bias }, next))
}

/// The codes that a container's head manifest lists; none where it has no
/// manifest.
pub open spec fn manifest_codes(cact: &CactV3, layout: &V3Layout) -> Option<Seq<u8>> {
    match layout.head_manifest {
        None => Some(Seq::empty()),
        Some(m) => match cact.values_of(m as int) {
            Some(values) => Some(
                Seq::new(
                    values.len(),
                    |i: int|
                        (if whole_parts(values)[i] > u8::MAX {
                            u8::MAX as u32
                        } else {
                            whole_parts(values)[i]
                        }) as u8,
                ),
            ),
            None => None,
        },
    }
}

/// Read the probe heads that a container exports.
///
/// The manifest lists which heads are present; their tensors follow in canon
/// order.
pub fn heads_from_cact(cact: &CactV3, cfg: &V3Config, layout: &V3Layout) -> (heads: Result<
    Vec<HeadParts>,
    V3LoadError,
>)
    requires
        cact.wf(),
        cfg.num_layers < usize::MAX,
        layout.follows_canon(cfg, cact.directory()),
        canon_len(cfg) <= cact.directory().len(),
    ensures
        match manifest_codes(cact, layout) {
            None => heads matches Err(e) && e == V3LoadError::Cact(
                CactError::NotFloats { index: layout.head_manifest->0 },
            ),
            Some(codes) => match heads {
                Ok(list) => {
                    &&& list@.len() == codes.len()
                    &&& forall|i: int|
                        0 <= i < codes.len() ==> reads_head(
                            cact,
                            cfg.num_layers as nat,
                            layout.head_tensors@,
                            codes,
                            i,
                            #[trigger] list@[i],
                        )
                },
                Err(e) => heads_fault(
                    cact,
                    cfg.num_layers as nat,
                    layout.head_tensors@,
                    codes,
                    e,
                ),
            },
        },
{
    let mut heads: Vec<HeadParts> = Vec::new();
    let manifest: usize = match layout.head_manifest {
        Some(m) => m,
        None => {
            return Ok(heads);
        },
    };
    proof {
        let n = cfg.num_layers as int;
        let p = per_layer(cfg.qkv_conv_taps as nat) as int;
        assert(n * p >= 0) by (nonlinear_arith)
            requires
                n >= 0,
                p >= 0,
        ;
        assert(canon_len(cfg) >= 0);
        assert(in_directory(cact, layout.head_tensors@));
    }
    let values = match cact.floats(manifest) {
        Ok(values) => values,
        Err(e) => {
            return Err(V3LoadError::Cact(e));
        },
    };
    let codes = codes_of(&values);
    proof {
        assert(codes@ =~= manifest_codes(cact, layout)->0);
    }
    let mut at: usize = 0;
    let mut i: usize = 0;
    while i < codes.len()
        invariant
            i <= codes@.len(),
            cact.wf(),
            cfg.num_layers < usize::MAX,
            in_directory(cact, layout.head_tensors@),
            manifest_codes(cact, layout) == Some(codes@),
            at == head_start(codes@, i as int),
            at <= layout.head_tensors@.len(),
            heads@.len() == i,
            forall|k: int|
                0 <= k < i ==> reads_head(
                    cact,
                    cfg.num_layers as nat,
                    layout.head_tensors@,
                    codes@,
                    k,
                    #[trigger] heads@[k],
                ),
        decreases codes.len() - i,
    {
        match read_head(
            cact,
            cfg.num_layers,
            &layout.head_tensors,
            at,
            codes[i],
            Ghost(codes@),
            Ghost(i as int),
        ) {
            Ok((head, next)) => {
                let ghost before = heads@;
                heads.push(head);
                at = next;
                assert forall|k: int| 0 <= k < i + 1 implies reads_head(
                    cact,
                    cfg.num_layers as nat,
                    layout.head_tensors@,
                    codes@,
                    k,
                    #[trigger] heads@[k],
                ) by {
                    if k < i {
                        assert(heads@[k] == before[k]);
                    }
                }
            },
            Err(e) => {
                proof {
                    assert forall|k: int| 0 <= k < i implies #[trigger] head_readable(
                        cact,
                        cfg.num_layers as nat,
                        layout.head_tensors@,
                        codes@,
                        k,
                    ) by {
                        assert(reads_head(
                            cact,
                            cfg.num_layers as nat,
                            layout.head_tensors@,
                            codes@,
                            k,
                            heads@[k],
                        ));
                    }
                    assert(first_bad_head(
                        cact,
                        cfg.num_layers as nat,
                        layout.head_tensors@,
                        codes@,
                        i as int,
                    ));
                    assert(heads_fault(
                        cact,
                        cfg.num_layers as nat,
                        layout.head_tensors@,
                        codes@,
                        e,
                    ));
                }
                return Err(e);
            },
        }
        i = i + 1;
    }
    Ok(heads)
}

/// Head `i` is the first confidence head.
pub open spec fn is_confidence_at(codes: Seq<u8>, i: int) -> bool {
    &&& 0 <= i < codes.len()
    &&& codes[i] == HEAD_CONFIDENCE
    &&& forall|j: int| 0 <= j < i ==> codes[j] != HEAD_CONFIDENCE
}

/// The parts are those of the first confidence head.
pub open spec fn reads_confidence(
    cact: &CactV3,
    num_layers: nat,
    tensors: Seq<usize>,
    codes: Seq<u8>,
    h: HeadParts,
) -> bool {
    exists|i: int| #[trigger]
        is_confidence_at(codes, i) && reads_head(cact, num_layers, tensors, codes, i, h)
}

/// Read the confidence head, if the container exports one.
///
/// Every head that the manifest lists has to be readable, also those that are
/// passed over.
pub fn confidence_head(cact: &CactV3, cfg: &V3Config, layout: &V3Layout) -> (head: Result<
    Option<HeadParts>,
    V3LoadError,
>)
    requires
        cact.wf(),
        cfg.num_layers < usize::MAX,
        layout.follows_canon(cfg, cact.directory()),
        canon_len(cfg) <= cact.directory().len(),
    ensures
        match manifest_codes(cact, layout) {
            None => head matches Err(e) && e == V3LoadError::Cact(
                CactError::NotFloats { index: layout.head_manifest->0 },
            ),
            Some(codes) => match head {
                Ok(found) => {
                    &&& forall|i: int|
                        0 <= i < codes.len() ==> #[trigger] head_readable(
                            cact,
                            cfg.num_layers as nat,
                            layout.head_tensors@,
                            codes,
                            i,
                        )
                    &&& match found {
                        Some(h) => reads_confidence(
                            cact,
                            cfg.num_layers as nat,
                            layout.head_tensors@,
                            codes,
                            h,
                        ),
                        None => forall|i: int|
                            0 <= i < codes.len() ==> codes[i] != HEAD_CONFIDENCE,
                    }
                },
                Err(e) => heads_fault(
                    cact,
                    cfg.num_layers as nat,
                    layout.head_tensors@,
                    codes,
                    e,
                ),
            },
        },
{
    let mut heads = match heads_from_cact(cact, cfg, layout) {
        Ok(heads) => heads,
        Err(e) => {
            return Err(e);
        },
    };
    let ghost codes = manifest_codes(cact, layout)->0;
    proof {
        assert forall|i: int| 0 <= i < codes.len() implies #[trigger] head_readable(
            cact,
            cfg.num_layers as nat,
            layout.head_tensors@,
            codes,
            i,
        ) by {
            assert(reads_head(
                cact,
                cfg.num_layers as nat,
                layout.head_tensors@,
                codes,
                i,
                heads@[i],
            ));
        }
    }
    let mut i: usize = 0;
    while i < heads.len()
        invariant
            i <= heads@.len() == codes.len(),
            manifest_codes(cact, layout) == Some(codes),
            forall|k: int|
                0 <= k < codes.len() ==> reads_head(
                    cact,
                    cfg.num_layers as nat,
                    layout.head_tensors@,
                    codes,
                    k,
                    #[trigger] heads@[k],
                ),
            forall|k: int|
                0 <= k < codes.len() ==> #[trigger] head_readable(
                    cact,
                    cfg.num_layers as nat,
                    layout.head_tensors@,
                    codes,
                    k,
                ),
            forall|k: int| 0 <= k < i ==> codes[k] != HEAD_CONFIDENCE,
        decreases heads.len() - i,
    {
        assert(reads_head(
            cact,
            cfg.num_layers as nat,
            layout.head_tensors@,
            codes,
            i as int,
            heads@[i as int],
        ));
        if heads[i].code == HEAD_CONFIDENCE {
            assert(is_confidence_at(codes, i as int));
            let found = heads.remove(i);
            assert(reads_head(
                cact,
                cfg.num_layers as nat,
                layout.head_tensors@,
                codes,
                i as int,
                found,
            ));
            assert(reads_confidence(
                cact,
                cfg.num_layers as nat,
                layout.head_tensors@,
                codes,
                found,
            ));
            return Ok(Some(found));
        }
        i = i + 1;
    }
    Ok(None)
}

/// What stops the reading of the heads: the first that cannot be read.
pub open spec fn heads_fault(
    cact: &CactV3,
    num_layers: nat,
    tensors: Seq<usize>,
    codes: Seq<u8>,
    e: V3LoadError,
) -> bool {
    exists|i: int| #[trigger]
        first_bad_head(cact, num_layers, tensors, codes, i) && head_fault(
            cact,
            num_layers,
            tensors,
            codes,
            i,
            e,
        )
}

/// Head `i` is the first that cannot be read.
pub open spec fn first_bad_head(
    cact: &CactV3,
    num_layers: nat,
    tensors: Seq<usize>,
    codes: Seq<u8>,
    i: int,
) -> bool {
    &&& 0 <= i < codes.len()
    &&& !head_readable(cact, num_layers, tensors, codes, i)
    &&& forall|k: int|
        0 <= k < i ==> #[trigger] head_readable(cact, num_layers, tensors, codes, k)
}

/// Below full depth a load keeps, of the six lane-mixing tensors, the numbers of
/// the kept blocks: one to a block of the first three, one to a lane of the next
/// two, and one to a pair of lanes of the last.
pub proof fn a_rung_keeps_the_scalars_of_its_blocks(
    parent: &V3Config,
    plan: &RungPlan,
    values: Seq<u32>,
    j: int,
    i: int,
    x: int,
)
    requires
        plan.cfg.num_layers != parent.num_layers,
        scalars_long_enough(parent, plan, values, j),
        0 <= j < 6,
        0 <= i < plan.kept@.len(),
        0 <= x,
        j < 3 ==> x < 1,
        3 <= j < 5 ==> x < parent.mhc_lanes,
        j == 5 ==> x < parent.mhc_lanes * parent.mhc_lanes,
    ensures
        ({
            let lanes = parent.mhc_lanes as int;
            let at = plan.kept@[i] as int;
            let kept = kept_scalars(parent, plan, values, j);
            &&& j < 3 ==> kept[i] == values[at]
            &&& 3 <= j < 5 ==> kept[i * lanes + x] == values[at * lanes + x]
            &&& j == 5 ==> kept[i * (lanes * lanes) + x] == values[at * (lanes * lanes) + x]
        }),
{
    let w = scalar_width(parent.mhc_lanes as nat, j);
    a_cut_keeps_each_element(values, plan.kept@, w, i, x);
    assert(i * 1 == i && plan.kept@[i] * 1 == plan.kept@[i]);
}

/// The heads of a manifest take their tensors in a row, six to a head and seven
/// to a router.
pub proof fn heads_take_their_tensors_in_a_row(codes: Seq<u8>, i: int)
    requires
        0 <= i < codes.len(),
    ensures
        head_start(codes, 0) == 0,
        head_start(codes, i + 1) == head_start(codes, i) + if codes[i] == 3 {
            7nat
        } else {
            6nat
        },
{
}

/// A head that is read has its tensors in a row, as many probes to every cell,
/// one cell more than there are layers, and a gain for every probe.
pub proof fn a_head_multiplies_out(
    cact: &CactV3,
    num_layers: nat,
    tensors: Seq<usize>,
    codes: Seq<u8>,
    i: int,
    h: HeadParts,
)
    requires
        reads_head(cact, num_layers, tensors, codes, i, h),
    ensures
        ({
            let at = head_start(codes, i) as int;
            let probes = cact.directory()[tensors[at] as int].shape[0];
            &&& at + 6 <= tensors.len()
            &&& h.code == codes[i]
            &&& h.slots.probes == tensors[at]
            &&& h.slots.gain == tensors[at + 1]
            &&& h.slots.query == tensors[at + 2]
            &&& h.slots.row_bias == tensors[at + 3]
            &&& h.slots.proj == tensors[at + 4]
            &&& h.slots.bias == tensors[at + 5]
            &&& h.dims.cells == num_layers + 1
            &&& h.dims.probes_per_cell * h.dims.cells == probes
            &&& h.gain@.len() == probes
            &&& h.dims.queries == cact.directory()[tensors[at + 2] as int].shape[0]
            &&& h.dims.out_dim == cact.directory()[tensors[at + 4] as int].shape[0]
        }),
{
    let at = head_start(codes, i) as int;
    let probes = cact.directory()[tensors[at] as int].shape[0] as int;
    let cells = num_layers as int + 1;
    vstd::arithmetic::div_mod::lemma_fundamental_div_mod(probes, cells);
    assert((probes / cells) * cells == cells * (probes / cells)) by (nonlinear_arith);
}

/// A manifest's codes are its whole numbers, cut off at the largest code there
/// is.
pub proof fn a_code_is_a_whole_number(cact: &CactV3, layout: &V3Layout, i: int)
    requires
        layout.head_manifest is Some,
        cact.values_of(layout.head_manifest->0 as int) is Some,
        0 <= i < cact.values_of(layout.head_manifest->0 as int)->0.len(),
    ensures
        ({
            let values = cact.values_of(layout.head_manifest->0 as int)->0;
            let codes = manifest_codes(cact, layout);
            &&& codes is Some
            &&& codes->0.len() == values.len()
            &&& whole_part(values[i]) <= 255 ==> codes->0[i] == whole_part(values[i])
            &&& whole_part(values[i]) >= 255 ==> codes->0[i] == 255
        }),
{
}

} // verus!
