//! Ladder rungs, sliced at load.
//!
//! One container serves every depth: the kept blocks are renumbered
//! contiguously, the lane matrices are cut row by row, and the Engram tables
//! of surviving sites are kept whole. Nothing is re-quantised.

use vstd::prelude::*;
use crate::lists::{first_at, first_at_is_first, holds, position};
use crate::v3::config::V3Config;
use crate::v3::container::{CactError, Record, V3GeometryError};
use crate::v3::ladder::{
    full_depth_keeps_every_block,
    ladder_layer_indices,
    rung,
    rung_is_rung,
};
use crate::v3::layout::{
    canon_len,
    checks_len,
    layout_answer,
    shape_ok,
    widths_fit,
    V3Layout,
    V3LayoutError,
};
use crate::v3::rows::{block_rows, rows_of_blocks};

verus! {

/// Anything that can go wrong turning a container into a model.
#[derive(Debug)]
pub enum V3LoadError {
    Cact(CactError),
    Geometry(V3GeometryError),
    Layout(V3LayoutError),
    EmptyScalar(&'static str),
    Shape(&'static str),
}

impl From<CactError> for V3LoadError {
    fn from(e: CactError) -> (r: Self) {
        V3LoadError::Cact(e)
    }
}

impl vstd::std_specs::convert::FromSpecImpl<CactError> for V3LoadError {
    open spec fn obeys_from_spec() -> bool {
        true
    }

    open spec fn from_spec(e: CactError) -> Self {
        V3LoadError::Cact(e)
    }
}

impl From<V3GeometryError> for V3LoadError {
    fn from(e: V3GeometryError) -> (r: Self) {
        V3LoadError::Geometry(e)
    }
}

impl vstd::std_specs::convert::FromSpecImpl<V3GeometryError> for V3LoadError {
    open spec fn obeys_from_spec() -> bool {
        true
    }

    open spec fn from_spec(e: V3GeometryError) -> Self {
        V3LoadError::Geometry(e)
    }
}

impl From<V3LayoutError> for V3LoadError {
    fn from(e: V3LayoutError) -> (r: Self) {
        V3LoadError::Layout(e)
    }
}

impl vstd::std_specs::convert::FromSpecImpl<V3LayoutError> for V3LoadError {
    open spec fn obeys_from_spec() -> bool {
        true
    }

    open spec fn from_spec(e: V3LayoutError) -> Self {
        V3LoadError::Layout(e)
    }
}

/// The layers of `list` that are kept, each by its number in the sliced stack.
pub open spec fn renumber(list: Seq<usize>, kept: Seq<usize>) -> Seq<usize>
    decreases list.len(),
{
    if list.len() == 0 {
        Seq::empty()
    } else {
        let before = renumber(list.drop_last(), kept);
        match first_at(kept, list.last()) {
            Some(i) => before.push(i as usize),
            None => before,
        }
    }
}

/// Which entries of `list` are kept, by their position in `list`.
pub open spec fn survivors(list: Seq<usize>, kept: Seq<usize>) -> Seq<usize>
    decreases list.len(),
{
    if list.len() == 0 {
        Seq::empty()
    } else {
        let before = survivors(list.drop_last(), kept);
        if kept.contains(list.last()) {
            before.push((list.len() - 1) as usize)
        } else {
            before
        }
    }
}

/// As many layers are renumbered as survive: an Engram site survives exactly
/// when its block does.
pub proof fn a_site_survives_with_its_block(list: Seq<usize>, kept: Seq<usize>)
    requires
        list.len() <= usize::MAX,
        kept.len() <= usize::MAX,
    ensures
        renumber(list, kept).len() == survivors(list, kept).len(),
        forall|i: int|
            0 <= i < survivors(list, kept).len() ==> {
                let s = #[trigger] survivors(list, kept)[i];
                &&& s < list.len()
                &&& kept.contains(list[s as int])
                &&& 0 <= renumber(list, kept)[i] < kept.len()
                &&& kept[renumber(list, kept)[i] as int] == list[s as int]
            },
        forall|s: int|
            0 <= s < list.len() && kept.contains(#[trigger] list[s]) ==> survivors(
                list,
                kept,
            ).contains(s as usize),
    decreases list.len(),
{
    if list.len() > 0 {
        let shorter = list.drop_last();
        a_site_survives_with_its_block(shorter, kept);
        first_at_is_first(kept, list.last());
        let old_sites = survivors(shorter, kept);
        let all_sites = survivors(list, kept);
        assert forall|s: int| 0 <= s < list.len() && kept.contains(#[trigger] list[s]) implies all_sites.contains(
            s as usize,
        ) by {
            if s < list.len() - 1 {
                assert(shorter[s] == list[s]);
                assert(old_sites.contains(s as usize));
                let k = choose|k: int| 0 <= k < old_sites.len() && old_sites[k] == s as usize;
                assert(all_sites[k] == s as usize);
            } else {
                assert(all_sites[old_sites.len() as int] == s as usize);
            }
        }
        assert forall|i: int| 0 <= i < all_sites.len() implies {
            let s = #[trigger] all_sites[i];
            &&& s < list.len()
            &&& kept.contains(list[s as int])
            &&& 0 <= renumber(list, kept)[i] < kept.len()
            &&& kept[renumber(list, kept)[i] as int] == list[s as int]
        } by {
            if i < old_sites.len() {
                assert(old_sites[i] == all_sites[i]);
                assert(renumber(shorter, kept)[i] == renumber(list, kept)[i]);
                assert(shorter[old_sites[i] as int] == list[old_sites[i] as int]);
            }
        }
    }
}

/// Renumbering in an unsliced stack changes nothing.
pub proof fn renumber_of_everything_is_identity(list: Seq<usize>, n: nat, kept: Seq<usize>)
    requires
        kept.len() == n <= usize::MAX,
        forall|i: int| 0 <= i < n ==> kept[i] == i,
        forall|i: int| 0 <= i < list.len() ==> list[i] < n,
    ensures
        renumber(list, kept) == list,
    decreases list.len(),
{
    if list.len() > 0 {
        let last = list.last();
        assert(list[list.len() - 1] < n);
        renumber_of_everything_is_identity(list.drop_last(), n, kept);
        first_at_is_first(kept, last);
        assert(kept[last as int] == last);
        assert(kept.contains(last));
        assert(renumber(list, kept) =~= list);
    } else {
        assert(renumber(list, kept) =~= list);
    }
}

fn renumbered(list: &[usize], kept: &[usize]) -> (out: Vec<usize>)
    ensures
        out@ == renumber(list@, kept@),
{
    let mut out: Vec<usize> = Vec::new();
    let mut i: usize = 0;
    while i < list.len()
        invariant
            i <= list@.len(),
            out@ == renumber(list@.take(i as int), kept@),
        decreases list.len() - i,
    {
        proof {
            assert(list@.take(i + 1).drop_last() =~= list@.take(i as int));
            assert(list@.take(i + 1).last() == list@[i as int]);
        }
        match position(kept, list[i]) {
            Some(r) => {
                out.push(r);
            },
            None => {},
        }
        i = i + 1;
    }
    assert(list@.take(i as int) =~= list@);
    out
}

fn surviving(list: &[usize], kept: &[usize]) -> (out: Vec<usize>)
    ensures
        out@ == survivors(list@, kept@),
{
    let mut out: Vec<usize> = Vec::new();
    let mut i: usize = 0;
    while i < list.len()
        invariant
            i <= list@.len(),
            out@ == survivors(list@.take(i as int), kept@),
        decreases list.len() - i,
    {
        proof {
            assert(list@.take(i + 1).drop_last() =~= list@.take(i as int));
            assert(list@.take(i + 1).last() == list@[i as int]);
        }
        if holds(kept, list[i]) {
            out.push(i);
        }
        i = i + 1;
    }
    assert(list@.take(i as int) =~= list@);
    out
}

/// `cfg` is what the rung `kept` of `parent` declares.
pub open spec fn is_sliced(cfg: &V3Config, parent: &V3Config, kept: Seq<usize>) -> bool {
    &&& cfg.same_but_depth(parent)
    &&& cfg.num_layers == kept.len()
    &&& cfg.global_layers@ == renumber(parent.global_layers@, kept)
    &&& cfg.engram.sites@ == renumber(parent.engram.sites@, kept)
}

/// The config a rung of `depth` declares, derived from its parent's.
///
/// The kept blocks are renumbered contiguously, and the global-attention
/// layers and Engram sites follow them.
pub fn config_at_depth(parent: &V3Config, depth: usize) -> (cfg: Option<V3Config>)
    ensures
        match cfg {
            Some(c) => 2 <= depth <= parent.num_layers && c.num_layers == depth && is_sliced(
                &c,
                parent,
                rung(parent.num_layers as nat, depth as nat),
            ),
            None => !(2 <= depth <= parent.num_layers),
        },
{
    match ladder_layer_indices(parent.num_layers, depth) {
        Some(kept) => {
            let mut cfg = parent.clone();
            cfg.num_layers = depth;
            cfg.global_layers = renumbered(&parent.global_layers, &kept);
            cfg.engram.sites = renumbered(&parent.engram.sites, &kept);
            Some(cfg)
        },
        None => None,
    }
}

/// A block of the sliced stack attends globally exactly when the block it was
/// cut from does.
pub proof fn slicing_keeps_attention(parent: &V3Config, cfg: &V3Config, depth: nat, i: int)
    requires
        2 <= depth <= parent.num_layers,
        is_sliced(cfg, parent, rung(parent.num_layers as nat, depth)),
        0 <= i < depth,
        parent.global_layers@.len() <= usize::MAX,
    ensures
        cfg.global(i as usize) <==> parent.global(
            rung(parent.num_layers as nat, depth)[i],
        ),
        cfg.span_of(i as usize) == parent.span_of(rung(parent.num_layers as nat, depth)[i]),
{
    let n = parent.num_layers as nat;
    let kept = rung(n, depth);
    rung_is_rung(n, depth);
    let list = parent.global_layers@;
    a_site_survives_with_its_block(list, kept);
    let out = renumber(list, kept);
    let from = survivors(list, kept);
    if cfg.global(i as usize) {
        let k = choose|k: int| 0 <= k < out.len() && out[k] == i as usize;
        let s = from[k];
        assert(list[s as int] == kept[i]);
    }
    if parent.global(kept[i]) {
        let s = choose|s: int| 0 <= s < list.len() && list[s] == kept[i];
        assert(kept.contains(list[s]));
        assert(from.contains(s as usize));
        let k = choose|k: int| 0 <= k < from.len() && from[k] == s as usize;
        let r = out[k] as int;
        assert(kept[r] == kept[i]);
        if r < i {
            assert(kept[r] < kept[i]);
        } else if i < r {
            assert(kept[i] < kept[r]);
        }
        assert(out[k] == i as usize);
    }
}

/// At full depth the sliced geometry is the parent's, as long as the parent
/// names only layers it has.
pub proof fn full_depth_is_the_parent(parent: &V3Config, cfg: &V3Config)
    requires
        2 <= parent.num_layers,
        is_sliced(cfg, parent, rung(parent.num_layers as nat, parent.num_layers as nat)),
        forall|i: int|
            0 <= i < parent.global_layers@.len() ==> parent.global_layers@[i] < parent.num_layers,
        forall|i: int|
            0 <= i < parent.engram.sites@.len() ==> parent.engram.sites@[i] < parent.num_layers,
    ensures
        cfg.same_as(parent),
{
    let n = parent.num_layers as nat;
    full_depth_keeps_every_block(n);
    renumber_of_everything_is_identity(parent.global_layers@, n, rung(n, n));
    renumber_of_everything_is_identity(parent.engram.sites@, n, rung(n, n));
}

/// Which tensors, rows and sites of a container make up one rung.
#[derive(Debug)]
pub struct RungPlan {
    /// Geometry of the rung.
    pub cfg: V3Config,
    /// Directory slots of the whole container.
    pub layout: V3Layout,
    /// Blocks that are read, in ascending order.
    pub kept: Vec<usize>,
    /// Rows of the lane matrices that carry `lanes` rows per block.
    pub lane_rows: Vec<usize>,
    /// Rows of the lane matrix that carries `lanes` squared rows per block.
    pub lane_sq_rows: Vec<usize>,
    /// Engram sites that survive, by their number in the container.
    pub sites: Vec<usize>,
}

/// The blocks a load at `depth` reads from a stack of `n`.
pub open spec fn loaded_blocks(n: nat, depth: nat) -> Seq<usize> {
    if depth == n {
        Seq::new(n, |i: int| i as usize)
    } else {
        rung(n, depth)
    }
}

impl RungPlan {
    /// The plan reads exactly the rung of `depth`.
    pub open spec fn reads_rung(
        &self,
        parent: &V3Config,
        records: Seq<Record>,
        depth: nat,
    ) -> bool {
        let blocks = loaded_blocks(parent.num_layers as nat, depth);
        let lanes = parent.mhc_lanes as nat;
        &&& self.kept@ == blocks
        &&& self.cfg.num_layers == depth
        &&& if depth == parent.num_layers {
            self.cfg.same_as(parent)
        } else {
            is_sliced(&self.cfg, parent, blocks)
        }
        &&& self.layout.follows_canon(parent, records)
        &&& self.lane_rows@ == block_rows(blocks, lanes)
        &&& self.lane_sq_rows@ == block_rows(blocks, lanes * lanes)
        &&& self.sites@ == if depth == parent.num_layers {
            Seq::new(parent.engram.sites@.len(), |i: int| i as usize)
        } else {
            survivors(parent.engram.sites@, blocks)
        }
        &&& self.sites@.len() == self.cfg.engram.sites@.len()
    }
}

fn count_up(n: usize) -> (all: Vec<usize>)
    ensures
        all@ == Seq::new(n as nat, |i: int| i as usize),
{
    let mut all: Vec<usize> = Vec::new();
    let mut i: usize = 0;
    while i < n
        invariant
            i <= n,
            all@ == Seq::new(i as nat, |i: int| i as usize),
        decreases n - i,
    {
        all.push(i);
        i = i + 1;
        assert(all@ =~= Seq::new(i as nat, |i: int| i as usize));
    }
    all
}

/// Plan the load of the `depth`-block rung of a full-depth container.
///
/// At full depth the plan is the whole container. Below it, a block's lane is
/// its number in the sliced stack modulo the lanes, so a kept block generally
/// moves lane.
pub fn plan_rung(parent: &V3Config, records: &[Record], depth: usize) -> (r: Result<
    RungPlan,
    V3LoadError,
>)
    requires
        widths_fit(parent),
        records@.len() < usize::MAX,
        parent.num_layers as nat * (parent.mhc_lanes as nat * parent.mhc_lanes as nat)
            <= usize::MAX,
        parent.mhc_lanes as nat * parent.mhc_lanes as nat <= usize::MAX,
    ensures
        match r {
            Ok(plan) => {
                &&& depth == parent.num_layers || 2 <= depth <= parent.num_layers
                &&& canon_len(parent) <= records@.len()
                &&& forall|k: int|
                    0 <= k < checks_len(parent) ==> #[trigger] shape_ok(parent, records@, k)
                &&& plan.reads_rung(parent, records@, depth as nat)
            },
            Err(V3LoadError::Shape(what)) => {
                &&& what@ == "depth is outside the ladder"@
                &&& depth != parent.num_layers
                &&& !(2 <= depth <= parent.num_layers)
            },
            Err(V3LoadError::Layout(e)) => {
                &&& depth == parent.num_layers || 2 <= depth <= parent.num_layers
                &&& layout_answer(parent, records@, Err(e))
            },
            Err(_) => false,
        },
{
    let n: usize = parent.num_layers;
    let full: bool = depth == n;
    let (kept, cfg) = if full {
        (count_up(n), parent.clone())
    } else {
        match ladder_layer_indices(n, depth) {
            Some(kept) => match config_at_depth(parent, depth) {
                Some(cfg) => (kept, cfg),
                None => {
                    return Err(V3LoadError::Shape("depth is outside the ladder"));
                },
            },
            None => {
                return Err(V3LoadError::Shape("depth is outside the ladder"));
            },
        }
    };
    let layout = match V3Layout::derive(parent, records) {
        Ok(l) => l,
        Err(e) => {
            return Err(V3LoadError::Layout(e));
        },
    };
    let lanes: usize = parent.mhc_lanes;
    let squared: usize = lanes * lanes;
    proof {
        assert forall|i: int| 0 <= i < kept@.len() implies (#[trigger] kept@[i] + 1) * lanes
            <= usize::MAX by {
            let k = kept@[i] as int + 1;
            let nn = n as int;
            let l = lanes as int;
            assert(k * l <= nn * (l * l)) by (nonlinear_arith)
                requires
                    0 <= k <= nn,
                    0 <= l,
            ;
        }
        assert forall|i: int| 0 <= i < kept@.len() implies (#[trigger] kept@[i] + 1) * squared
            <= usize::MAX by {
            let k = kept@[i] as int + 1;
            let nn = n as int;
            let l = squared as int;
            assert(k * l <= nn * l) by (nonlinear_arith)
                requires
                    0 <= k <= nn,
                    0 <= l,
            ;
        }
        a_site_survives_with_its_block(parent.engram.sites@, kept@);
    }
    let lane_rows = rows_of_blocks(&kept, lanes);
    let lane_sq_rows = rows_of_blocks(&kept, squared);
    let sites = if full {
        count_up(parent.engram.sites.len())
    } else {
        surviving(&parent.engram.sites, &kept)
    };
    Ok(RungPlan { cfg, layout, kept, lane_rows, lane_sq_rows, sites })
}

} // verus!
