//! The v3 model's bookkeeping: what it checks before it runs, how a prompt is
//! cut into chunks, and where a position's numbers lie.

use vstd::prelude::*;
use crate::v3::config::V3Config;
use crate::v3::rows::row;

verus! {

/// Positions per chunk of a batched prefill.
pub const DEFAULT_CHUNK: usize = 64;

/// Why a model's tensors do not fit its geometry.
#[derive(Debug, Clone, Copy, PartialEq, Eq, Structural)]
pub enum V3ModelError {
    LayerCount,
    EngramSiteCount,
    EmbeddingShape,
}

impl V3ModelError {
    /// The error in words.
    pub fn message(&self) -> (s: &'static str)
        ensures
            s@ == (match self {
                V3ModelError::LayerCount => "layer count does not match geometry"@,
                V3ModelError::EngramSiteCount => "engram site count does not match geometry"@,
                V3ModelError::EmbeddingShape => "embedding shape does not match geometry"@,
            }),
    {
        match self {
            V3ModelError::LayerCount => "layer count does not match geometry",
            V3ModelError::EngramSiteCount => "engram site count does not match geometry",
            V3ModelError::EmbeddingShape => "embedding shape does not match geometry",
        }
    }
}

/// The sizes of the tensors that a model is made of.
#[derive(Debug, Clone, Copy, PartialEq, Eq, Structural)]
pub struct ModelSizes {
    pub layers: usize,
    pub engram_sites: usize,
    pub embedding_rows: usize,
    pub embedding_cols: usize,
}

/// Why the sizes do not fit the geometry, in the order in which it is looked
/// for.
pub open spec fn model_fault(cfg: &V3Config, sizes: ModelSizes) -> Option<V3ModelError> {
    if sizes.layers != cfg.num_layers {
        Some(V3ModelError::LayerCount)
    } else if sizes.engram_sites != cfg.engram.sites@.len() {
        Some(V3ModelError::EngramSiteCount)
    } else if sizes.embedding_rows != cfg.vocab_size || sizes.embedding_cols != cfg.d_model {
        Some(V3ModelError::EmbeddingShape)
    } else {
        None
    }
}

/// Check a model's tensors against its geometry.
pub fn check_model(cfg: &V3Config, sizes: ModelSizes) -> (r: Result<(), V3ModelError>)
    ensures
        match r {
            Ok(_) => model_fault(cfg, sizes) is None,
            Err(e) => model_fault(cfg, sizes) == Some(e),
        },
{
    if sizes.layers != cfg.num_layers {
        return Err(V3ModelError::LayerCount);
    }
    if sizes.engram_sites != cfg.engram.sites.len() {
        return Err(V3ModelError::EngramSiteCount);
    }
    if sizes.embedding_rows != cfg.vocab_size || sizes.embedding_cols != cfg.d_model {
        return Err(V3ModelError::EmbeddingShape);
    }
    Ok(())
}

/// A run of positions.
#[derive(Debug, Clone, Copy, PartialEq, Eq, Structural)]
pub struct Chunk {
    pub start: usize,
    pub len: usize,
}

/// How many positions a chunk of a sequence has.
pub open spec fn chunk_size(seq: nat) -> nat {
    if seq == 0 {
        1
    } else if seq < DEFAULT_CHUNK {
        seq
    } else {
        DEFAULT_CHUNK as nat
    }
}

/// The chunks cover positions 0 to `end`, one after another, each of the full
/// size but the last.
pub open spec fn are_chunks(chunks: Seq<Chunk>, end: int, seq: nat) -> bool {
    &&& forall|i: int|
        0 <= i < chunks.len() ==> (#[trigger] chunks[i]).start == i * chunk_size(seq)
            && chunks[i].len == (if (i + 1) * chunk_size(seq) <= seq {
            chunk_size(seq) as int
        } else {
            seq - i * chunk_size(seq)
        }) && chunks[i].len > 0
    &&& end == (if chunks.len() * chunk_size(seq) <= seq {
        (chunks.len() * chunk_size(seq)) as int
    } else {
        seq as int
    })
}

/// Cut a sequence into chunks.
pub fn chunks(seq: usize) -> (list: Vec<Chunk>)
    ensures
        are_chunks(list@, seq as int, seq as nat),
{
    let size: usize = if seq == 0 {
        1
    } else if seq < DEFAULT_CHUNK {
        seq
    } else {
        DEFAULT_CHUNK
    };
    let mut list: Vec<Chunk> = Vec::new();
    let mut start: usize = 0;
    assert(0 * chunk_size(seq as nat) == 0) by (nonlinear_arith);
    while start < seq
        invariant
            start <= seq,
            size == chunk_size(seq as nat),
            size > 0,
            start < seq ==> start == list@.len() * size,
            are_chunks(list@, start as int, seq as nat),
        decreases seq - start,
    {
        let ghost n = list@.len() as int;
        let len: usize = if seq - start < size {
            seq - start
        } else {
            size
        };
        assert((n + 1) * size == n * size + size) by (nonlinear_arith);
        list.push(Chunk { start, len });
        start = start + len;
    }
    list
}

/// Every position lies in exactly one chunk.
pub proof fn chunks_cover_every_position_once(list: Seq<Chunk>, seq: nat, p: int)
    requires
        are_chunks(list, seq as int, seq),
        0 <= p < seq,
    ensures
        exists|i: int| #[trigger] holds_position(list, i, p),
        forall|i: int, j: int| #[trigger]
            holds_position(list, i, p) && #[trigger] holds_position(list, j, p) ==> i == j,
{
    let size = chunk_size(seq) as int;
    let i = p / size;
    vstd::arithmetic::div_mod::lemma_fundamental_div_mod(p, size);
    let n = list.len() as int;
    assert(0 <= p % size < size) by (nonlinear_arith)
        requires
            size > 0,
    ;
    assert(i >= 0) by (nonlinear_arith)
        requires
            i == p / size,
            p >= 0,
            size > 0,
    ;
    assert(size * i == i * size) by (nonlinear_arith);
    assert((i + 1) * size == i * size + size) by (nonlinear_arith);
    if i >= n {
        assert(n * size <= i * size) by (nonlinear_arith)
            requires
                n <= i,
                size > 0,
        ;
    }
    assert(holds_position(list, i, p));
    assert forall|a: int, b: int| #[trigger] holds_position(list, a, p)
        && #[trigger] holds_position(list, b, p) implies a == b by {
        lemma_positions_part(list, seq, a, b, p);
        lemma_positions_part(list, seq, b, a, p);
    }
}

/// Chunk `i` holds position `p`.
pub open spec fn holds_position(list: Seq<Chunk>, i: int, p: int) -> bool {
    0 <= i < list.len() && list[i].start <= p < list[i].start + list[i].len
}

proof fn lemma_positions_part(list: Seq<Chunk>, seq: nat, a: int, b: int, p: int)
    requires
        are_chunks(list, seq as int, seq),
        holds_position(list, a, p),
        holds_position(list, b, p),
    ensures
        a <= b,
{
    let size = chunk_size(seq) as int;
    if b < a {
        assert((b + 1) * size <= a * size) by (nonlinear_arith)
            requires
                b + 1 <= a,
                size > 0,
        ;
        assert((b + 1) * size == b * size + size) by (nonlinear_arith);
    }
}

/// The last position's scores out of all positions'.
pub fn last_scores<T: Copy>(all: &[T], rows: usize, seq: usize) -> (scores: Vec<T>)
    requires
        seq > 0,
        all@.len() == seq * rows,
    ensures
        scores@ == row(all@, seq - 1, rows as nat),
{
    let total: usize = all.len();
    let mut scores: Vec<T> = Vec::new();
    assert((seq - 1) * rows == seq * rows - rows) by (nonlinear_arith);
    assert((seq - 1) * rows >= 0) by (nonlinear_arith)
        requires
            seq >= 1,
    ;
    let from: usize = total - rows;
    let mut i: usize = from;
    while i < total
        invariant
            from <= i <= total == all@.len(),
            scores@ == all@.subrange(from as int, i as int),
        decreases total - i,
    {
        scores.push(all[i]);
        i = i + 1;
        assert(scores@ =~= all@.subrange(from as int, i as int));
    }
    scores
}

/// A sequence of up to sixty-four positions is one chunk; a longer one is cut
/// into chunks of sixty-four.
pub proof fn a_chunk_holds_sixty_four(seq: nat)
    ensures
        0 < seq <= 64 ==> chunk_size(seq) == seq,
        64 <= seq ==> chunk_size(seq) == 64,
        chunk_size(0) == 1,
{
}

/// A model fits its geometry exactly where it has a block for every layer, a
/// memory for every site, and an embedding row of the model's width for every
/// token.
pub proof fn a_model_fits_where_its_sizes_agree(cfg: &V3Config, sizes: ModelSizes)
    ensures
        model_fault(cfg, sizes) is None <==> {
            &&& sizes.layers == cfg.num_layers
            &&& sizes.engram_sites == cfg.engram.sites@.len()
            &&& sizes.embedding_rows == cfg.vocab_size
            &&& sizes.embedding_cols == cfg.d_model
        },
        model_fault(cfg, sizes) == Some(V3ModelError::LayerCount) <==> sizes.layers
            != cfg.num_layers,
        model_fault(cfg, sizes) == Some(V3ModelError::EngramSiteCount) ==> sizes.engram_sites
            != cfg.engram.sites@.len(),
        model_fault(cfg, sizes) == Some(V3ModelError::EmbeddingShape) ==> sizes.embedding_rows
            != cfg.vocab_size || sizes.embedding_cols != cfg.d_model,
{
}

} // verus!
