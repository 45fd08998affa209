//! Needle 3 probe heads: which tensors make one up, and how a rung cuts it.
//!
//! A probe head reads one cell per layer plus one for the input embedding, so
//! a shallower rung keeps the cells of its blocks and drops the others.

use vstd::prelude::*;
use crate::v3::container::Record;
use crate::v3::ladder::{ladder_layer_indices, rung};
use crate::v3::rows::{lemma_rows_len, rows_of, take_rows};
use crate::v3::slice::V3LoadError;

verus! {

/// Head codes in the head manifest.
pub const HEAD_EMBEDDING: u8 = 1;

pub const HEAD_CONFIDENCE: u8 = 2;

pub const HEAD_ROUTER: u8 = 3;

/// Directory indices of one head's tensors.
#[derive(Debug, Clone, Copy, PartialEq, Eq)]
pub struct V3HeadIdx {
    pub probes: usize,
    pub gain: usize,
    pub query: usize,
    pub row_bias: usize,
    pub proj: usize,
    pub bias: usize,
}

/// Tensors the head `code` occupies: six, and one more for the router.
pub open spec fn tensors_of_head(code: u8) -> nat {
    if code == HEAD_ROUTER {
        7
    } else {
        6
    }
}

/// Claim the tensors of the head `code` from the positional list, starting at
/// `at`. Returns the head and where the next one starts.
pub fn take_head(tensors: &[usize], at: usize, code: u8) -> (r: Result<
    (V3HeadIdx, usize),
    V3LoadError,
>)
    requires
        at <= tensors@.len(),
    ensures
        match r {
            Ok((h, next)) => {
                &&& at + tensors_of_head(code) <= tensors@.len()
                &&& next == at + tensors_of_head(code)
                &&& h.probes == tensors@[at as int]
                &&& h.gain == tensors@[at + 1]
                &&& h.query == tensors@[at + 2]
                &&& h.row_bias == tensors@[at + 3]
                &&& h.proj == tensors@[at + 4]
                &&& h.bias == tensors@[at + 5]
            },
            Err(V3LoadError::Shape(what)) => {
                &&& at + tensors_of_head(code) > tensors@.len()
                &&& what@ == "head tensors ran out"@
            },
            Err(_) => false,
        },
{
    let need: usize = if code == HEAD_ROUTER {
        7
    } else {
        6
    };
    if tensors.len() - at < need {
        return Err(V3LoadError::Shape("head tensors ran out"));
    }
    let h = V3HeadIdx {
        probes: tensors[at],
        gain: tensors[at + 1],
        query: tensors[at + 2],
        row_bias: tensors[at + 3],
        proj: tensors[at + 4],
        bias: tensors[at + 5],
    };
    Ok((h, at + need))
}

/// Sizes of one head.
#[derive(Debug, Clone, Copy, PartialEq, Eq)]
pub struct HeadDims {
    pub cells: usize,
    pub probes_per_cell: usize,
    pub queries: usize,
    pub out_dim: usize,
}

/// Read a head's sizes off its directory records.
///
/// There is one cell per layer plus one for the input embedding. The probes
/// are stored as `cells * probes` rows, so the count per cell follows, and the
/// gain vector, which has the same product of entries, cross-checks it.
pub fn head_dims(h: &V3HeadIdx, records: &[Record], gain_len: usize, num_layers: usize) -> (r:
    Result<HeadDims, V3LoadError>)
    requires
        num_layers < usize::MAX,
        h.probes < records@.len(),
        h.query < records@.len(),
        h.proj < records@.len(),
    ensures
        ({
            let rows = records@[h.probes as int].shape[0];
            let cells = num_layers + 1;
            match r {
                Ok(d) => {
                    &&& rows as int % cells == 0
                    &&& gain_len == rows
                    &&& d.cells == cells
                    &&& d.probes_per_cell == rows as int / cells
                    &&& d.queries == records@[h.query as int].shape[0]
                    &&& d.out_dim == records@[h.proj as int].shape[0]
                },
                Err(V3LoadError::Shape(what)) => {
                    &&& rows as int % cells != 0 || gain_len != rows
                    &&& what@ == "probe head shapes disagree with num_layers + 1 cells"@
                },
                Err(_) => false,
            }
        }),
{
    let rows: usize = records[h.probes].shape[0];
    let cells: usize = num_layers + 1;
    if rows % cells != 0 || gain_len != rows {
        return Err(V3LoadError::Shape("probe head shapes disagree with num_layers + 1 cells"));
    }
    Ok(
        HeadDims {
            cells,
            probes_per_cell: rows / cells,
            queries: records[h.query].shape[0],
            out_dim: records[h.proj].shape[0],
        },
    )
}

/// One probe head's weights, flat and row-major.
pub struct ProbeHead<T> {
    /// `(cells * probes, d_model)`.
    pub probes: Vec<T>,
    /// `(cells, probes)`.
    pub gain: Vec<T>,
    /// `(queries, d_model)`.
    pub query: Vec<T>,
    /// `(queries, cells, probes)`.
    pub row_bias: Vec<T>,
    /// `(out_dim, queries * d_model)`.
    pub proj: Vec<T>,
    /// `(out_dim)`.
    pub bias: Vec<T>,
    pub cells: usize,
    pub probes_per_cell: usize,
    pub queries: usize,
    pub out_dim: usize,
}

/// The cells a rung keeps: the input embedding's, and one per kept block.
pub open spec fn kept_cells(kept: Seq<usize>) -> Seq<usize> {
    Seq::new(
        kept.len() + 1,
        |c: int|
            if c == 0 {
                0usize
            } else {
                (kept[c - 1] + 1) as usize
            },
    )
}

/// The kept cells of every query, as rows of the `(queries, cells)` table.
pub open spec fn query_cells(queries: nat, cells: nat, kept: Seq<usize>) -> Seq<usize>
    decreases queries,
{
    if queries == 0 {
        Seq::empty()
    } else {
        query_cells((queries - 1) as nat, cells, kept) + Seq::new(
            kept.len(),
            |c: int| ((queries - 1) * cells + kept[c]) as usize,
        )
    }
}

impl<T> ProbeHead<T> {
    /// The buffers are as long as the sizes say.
    pub open spec fn wf(&self, d_model: nat) -> bool {
        &&& self.probes@.len() == self.cells as nat * (self.probes_per_cell as nat * d_model)
        &&& self.gain@.len() == self.cells as nat * self.probes_per_cell as nat
        &&& self.row_bias@.len() == (self.queries as nat * self.cells as nat)
            * self.probes_per_cell as nat
        &&& self.queries as nat * self.cells as nat <= usize::MAX
        &&& self.probes_per_cell as nat * d_model <= usize::MAX
    }

    /// Whether the buffers are as long as the sizes say.
    pub fn is_whole(&self, d_model: usize) -> (yes: bool)
        ensures
            yes == self.wf(d_model as nat),
    {
        let wide: usize = match self.probes_per_cell.checked_mul(d_model) {
            Some(w) => w,
            None => {
                return false;
            },
        };
        let rows: usize = match self.queries.checked_mul(self.cells) {
            Some(r) => r,
            None => {
                return false;
            },
        };
        fills(self.probes.len(), self.cells, wide) && fills(
            self.gain.len(),
            self.cells,
            self.probes_per_cell,
        ) && fills(self.row_bias.len(), rows, self.probes_per_cell)
    }
}

fn fills(len: usize, rows: usize, width: usize) -> (yes: bool)
    ensures
        yes == (len == rows as nat * width as nat),
{
    match rows.checked_mul(width) {
        Some(n) => len == n,
        None => false,
    }
}

fn cell_rows(kept: &[usize]) -> (cells: Vec<usize>)
    requires
        forall|i: int| 0 <= i < kept@.len() ==> kept@[i] < usize::MAX,
    ensures
        cells@ == kept_cells(kept@),
{
    let mut cells: Vec<usize> = Vec::new();
    cells.push(0);
    let mut i: usize = 0;
    while i < kept.len()
        invariant
            i <= kept@.len(),
            forall|i: int| 0 <= i < kept@.len() ==> kept@[i] < usize::MAX,
            cells@ == kept_cells(kept@).take(i + 1),
        decreases kept.len() - i,
    {
        cells.push(kept[i] + 1);
        i = i + 1;
        assert(cells@ =~= kept_cells(kept@).take(i + 1));
    }
    assert(cells@ =~= kept_cells(kept@));
    cells
}

fn query_cell_rows(queries: usize, cells: usize, kept: &[usize]) -> (rows: Vec<usize>)
    requires
        queries as nat * cells as nat <= usize::MAX,
        forall|i: int| 0 <= i < kept@.len() ==> kept@[i] < cells,
    ensures
        rows@ == query_cells(queries as nat, cells as nat, kept@),
        forall|i: int| 0 <= i < rows@.len() ==> rows@[i] < queries as nat * cells as nat,
{
    let mut rows: Vec<usize> = Vec::new();
    let mut q: usize = 0;
    while q < queries
        invariant
            q <= queries,
            queries as nat * cells as nat <= usize::MAX,
            forall|i: int| 0 <= i < kept@.len() ==> kept@[i] < cells,
            rows@ == query_cells(q as nat, cells as nat, kept@),
            forall|i: int| 0 <= i < rows@.len() ==> rows@[i] < queries as nat * cells as nat,
        decreases queries - q,
    {
        proof {
            assert((q + 1) * cells == q * cells + cells) by (nonlinear_arith);
            assert((q + 1) * cells <= queries * cells) by (nonlinear_arith)
                requires
                    q + 1 <= queries,
            ;
            assert(q * cells >= 0) by (nonlinear_arith);
        }
        let base: usize = q * cells;
        let ghost before = rows@;
        let mut c: usize = 0;
        while c < kept.len()
            invariant
                c <= kept@.len(),
                base == q * cells,
                base + cells <= queries as nat * cells as nat <= usize::MAX,
                forall|i: int| 0 <= i < kept@.len() ==> kept@[i] < cells,
                rows@ == before + Seq::new(c as nat, |c: int| (q * cells + kept@[c]) as usize),
                forall|i: int| 0 <= i < rows@.len() ==> rows@[i] < queries as nat * cells as nat,
            decreases kept.len() - c,
        {
            rows.push(base + kept[c]);
            c = c + 1;
            assert(rows@ =~= before + Seq::new(
                c as nat,
                |c: int| (q * cells + kept@[c]) as usize,
            ));
        }
        q = q + 1;
        assert(rows@ =~= query_cells(q as nat, cells as nat, kept@));
    }
    rows
}

impl<T: Copy> ProbeHead<T> {
    /// Cut the head down to a rung.
    ///
    /// Probes, gain and the cell axis of the row bias follow the kept cells;
    /// query, projection and bias are shared across depths.
    pub fn at_rung(self, kept: &[usize], d_model: usize) -> (cut: ProbeHead<T>)
        requires
            self.wf(d_model as nat),
            self.cells > 0,
            forall|i: int| 0 <= i < kept@.len() ==> kept@[i] + 1 < self.cells,
            kept@.len() < usize::MAX,
        ensures
            ({
                let cells = kept_cells(kept@);
                let k = self.probes_per_cell as nat;
                &&& cut.probes@ == rows_of(self.probes@, cells, k * d_model as nat)
                &&& cut.gain@ == rows_of(self.gain@, cells, k)
                &&& cut.row_bias@ == rows_of(
                    self.row_bias@,
                    query_cells(self.queries as nat, self.cells as nat, cells),
                    k,
                )
                &&& cut.query@ == self.query@
                &&& cut.proj@ == self.proj@
                &&& cut.bias@ == self.bias@
                &&& cut.cells == kept@.len() + 1
                &&& cut.probes_per_cell == self.probes_per_cell
                &&& cut.queries == self.queries
                &&& cut.out_dim == self.out_dim
            }),
    {
        let cells = cell_rows(kept);
        let k: usize = self.probes_per_cell;
        let wide: usize = k * d_model;
        let rows = query_cell_rows(self.queries, self.cells, &cells);
        proof {
            let n = self.cells as int;
            assert forall|i: int| 0 <= i < cells@.len() implies (#[trigger] cells@[i] + 1) * wide
                <= self.probes@.len() by {
                let c = cells@[i] as int + 1;
                let w = wide as int;
                assert(c * w <= n * w) by (nonlinear_arith)
                    requires
                        0 <= c <= n,
                        0 <= w,
                ;
            }
            assert forall|i: int| 0 <= i < cells@.len() implies (#[trigger] cells@[i] + 1) * k
                <= self.gain@.len() by {
                let c = cells@[i] as int + 1;
                let w = k as int;
                assert(c * w <= n * w) by (nonlinear_arith)
                    requires
                        0 <= c <= n,
                        0 <= w,
                ;
            }
            let all = self.queries as int * n;
            assert forall|i: int| 0 <= i < rows@.len() implies (#[trigger] rows@[i] + 1) * k
                <= self.row_bias@.len() by {
                let c = rows@[i] as int + 1;
                let w = k as int;
                assert(c * w <= all * w) by (nonlinear_arith)
                    requires
                        0 <= c <= all,
                        0 <= w,
                ;
            }
        }
        let probes = take_rows(&self.probes, &cells, wide);
        let gain = take_rows(&self.gain, &cells, k);
        let row_bias = take_rows(&self.row_bias, &rows, k);
        ProbeHead {
            probes,
            gain,
            query: self.query,
            row_bias,
            proj: self.proj,
            bias: self.bias,
            cells: cells.len(),
            probes_per_cell: self.probes_per_cell,
            queries: self.queries,
            out_dim: self.out_dim,
        }
    }

    /// The head of a `depth`-block rung of a stack of `num_layers` blocks.
    ///
    /// At full depth the head is handed back whole. A depth outside the ladder
    /// is refused.
    pub fn at_depth(self, num_layers: usize, d_model: usize, depth: usize) -> (r: Result<
        ProbeHead<T>,
        V3LoadError,
    >)
        requires
            self.wf(d_model as nat),
            num_layers < usize::MAX,
            self.cells == num_layers + 1,
        ensures
            match r {
                Ok(cut) => {
                    &&& depth == num_layers || 2 <= depth <= num_layers
                    &&& depth == num_layers ==> cut == self
                    &&& depth != num_layers ==> {
                        let cells = kept_cells(rung(num_layers as nat, depth as nat));
                        let k = self.probes_per_cell as nat;
                        &&& cut.probes@ == rows_of(self.probes@, cells, k * d_model as nat)
                        &&& cut.gain@ == rows_of(self.gain@, cells, k)
                        &&& cut.row_bias@ == rows_of(
                            self.row_bias@,
                            query_cells(self.queries as nat, self.cells as nat, cells),
                            k,
                        )
                        &&& cut.query@ == self.query@
                        &&& cut.proj@ == self.proj@
                        &&& cut.bias@ == self.bias@
                        &&& cut.cells == depth + 1
                        &&& cut.probes_per_cell == self.probes_per_cell
                        &&& cut.queries == self.queries
                        &&& cut.out_dim == self.out_dim
                    }
                },
                Err(V3LoadError::Shape(what)) => {
                    &&& depth != num_layers
                    &&& !(2 <= depth <= num_layers)
                    &&& what@ == "depth is outside the ladder"@
                },
                Err(_) => false,
            },
    {
        if depth == num_layers {
            return Ok(self);
        }
        match ladder_layer_indices(num_layers, depth) {
            Some(kept) => Ok(self.at_rung(&kept, d_model)),
            None => Err(V3LoadError::Shape("depth is outside the ladder")),
        }
    }
}

/// A cut head is as well-formed as the head it was cut from.
pub proof fn cutting_keeps_a_head_well_formed<T>(
    head: ProbeHead<T>,
    cut: ProbeHead<T>,
    kept: Seq<usize>,
    d_model: nat,
)
    requires
        head.wf(d_model),
        head.cells > 0,
        forall|i: int| 0 <= i < kept.len() ==> kept[i] + 1 < head.cells,
        kept.len() + 1 <= head.cells,
        cut.cells == kept.len() + 1,
        cut.probes_per_cell == head.probes_per_cell,
        cut.queries == head.queries,
        cut.probes@ == rows_of(
            head.probes@,
            kept_cells(kept),
            head.probes_per_cell as nat * d_model,
        ),
        cut.gain@ == rows_of(head.gain@, kept_cells(kept), head.probes_per_cell as nat),
        cut.row_bias@ == rows_of(
            head.row_bias@,
            query_cells(head.queries as nat, head.cells as nat, kept_cells(kept)),
            head.probes_per_cell as nat,
        ),
    ensures
        cut.wf(d_model),
{
    let cells = kept_cells(kept);
    let n = head.cells as int;
    let k = head.probes_per_cell as int;
    let q = head.queries as int;
    let wide = head.probes_per_cell as nat * d_model;
    assert forall|i: int| 0 <= i < cells.len() implies (#[trigger] cells[i] + 1) * wide
        <= head.probes@.len() by {
        let c = cells[i] as int + 1;
        let w = wide as int;
        assert(c * w <= n * w) by (nonlinear_arith)
            requires
                0 <= c <= n,
                0 <= w,
        ;
    }
    lemma_rows_len(head.probes@, cells, wide);
    assert forall|i: int| 0 <= i < cells.len() implies (#[trigger] cells[i] + 1) * (k as nat)
        <= head.gain@.len() by {
        let c = cells[i] as int + 1;
        assert(c * k <= n * k) by (nonlinear_arith)
            requires
                0 <= c <= n,
                0 <= k,
        ;
    }
    lemma_rows_len(head.gain@, cells, k as nat);
    lemma_query_cells(q as nat, n as nat, cells);
    let rows = query_cells(q as nat, n as nat, cells);
    assert forall|i: int| 0 <= i < rows.len() implies (#[trigger] rows[i] + 1) * (k as nat)
        <= head.row_bias@.len() by {
        let c = rows[i] as int + 1;
        let all = q * n;
        assert(c * k <= all * k) by (nonlinear_arith)
            requires
                0 <= c <= all,
                0 <= k,
        ;
    }
    lemma_rows_len(head.row_bias@, rows, k as nat);
    let m = cells.len() as int;
    assert(q * m <= q * n) by (nonlinear_arith)
        requires
            0 <= m <= n,
            0 <= q,
    ;
}

proof fn lemma_query_cells(queries: nat, cells: nat, kept: Seq<usize>)
    requires
        queries * cells <= usize::MAX,
        forall|i: int| 0 <= i < kept.len() ==> kept[i] < cells,
    ensures
        query_cells(queries, cells, kept).len() == queries * kept.len(),
        forall|i: int|
            0 <= i < query_cells(queries, cells, kept).len() ==> query_cells(
                queries,
                cells,
                kept,
            )[i] < queries * cells,
    decreases queries,
{
    if queries > 0 {
        let q = queries as int;
        let c = cells as int;
        let m = kept.len() as int;
        assert(q * c == (q - 1) * c + c) by (nonlinear_arith);
        assert(q * m == (q - 1) * m + m) by (nonlinear_arith);
        assert((q - 1) * c >= 0) by (nonlinear_arith)
            requires
                q >= 1,
                c >= 0,
        ;
        lemma_query_cells((queries - 1) as nat, cells, kept);
    } else {
        assert(0 * kept.len() == 0) by (nonlinear_arith);
    }
}

/// The first cell of a cut head is the first there was, and each one behind it
/// is the one that belongs to a kept block.
pub proof fn a_cut_keeps_the_cells_of_kept_blocks(kept: Seq<usize>, c: int)
    requires
        0 <= c < kept.len(),
        kept[c] < usize::MAX,
    ensures
        kept_cells(kept).len() == kept.len() + 1,
        kept_cells(kept)[0] == 0,
        kept_cells(kept)[c + 1] == kept[c] + 1,
{
}

/// The rows of a cut table stand query by query, and within a query in the
/// order of the kept cells.
pub proof fn a_cut_keeps_each_querys_cells(
    queries: nat,
    cells: nat,
    kept: Seq<usize>,
    q: int,
    c: int,
)
    requires
        0 <= q < queries,
        0 <= c < kept.len(),
        forall|i: int| 0 <= i < kept.len() ==> #[trigger] kept[i] < cells,
        queries * cells <= usize::MAX,
    ensures
        query_cells(queries, cells, kept).len() == queries * kept.len(),
        query_cells(queries, cells, kept)[q * kept.len() + c] == q * cells + kept[c],
    decreases queries,
{
    let n = kept.len() as int;
    let fewer = (queries - 1) as nat;
    let all = query_cells(queries, cells, kept);
    let before = query_cells(fewer, cells, kept);
    assert(fewer * n + n == queries * n) by (nonlinear_arith)
        requires
            fewer == queries - 1,
    ;
    assert(fewer * cells + cells == queries * cells) by (nonlinear_arith)
        requires
            fewer == queries - 1,
    ;
    if fewer > 0 {
        a_cut_keeps_each_querys_cells(
            fewer,
            cells,
            kept,
            if q < fewer {
                q
            } else {
                0
            },
            c,
        );
    } else {
        assert(before.len() == 0);
        assert(0 * n == 0) by (nonlinear_arith);
    }
    assert(before.len() == fewer * n);
    if q < fewer {
        assert(q * n + n <= fewer * n) by (nonlinear_arith)
            requires
                q + 1 <= fewer,
                n >= 0,
        ;
        assert(q * n >= 0) by (nonlinear_arith)
            requires
                q >= 0,
                n >= 0,
        ;
        assert(all[q * n + c] == before[q * n + c]);
    } else {
        assert(all[fewer * n + c] == ((queries - 1) * cells + kept[c]) as usize);
        assert(kept[c] < cells);
    }
}

} // verus!
