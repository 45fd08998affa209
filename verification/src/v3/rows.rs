//! Cutting whole rows out of flat row-major buffers.
//!
//! The buffers hold whatever a row is made of: weights, codes, cache entries.
//! Nothing here looks at an element, so a cut is exact by construction.

use vstd::prelude::*;

verus! {

/// Row `r` of a buffer whose rows are `width` wide.
pub open spec fn row<T>(buf: Seq<T>, r: int, width: nat) -> Seq<T> {
    buf.subrange(r * width, (r + 1) * width)
}

/// The listed rows, one after another.
pub open spec fn rows_of<T>(buf: Seq<T>, rows: Seq<usize>, width: nat) -> Seq<T>
    decreases rows.len(),
{
    if rows.len() == 0 {
        Seq::empty()
    } else {
        rows_of(buf, rows.drop_last(), width) + row(buf, rows.last() as int, width)
    }
}

/// Every listed row lies inside the buffer.
pub open spec fn rows_fit(len: nat, rows: Seq<usize>, width: nat) -> bool {
    forall|i: int| 0 <= i < rows.len() ==> (#[trigger] rows[i] + 1) * width <= len
}

pub proof fn lemma_rows_len<T>(buf: Seq<T>, rows: Seq<usize>, width: nat)
    requires
        rows_fit(buf.len(), rows, width),
    ensures
        rows_of(buf, rows, width).len() == rows.len() * width,
    decreases rows.len(),
{
    if rows.len() > 0 {
        let n = rows.len() as int;
        assert(rows_fit(buf.len(), rows.drop_last(), width));
        lemma_rows_len(buf, rows.drop_last(), width);
        let r = rows.last() as int;
        assert(rows[n - 1] == r);
        assert((r + 1) * width == r * width + width) by (nonlinear_arith);
        assert(r * width >= 0) by (nonlinear_arith)
            requires
                r >= 0,
        ;
        assert(n * width == (n - 1) * width + width) by (nonlinear_arith);
    } else {
        assert(0 * width == 0) by (nonlinear_arith);
    }
}

/// Row `i` of the cut is row `rows[i]` of the buffer.
pub proof fn cut_keeps_rows<T>(buf: Seq<T>, rows: Seq<usize>, width: nat, i: int)
    requires
        rows_fit(buf.len(), rows, width),
        0 <= i < rows.len(),
    ensures
        row(rows_of(buf, rows, width), i, width) == row(buf, rows[i] as int, width),
    decreases rows.len(),
{
    let n = rows.len() as int;
    let before = rows.drop_last();
    assert(rows_fit(buf.len(), before, width));
    lemma_rows_len(buf, rows, width);
    lemma_rows_len(buf, before, width);
    let r = rows.last() as int;
    assert(rows[n - 1] == r);
    assert((r + 1) * width == r * width + width) by (nonlinear_arith);
    assert(r * width >= 0) by (nonlinear_arith)
        requires
            r >= 0,
    ;
    assert(n * width == (n - 1) * width + width) by (nonlinear_arith);
    assert((i + 1) * width == i * width + width) by (nonlinear_arith);
    assert(0 <= i * width) by (nonlinear_arith)
        requires
            i >= 0,
    ;
    if i < n - 1 {
        cut_keeps_rows(buf, before, width, i);
        assert((i + 1) * width <= (n - 1) * width) by (nonlinear_arith)
            requires
                i + 1 <= n - 1,
        ;
        assert(row(rows_of(buf, rows, width), i, width) =~= row(
            rows_of(buf, before, width),
            i,
            width,
        ));
    } else {
        assert(row(rows_of(buf, rows, width), i, width) =~= row(buf, r, width));
    }
}

/// Copy the listed rows of a buffer, one after another.
pub fn take_rows<T: Copy>(buf: &[T], rows: &[usize], width: usize) -> (out: Vec<T>)
    requires
        rows_fit(buf@.len(), rows@, width as nat),
    ensures
        out@ == rows_of(buf@, rows@, width as nat),
        out@.len() == rows@.len() * width,
{
    let total: usize = buf.len();
    let mut out: Vec<T> = Vec::new();
    let mut i: usize = 0;
    while i < rows.len()
        invariant
            i <= rows@.len(),
            total == buf@.len(),
            rows_fit(buf@.len(), rows@, width as nat),
            out@ == rows_of(buf@, rows@.take(i as int), width as nat),
        decreases rows.len() - i,
    {
        let r: usize = rows[i];
        proof {
            assert((r + 1) * width == r * width + width) by (nonlinear_arith);
            assert(r * width >= 0) by (nonlinear_arith);
        }
        let base: usize = r * width;
        let ghost before = out@;
        let mut j: usize = 0;
        while j < width
            invariant
                j <= width,
                base == r * width,
                base + width <= total == buf@.len(),
                out@ == before + buf@.subrange(base as int, base + j),
            decreases width - j,
        {
            out.push(buf[base + j]);
            j = j + 1;
            assert(out@ =~= before + buf@.subrange(base as int, base + j));
        }
        proof {
            let shorter = rows@.take(i as int);
            let longer = rows@.take(i + 1);
            assert(longer.drop_last() =~= shorter);
            assert(longer.last() == r);
            assert(out@ =~= rows_of(buf@, longer, width as nat));
        }
        i = i + 1;
    }
    assert(rows@.take(i as int) =~= rows@);
    proof {
        lemma_rows_len(buf@, rows@, width as nat);
    }
    out
}

/// The rows that hold the blocks `kept` when every block has `width` rows.
pub open spec fn block_rows(kept: Seq<usize>, width: nat) -> Seq<usize>
    decreases kept.len(),
{
    if kept.len() == 0 {
        Seq::empty()
    } else {
        block_rows(kept.drop_last(), width) + Seq::new(
            width,
            |j: int| (kept.last() * width + j) as usize,
        )
    }
}

/// The rows that hold the blocks `kept` when every block has `width` rows.
pub fn rows_of_blocks(kept: &[usize], width: usize) -> (rows: Vec<usize>)
    requires
        forall|i: int| 0 <= i < kept@.len() ==> (#[trigger] kept@[i] + 1) * width <= usize::MAX,
    ensures
        rows@ == block_rows(kept@, width as nat),
{
    let mut rows: Vec<usize> = Vec::new();
    let mut i: usize = 0;
    while i < kept.len()
        invariant
            i <= kept@.len(),
            forall|i: int|
                0 <= i < kept@.len() ==> (#[trigger] kept@[i] + 1) * width <= usize::MAX,
            rows@ == block_rows(kept@.take(i as int), width as nat),
        decreases kept.len() - i,
    {
        let r: usize = kept[i];
        proof {
            assert((r + 1) * width == r * width + width) by (nonlinear_arith);
            assert(r * width >= 0) by (nonlinear_arith);
        }
        let base: usize = r * width;
        let ghost before = rows@;
        let mut j: usize = 0;
        while j < width
            invariant
                j <= width,
                base == r * width,
                base + width <= usize::MAX,
                rows@ == before + Seq::new(j as nat, |j: int| (r * width + j) as usize),
            decreases width - j,
        {
            rows.push(base + j);
            j = j + 1;
            assert(rows@ =~= before + Seq::new(j as nat, |j: int| (r * width + j) as usize));
        }
        proof {
            let shorter = kept@.take(i as int);
            let longer = kept@.take(i + 1);
            assert(longer.drop_last() =~= shorter);
            assert(longer.last() == r);
            assert(rows@ =~= block_rows(longer, width as nat));
        }
        i = i + 1;
    }
    assert(kept@.take(i as int) =~= kept@);
    rows
}

/// The buffer with row `r` replaced.
pub open spec fn set_row<T>(buf: Seq<T>, r: int, width: nat, new: Seq<T>) -> Seq<T> {
    buf.take(r * width) + new + buf.skip((r + 1) * width)
}

/// Writing a row changes that row and no other.
pub proof fn set_row_changes_one_row<T>(buf: Seq<T>, r: int, q: int, width: nat, new: Seq<T>)
    requires
        0 <= r,
        0 <= q,
        (r + 1) * width <= buf.len(),
        (q + 1) * width <= buf.len(),
        new.len() == width,
    ensures
        set_row(buf, r, width, new).len() == buf.len(),
        row(set_row(buf, r, width, new), q, width) == if q == r {
            new
        } else {
            row(buf, q, width)
        },
{
    let w = width as int;
    assert((r + 1) * w == r * w + w) by (nonlinear_arith);
    assert((q + 1) * w == q * w + w) by (nonlinear_arith);
    assert(r * w >= 0 && q * w >= 0) by (nonlinear_arith)
        requires
            r >= 0,
            q >= 0,
            w >= 0,
    ;
    if q < r {
        assert((q + 1) * w <= r * w) by (nonlinear_arith)
            requires
                q + 1 <= r,
                w >= 0,
        ;
    }
    if r < q {
        assert((r + 1) * w <= q * w) by (nonlinear_arith)
            requires
                r + 1 <= q,
                w >= 0,
        ;
    }
    let after = set_row(buf, r, width, new);
    assert(row(after, q, width) =~= if q == r {
        new
    } else {
        row(buf, q, width)
    });
}

/// The buffer continued with `fill` up to `len` entries.
pub open spec fn extended<T>(buf: Seq<T>, len: nat, fill: T) -> Seq<T> {
    if len <= buf.len() {
        buf
    } else {
        buf + Seq::new((len - buf.len()) as nat, |i: int| fill)
    }
}

/// Continue a buffer with `fill` up to `len` entries.
pub fn extend<T: Copy>(buf: &mut Vec<T>, len: usize, fill: T)
    ensures
        final(buf)@ == extended(old(buf)@, len as nat, fill),
{
    let ghost start = buf@;
    assert(buf@ =~= extended(start, buf@.len(), fill));
    while buf.len() < len
        invariant
            start.len() <= buf@.len(),
            buf@.len() <= len || buf@.len() == start.len(),
            buf@ == extended(start, buf@.len(), fill),
        decreases len - buf.len(),
    {
        buf.push(fill);
        assert(buf@ =~= extended(start, buf@.len(), fill));
    }
}

/// Overwrite row `r` of a buffer.
pub fn put_row<T: Copy>(buf: &mut Vec<T>, r: usize, new: &[T])
    requires
        (r + 1) * new@.len() <= old(buf)@.len(),
    ensures
        final(buf)@ == set_row(old(buf)@, r as int, new@.len(), new@),
        final(buf)@.len() == old(buf)@.len(),
{
    let ghost start = buf@;
    let total: usize = buf.len();
    let width: usize = new.len();
    proof {
        assert((r + 1) * width == r * width + width) by (nonlinear_arith);
        assert(r * width >= 0) by (nonlinear_arith);
    }
    let base: usize = r * width;
    let mut j: usize = 0;
    while j < width
        invariant
            j <= width,
            width == new@.len(),
            base + width <= total,
            buf@.len() == total,
            start.len() == total,
            forall|i: int| 0 <= i < base ==> buf@[i] == start[i],
            forall|i: int| 0 <= i < j ==> buf@[base + i] == new@[i],
            forall|i: int| base + j <= i < total ==> buf@[i] == start[i],
        decreases width - j,
    {
        buf[base + j] = new[j];
        j = j + 1;
    }
    proof {
        let want = set_row(start, r as int, new@.len(), new@);
        assert forall|i: int| 0 <= i < total implies buf@[i] == want[i] by {
            if base <= i < base + width {
                assert(buf@[base + (i - base)] == new@[i - base]);
            }
        }
        assert(buf@ =~= want);
    }
}

/// The last `n` rows of a buffer of `seq` rows, with rows of `zero` in front
/// where the buffer is shorter than that.
pub open spec fn tail_rows<T>(buf: Seq<T>, seq: nat, dim: nat, n: nat, zero: T) -> Seq<T> {
    if n <= seq {
        buf.subrange((seq - n) * dim, (seq * dim) as int)
    } else {
        Seq::new(((n - seq) * dim) as nat, |i: int| zero) + buf.subrange(0, (seq * dim) as int)
    }
}

/// The last `n` rows of a `(seq, dim)` buffer, oldest first, padded with
/// `zero` at the front when the sequence is shorter than `n`.
pub fn last_rows<T: Copy>(buf: &[T], seq: usize, dim: usize, n: usize, zero: T) -> (out: Vec<T>)
    requires
        buf@.len() == seq * dim,
        n * dim <= usize::MAX,
    ensures
        out@ == tail_rows(buf@, seq as nat, dim as nat, n as nat, zero),
        out@.len() == n * dim,
{
    let have: usize = if n <= seq {
        n
    } else {
        seq
    };
    let total: usize = buf.len();
    let mut out: Vec<T> = Vec::new();
    proof {
        assert(have * dim <= n * dim) by (nonlinear_arith)
            requires
                have <= n,
        ;
        assert((n - have) * dim == n * dim - have * dim) by (nonlinear_arith);
        assert((seq - have) * dim == seq * dim - have * dim) by (nonlinear_arith);
        assert(0 <= have * dim <= seq * dim) by (nonlinear_arith)
            requires
                0 <= have <= seq,
        ;
        assert(0 <= n * dim - have * dim);
    }
    let pad: usize = (n - have) * dim;
    let mut i: usize = 0;
    while i < pad
        invariant
            i <= pad,
            out@ == Seq::new(i as nat, |k: int| zero),
        decreases pad - i,
    {
        out.push(zero);
        i = i + 1;
        assert(out@ =~= Seq::new(i as nat, |k: int| zero));
    }
    let from: usize = (seq - have) * dim;
    let mut j: usize = from;
    while j < total
        invariant
            from <= j <= total == buf@.len(),
            out@ == Seq::new(pad as nat, |k: int| zero) + buf@.subrange(from as int, j as int),
        decreases total - j,
    {
        out.push(buf[j]);
        j = j + 1;
        assert(out@ =~= Seq::new(pad as nat, |k: int| zero) + buf@.subrange(from as int, j as int));
    }
    proof {
        if n <= seq {
            assert(pad == 0);
            assert(out@ =~= buf@.subrange((seq - n) * dim, (seq * dim) as int));
        } else {
            assert(from == 0);
        }
    }
    out
}

/// Place `x` of row `i` of the cut holds what place `x` of row `rows[i]` of the
/// buffer holds.
pub proof fn a_cut_keeps_each_element<T>(
    buf: Seq<T>,
    rows: Seq<usize>,
    width: nat,
    i: int,
    x: int,
)
    requires
        forall|k: int| 0 <= k < rows.len() ==> (#[trigger] rows[k] + 1) * width <= buf.len(),
        0 <= i < rows.len(),
        0 <= x < width,
    ensures
        rows_of(buf, rows, width).len() == rows.len() * width,
        rows_of(buf, rows, width)[i * width + x] == buf[rows[i] * width + x],
{
    lemma_rows_len(buf, rows, width);
    cut_keeps_rows(buf, rows, width, i);
    let cut = rows_of(buf, rows, width);
    let r = rows[i] as int;
    let w = width as int;
    let n = rows.len() as int;
    assert((i + 1) * w == i * w + w) by (nonlinear_arith);
    assert((r + 1) * w == r * w + w) by (nonlinear_arith);
    assert(i * w >= 0 && (i + 1) * w <= n * w) by (nonlinear_arith)
        requires
            0 <= i < n,
            w >= 0,
    ;
    assert(r * w >= 0) by (nonlinear_arith)
        requires
            r >= 0,
            w >= 0,
    ;
    assert(row(cut, i, width)[x] == cut[i * w + x]);
    assert(row(buf, r, width)[x] == buf[r * w + x]);
}

/// Row `j` of the `i`-th block that is kept is row `j` of that block.
pub proof fn blocks_keep_their_rows(kept: Seq<usize>, width: nat, i: int, j: int)
    requires
        forall|k: int| 0 <= k < kept.len() ==> (#[trigger] kept[k] + 1) * width <= usize::MAX,
        0 <= i < kept.len(),
        0 <= j < width,
    ensures
        block_rows(kept, width).len() == kept.len() * width,
        block_rows(kept, width)[i * width + j] == kept[i] * width + j,
    decreases kept.len(),
{
    let n = kept.len() as int;
    let w = width as int;
    let front = kept.drop_last();
    let before = block_rows(front, width);
    assert forall|k: int| 0 <= k < front.len() implies (#[trigger] front[k] + 1) * width
        <= usize::MAX by {
        assert(front[k] == kept[k]);
    }
    assert((n - 1) * w + w == n * w) by (nonlinear_arith);
    if n > 1 {
        blocks_keep_their_rows(
            front,
            width,
            if i < n - 1 {
                i
            } else {
                0
            },
            j,
        );
    } else {
        assert(0 * w == 0) by (nonlinear_arith);
    }
    let b = kept[n - 1] as int;
    assert((b + 1) * w == b * w + w) by (nonlinear_arith);
    assert(b * w >= 0) by (nonlinear_arith)
        requires
            b >= 0,
            w >= 0,
    ;
    if i < n - 1 {
        assert(i * w >= 0 && i * w + w <= (n - 1) * w) by (nonlinear_arith)
            requires
                0 <= i < n - 1,
                w >= 0,
        ;
        assert(block_rows(kept, width)[i * w + j] == before[i * w + j]);
    }
}

/// The tail has its length, ends with the end of the buffer, and holds zeros
/// where the buffer does not reach back.
pub proof fn a_tail_is_the_end_of_the_buffer<T>(
    buf: Seq<T>,
    seq: nat,
    dim: nat,
    n: nat,
    zero: T,
    r: int,
    x: int,
)
    requires
        seq * dim <= buf.len(),
        0 <= r < n,
        0 <= x < dim,
    ensures
        tail_rows(buf, seq, dim, n, zero).len() == n * dim,
        tail_rows(buf, seq, dim, n, zero)[r * dim + x] == if r + seq >= n {
            buf[(r + seq - n) * dim + x]
        } else {
            zero
        },
{
    let d = dim as int;
    let s = seq as int;
    let m = n as int;
    assert((s - m) * d == s * d - m * d && (m - s) * d == m * d - s * d) by (nonlinear_arith);
    assert((r + s - m) * d == r * d + s * d - m * d) by (nonlinear_arith);
    assert(r * d >= 0 && r * d + d <= m * d) by (nonlinear_arith)
        requires
            0 <= r < m,
            d >= 0,
    ;
    assert(s * d >= 0) by (nonlinear_arith)
        requires
            s >= 0,
            d >= 0,
    ;
    if s >= m {
        assert((s - m) * d >= 0) by (nonlinear_arith)
            requires
                s >= m,
                d >= 0,
        ;
    } else {
        assert((m - s) * d >= 0) by (nonlinear_arith)
            requires
                s < m,
                d >= 0,
        ;
        if r + s >= m {
            assert((r + s - m) * d >= 0) by (nonlinear_arith)
                requires
                    r + s >= m,
                    d >= 0,
            ;
        } else {
            assert(r * d + d <= (m - s) * d) by (nonlinear_arith)
                requires
                    r + 1 <= m - s,
                    d >= 0,
            ;
        }
    }
}

} // verus!
