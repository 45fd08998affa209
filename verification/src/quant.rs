//! INT4 weights: two signed nibbles to a byte, one scale to a group of rows.
//!
//! A weight matrix has `in_feat` rows and `out_feat` columns. Rows are taken
//! in pairs; byte `pair * out_feat + o` holds row `2 * pair` in its low nibble
//! and row `2 * pair + 1` in its high one. Rows are also taken in groups of
//! thirty-two (or all of them, where there are fewer), and the scale of group
//! `g` and column `o` stands at `g * out_feat + o`. The matrix is padded with
//! zero rows to a whole number of groups.

use vstd::prelude::*;

verus! {

/// Rows that share one scale.
pub const GROUP_SIZE: usize = 32;

/// Rows to a group in a matrix of `in_feat` rows.
pub open spec fn group_rows(in_feat: int) -> int {
    if in_feat < GROUP_SIZE {
        in_feat
    } else {
        GROUP_SIZE as int
    }
}

/// The rows of the padded matrix: the least multiple of the group at or above
/// `in_feat`.
pub open spec fn padded_rows(in_feat: int) -> int {
    let gs = group_rows(in_feat);
    in_feat + (gs - in_feat % gs) % gs
}

/// How a matrix of some number of rows is split.
#[derive(Clone, Copy, Debug, PartialEq, Eq, Structural)]
pub struct GroupLayout {
    /// Rows to a group.
    pub group_rows: usize,
    /// Rows with the padding.
    pub padded: usize,
    /// Groups of rows.
    pub groups: usize,
    /// Pairs of rows that are stored.
    pub pairs: usize,
}

impl GroupLayout {
    /// The layout of a matrix of `in_feat` rows.
    pub open spec fn splits(&self, in_feat: int) -> bool {
        &&& self.group_rows == group_rows(in_feat)
        &&& self.padded == padded_rows(in_feat)
        &&& self.groups == padded_rows(in_feat) / group_rows(in_feat)
        &&& self.pairs == padded_rows(in_feat) / 2
    }

    pub fn of(in_feat: usize) -> (layout: Self)
        requires
            0 < in_feat <= usize::MAX - GROUP_SIZE,
        ensures
            layout.splits(in_feat as int),
    {
        let gs: usize = if in_feat < GROUP_SIZE {
            in_feat
        } else {
            GROUP_SIZE
        };
        let over: usize = in_feat % gs;
        assert(0 <= over < gs);
        let pad: usize = (gs - over) % gs;
        assert(0 <= pad < gs);
        let padded: usize = in_feat + pad;
        GroupLayout { group_rows: gs, padded, groups: padded / gs, pairs: padded / 2 }
    }

    /// The rows `from..to` of group `g`, without the padding.
    pub fn rows_of(&self, in_feat: usize, g: usize) -> (range: (usize, usize))
        requires
            0 < in_feat <= usize::MAX - GROUP_SIZE,
            self.splits(in_feat as int),
            g < self.groups,
        ensures
            range.0 == g * group_rows(in_feat as int),
            range.0 < range.1 <= in_feat,
            range.1 == range.0 + group_rows(in_feat as int) || (range.1 == in_feat && range.1
                < range.0 + group_rows(in_feat as int)),
    {
        let gs: usize = self.group_rows;
        proof {
            padding_fills_the_last_group(in_feat as int);
            let padded = padded_rows(in_feat as int);
            vstd::arithmetic::div_mod::lemma_fundamental_div_mod(padded, gs as int);
            let n = padded / gs as int;
            assert(0 <= g * gs && (g + 1) * gs <= gs * n) by (nonlinear_arith)
                requires
                    g + 1 <= n,
                    gs >= 0,
                    g >= 0,
            ;
            assert((g + 1) * gs == g * gs + gs) by (nonlinear_arith);
        }
        let from: usize = g * gs;
        let to: usize = if in_feat - from < gs {
            in_feat
        } else {
            from + gs
        };
        (from, to)
    }

    /// The group whose scale row `r` takes: that of the first row of its pair.
    pub fn group_of(&self, r: usize) -> (g: usize)
        requires
            self.group_rows > 0,
        ensures
            g == (2 * (r / 2)) / self.group_rows as int,
    {
        let first: usize = (r / 2) * 2;
        first / self.group_rows
    }
}

/// The padded matrix is a whole number of groups, covers every row, and has
/// less than one group of padding.
pub proof fn padding_fills_the_last_group(in_feat: int)
    requires
        0 < in_feat,
    ensures
        padded_rows(in_feat) % group_rows(in_feat) == 0,
        in_feat <= padded_rows(in_feat) < in_feat + group_rows(in_feat),
{
    let gs = group_rows(in_feat);
    let over = in_feat % gs;
    assert(0 <= over < gs) by (nonlinear_arith)
        requires
            gs > 0,
            over == in_feat % gs,
    ;
    if over == 0 {
        assert(gs % gs == 0) by (nonlinear_arith)
            requires
                gs > 0,
        ;
    } else {
        vstd::arithmetic::div_mod::lemma_small_mod((gs - over) as nat, gs as nat);
        vstd::arithmetic::div_mod::lemma_fundamental_div_mod(in_feat, gs);
        let q = in_feat / gs;
        assert(in_feat + (gs - over) == gs * (q + 1)) by (nonlinear_arith)
            requires
                in_feat == gs * q + over,
        ;
        vstd::arithmetic::div_mod::lemma_mod_multiples_basic(q + 1, gs);
        assert((q + 1) * gs == gs * (q + 1)) by (nonlinear_arith);
    }
}

/// The groups of a whole matrix hold its padded rows.
proof fn lemma_groups_fill(in_feat: int)
    requires
        0 < in_feat,
    ensures
        (padded_rows(in_feat) / group_rows(in_feat)) * group_rows(in_feat) == padded_rows(in_feat),
{
    padding_fills_the_last_group(in_feat);
    let gs = group_rows(in_feat);
    let n = padded_rows(in_feat) / gs;
    vstd::arithmetic::div_mod::lemma_fundamental_div_mod(padded_rows(in_feat), gs);
    assert(n * gs == gs * n) by (nonlinear_arith);
}

/// Both rows of a stored pair lie in one group, whenever groups are even.
pub proof fn a_pair_lies_in_one_group(gs: int, pair: int)
    requires
        0 < gs,
        gs % 2 == 0,
        0 <= pair,
    ensures
        (2 * pair) / gs == (2 * pair + 1) / gs,
{
    let half = gs / 2;
    let q = (2 * pair) / gs;
    let r = (2 * pair) % gs;
    vstd::arithmetic::div_mod::lemma_fundamental_div_mod(2 * pair, gs);
    assert(0 <= r < gs) by (nonlinear_arith)
        requires
            gs > 0,
            r == (2 * pair) % gs,
    ;
    assert(gs * q == 2 * (half * q)) by (nonlinear_arith)
        requires
            gs == 2 * half,
    ;
    assert(r % 2 == 0);
    assert(r + 1 < gs);
    vstd::arithmetic::div_mod::lemma_fundamental_div_mod_converse(2 * pair + 1, gs, q, r + 1);
}

/// Every stored row takes the scale of the group it lies in, though the scale
/// is looked up by the first row of its pair.
pub proof fn a_stored_row_takes_its_own_scale(in_feat: int, r: int)
    requires
        0 < in_feat,
        0 <= r < 2 * (padded_rows(in_feat) / 2),
    ensures
        (2 * (r / 2)) / group_rows(in_feat) == r / group_rows(in_feat),
        (r / group_rows(in_feat)) * group_rows(in_feat) <= r < (r / group_rows(in_feat) + 1)
            * group_rows(in_feat),
{
    let gs = group_rows(in_feat);
    let first = 2 * (r / 2);
    if in_feat < GROUP_SIZE {
        assert(in_feat % in_feat == 0) by (nonlinear_arith)
            requires
                in_feat > 0,
        ;
        assert(padded_rows(in_feat) == in_feat);
        vstd::arithmetic::div_mod::lemma_basic_div(r, gs);
        vstd::arithmetic::div_mod::lemma_basic_div(first, gs);
    } else {
        a_pair_lies_in_one_group(gs, r / 2);
    }
    vstd::arithmetic::div_mod::lemma_fundamental_div_mod(r, gs);
    let q = r / gs;
    assert(q * gs == gs * q && (q + 1) * gs == gs * q + gs) by (nonlinear_arith);
}

/// A nibble read as a four-bit two's-complement number. Bits above the nibble
/// are kept where the sign bit is clear.
pub open spec fn signed_nibble(nibble: u8) -> int {
    if (nibble / 8) % 2 == 1 {
        nibble % 16 - 16
    } else if nibble < 128 {
        nibble as int
    } else {
        nibble - 256
    }
}

/// Extend the sign of a nibble.
pub fn sign_extend4(nibble: u8) -> (value: i8)
    ensures
        value == signed_nibble(nibble),
{
    assert((nibble & 0x8 != 0) == ((nibble / 8) % 2 == 1)) by (bit_vector);
    if nibble & 0x8 != 0 {
        assert((nibble / 8) % 2 == 1 ==> (nibble | 0xF0) as i8 == nibble % 16 - 16) by (bit_vector);
        (nibble | 0xF0) as i8
    } else {
        assert(nibble >= 128 ==> nibble as i8 == nibble - 256) by (bit_vector);
        nibble as i8
    }
}

/// Two codes in one byte: the first in the low nibble.
pub open spec fn packed(q0: i8, q1: i8) -> int {
    (q0 as int) % 16 + 16 * ((q1 as int) % 16)
}

/// The two codes of a byte.
pub open spec fn low_code(byte: u8) -> int {
    signed_nibble((byte % 16) as u8)
}

pub open spec fn high_code(byte: u8) -> int {
    signed_nibble((byte / 16) as u8)
}

/// Pack two codes into a byte.
pub fn pack_pair(q0: i8, q1: i8) -> (byte: u8)
    ensures
        byte == packed(q0, q1),
{
    let lo: u8 = (q0 as u8) & 0x0F;
    let hi: u8 = ((q1 as u8) & 0x0F) << 4;
    assert(((q0 as u8) & 0x0F) as int == (q0 + 128) % 16) by (bit_vector);
    assert(((q1 as u8) & 0x0F) as int == (q1 + 128) % 16) by (bit_vector);
    let a: u8 = (q0 as u8) & 0x0F;
    let b: u8 = (q1 as u8) & 0x0F;
    assert(a < 16 && b < 16 ==> (a | (b << 4)) == a + 16 * b) by (bit_vector);
    assert((q0 as u8) & 0x0F < 16) by (bit_vector);
    assert((q1 as u8) & 0x0F < 16) by (bit_vector);
    lo | hi
}

/// Codes from minus eight to seven survive the packing.
pub proof fn packing_keeps_codes(q0: i8, q1: i8, byte: u8)
    requires
        -8 <= q0 <= 7,
        -8 <= q1 <= 7,
        byte == packed(q0, q1),
    ensures
        low_code(byte) == q0,
        high_code(byte) == q1,
{
    let a = (q0 as int) % 16;
    let b = (q1 as int) % 16;
    assert(byte % 16 == a);
    assert(byte / 16 == b);
    assert(q0 < 0 ==> a == q0 + 16);
    assert(q1 < 0 ==> b == q1 + 16);
}

/// The code of row `r` and column `o`; a padding row is zero.
pub open spec fn code_or_zero(codes: Seq<i8>, in_feat: int, out_feat: int, r: int, o: int) -> i8 {
    if r < in_feat {
        codes[r * out_feat + o]
    } else {
        0i8
    }
}

/// The bytes that hold a matrix of codes.
pub open spec fn packs(data: Seq<u8>, codes: Seq<i8>, in_feat: int, out_feat: int) -> bool {
    &&& data.len() == (padded_rows(in_feat) / 2) * out_feat
    &&& forall|p: int, o: int|
        #![trigger data[p * out_feat + o]]
        0 <= p < padded_rows(in_feat) / 2 && 0 <= o < out_feat ==> data[p * out_feat + o] == packed(
            code_or_zero(codes, in_feat, out_feat, 2 * p, o),
            code_or_zero(codes, in_feat, out_feat, 2 * p + 1, o),
        )
}

proof fn lemma_cell(r: int, rows: int, width: int, o: int)
    requires
        0 <= r < rows,
        0 <= o < width,
    ensures
        0 <= r * width + o < rows * width,
{
    assert(0 <= r * width) by (nonlinear_arith)
        requires
            0 <= r,
            0 < width,
    ;
    assert((r + 1) * width <= rows * width) by (nonlinear_arith)
        requires
            r + 1 <= rows,
            0 < width,
    ;
    assert((r + 1) * width == r * width + width) by (nonlinear_arith);
}

fn code_at_or_zero(codes: &[i8], in_feat: usize, out_feat: usize, r: usize, o: usize) -> (code: i8)
    requires
        codes@.len() == in_feat * out_feat,
        o < out_feat,
    ensures
        code == code_or_zero(codes@, in_feat as int, out_feat as int, r as int, o as int),
{
    let total: usize = codes.len();
    if r < in_feat {
        proof {
            lemma_cell(r as int, in_feat as int, out_feat as int, o as int);
        }
        assert(0 <= r * out_feat) by (nonlinear_arith);
        codes[r * out_feat + o]
    } else {
        0
    }
}

/// Pack a row-major matrix of codes, a pair of rows at a time.
pub fn pack_codes(codes: &[i8], in_feat: usize, out_feat: usize) -> (data: Vec<u8>)
    requires
        0 < in_feat <= usize::MAX - GROUP_SIZE,
        codes@.len() == in_feat * out_feat,
    ensures
        packs(data@, codes@, in_feat as int, out_feat as int),
{
    let layout = GroupLayout::of(in_feat);
    let pairs: usize = layout.pairs;
    let mut data: Vec<u8> = Vec::new();
    let mut p: usize = 0;
    assert(0 * out_feat == 0) by (nonlinear_arith);
    while p < pairs
        invariant
            p <= pairs,
            pairs == padded_rows(in_feat as int) / 2,
            pairs <= usize::MAX / 2,
            codes@.len() == in_feat * out_feat,
            data@.len() == p * out_feat,
            forall|q: int, o: int|
                #![trigger data@[q * out_feat + o]]
                0 <= q < p && 0 <= o < out_feat ==> data@[q * out_feat + o] == packed(
                    code_or_zero(codes@, in_feat as int, out_feat as int, 2 * q, o),
                    code_or_zero(codes@, in_feat as int, out_feat as int, 2 * q + 1, o),
                ),
        decreases pairs - p,
    {
        let mut o: usize = 0;
        while o < out_feat
            invariant
                o <= out_feat,
                p < pairs,
                pairs <= usize::MAX / 2,
                codes@.len() == in_feat * out_feat,
                data@.len() == p * out_feat + o,
                forall|q: int, c: int|
                    #![trigger data@[q * out_feat + c]]
                    ((0 <= q < p && 0 <= c < out_feat) || (q == p && 0 <= c < o))
                        ==> data@[q * out_feat + c] == packed(
                        code_or_zero(codes@, in_feat as int, out_feat as int, 2 * q, c),
                        code_or_zero(codes@, in_feat as int, out_feat as int, 2 * q + 1, c),
                    ),
            decreases out_feat - o,
        {
            let q0: i8 = code_at_or_zero(codes, in_feat, out_feat, 2 * p, o);
            let q1: i8 = code_at_or_zero(codes, in_feat, out_feat, 2 * p + 1, o);
            let ghost before = data@;
            data.push(pack_pair(q0, q1));
            proof {
                assert forall|q: int, c: int|
                    #![trigger data@[q * out_feat + c]]
                    ((0 <= q < p && 0 <= c < out_feat) || (q == p && 0 <= c < o
                        + 1)) implies data@[q * out_feat + c] == packed(
                    code_or_zero(codes@, in_feat as int, out_feat as int, 2 * q, c),
                    code_or_zero(codes@, in_feat as int, out_feat as int, 2 * q + 1, c),
                ) by {
                    lemma_cell(q, p + 1, out_feat as int, c);
                    if q == p && c == o {
                    } else {
                        if q < p {
                            lemma_cell(q, p as int, out_feat as int, c);
                        }
                        assert(before[q * out_feat + c] == data@[q * out_feat + c]);
                    }
                }
            }
            o = o + 1;
        }
        assert((p + 1) * out_feat == p * out_feat + out_feat) by (nonlinear_arith);
        p = p + 1;
    }
    data
}

/// A packed matrix with its scales. The scales are carried, never read here.
pub struct QuantizedWeight<S> {
    pub data: Vec<u8>,
    pub scales: Vec<S>,
    pub in_feat: usize,
    pub out_feat: usize,
    pub num_groups: usize,
}

impl<S: Copy> QuantizedWeight<S> {
    /// The buffers hold what the groups ask for.
    pub open spec fn wf(&self) -> bool {
        &&& self.num_groups * group_rows(self.in_feat as int) <= usize::MAX
        &&& self.data@.len() >= (self.stored_rows() / 2) * self.out_feat
        &&& self.scales@.len() == self.num_groups * self.out_feat
    }

    /// Rows that are stored: those of the groups, less an odd last one.
    pub open spec fn stored_rows(&self) -> int {
        2 * (self.num_groups * group_rows(self.in_feat as int) / 2)
    }

    /// The groups cover the rows, with less than one group of padding.
    pub open spec fn is_whole(&self) -> bool {
        &&& self.in_feat > 0
        &&& self.num_groups == padded_rows(self.in_feat as int) / group_rows(self.in_feat as int)
    }

    /// The code of row `r` and column `o`.
    pub open spec fn code(&self, r: int, o: int) -> int {
        let byte = self.data@[(r / 2) * self.out_feat + o];
        if r % 2 == 0 {
            low_code(byte)
        } else {
            high_code(byte)
        }
    }

    /// The group whose scale row `r` takes: that of the first row of its pair.
    pub open spec fn group_of(&self, r: int) -> int {
        (2 * (r / 2)) / group_rows(self.in_feat as int)
    }

    /// A matrix of codes and its scales.
    pub fn from_codes(codes: &[i8], scales: Vec<S>, in_feat: usize, out_feat: usize) -> (w: Self)
        requires
            0 < in_feat <= usize::MAX - GROUP_SIZE,
            codes@.len() == in_feat * out_feat,
            scales@.len() == (padded_rows(in_feat as int) / group_rows(in_feat as int)) * out_feat,
        ensures
            w.wf(),
            w.is_whole(),
            w.in_feat == in_feat,
            w.out_feat == out_feat,
            w.scales@ == scales@,
            packs(w.data@, codes@, in_feat as int, out_feat as int),
    {
        let layout = GroupLayout::of(in_feat);
        proof {
            lemma_groups_fill(in_feat as int);
        }
        QuantizedWeight {
            data: pack_codes(codes, in_feat, out_feat),
            scales,
            in_feat,
            out_feat,
            num_groups: layout.groups,
        }
    }

    /// A matrix that is packed already. The scales, one to a column and group,
    /// say how many groups there are: rows past them are not stored, and what
    /// is stored past the last row is not read. `None` where the scales do not
    /// come out even or the codes of some group are missing.
    pub fn from_packed(data: Vec<u8>, scales: Vec<S>, in_feat: usize, out_feat: usize) -> (w: Option<
        Self,
    >)
        ensures
            w is Some <==> {
                &&& out_feat > 0
                &&& scales@.len() as int % out_feat as int == 0
                &&& (scales@.len() as int / out_feat as int) * group_rows(in_feat as int)
                    <= usize::MAX
                &&& data@.len() >= ((scales@.len() as int / out_feat as int) * group_rows(
                    in_feat as int,
                ) / 2) * out_feat
            },
            w matches Some(w) ==> w.wf() && w.data@ == data@ && w.scales@ == scales@ && w.in_feat
                == in_feat && w.out_feat == out_feat && w.num_groups == scales@.len() as int
                / out_feat as int,
    {
        let given: usize = scales.len();
        let held: usize = data.len();
        if out_feat == 0 || given % out_feat != 0 {
            return None;
        }
        let num_groups: usize = given / out_feat;
        let gs: usize = if in_feat < GROUP_SIZE {
            in_feat
        } else {
            GROUP_SIZE
        };
        let rows: usize = match num_groups.checked_mul(gs) {
            Some(n) => n,
            None => {
                return None;
            },
        };
        proof {
            let n = given as int / out_feat as int;
            vstd::arithmetic::div_mod::lemma_fundamental_div_mod(given as int, out_feat as int);
            assert(n * out_feat == out_feat * n) by (nonlinear_arith);
            assert(0 <= rows / 2 * out_feat) by (nonlinear_arith)
                requires
                    rows >= 0,
                    out_feat >= 0,
            ;
        }
        match (rows / 2).checked_mul(out_feat) {
            Some(bytes) => {
                if held >= bytes {
                    Some(QuantizedWeight { data, scales, in_feat, out_feat, num_groups })
                } else {
                    None
                }
            },
            None => None,
        }
    }

    /// Pairs of rows that are stored.
    pub fn pairs(&self) -> (pairs: usize)
        requires
            self.wf(),
        ensures
            2 * pairs == self.stored_rows(),
    {
        let gs: usize = if self.in_feat < GROUP_SIZE {
            self.in_feat
        } else {
            GROUP_SIZE
        };
        self.num_groups * gs / 2
    }

    /// The rows of the matrix that are stored. In a whole matrix those are all
    /// but the last of an odd number of rows that fits in a single group.
    pub fn used_rows(&self) -> (rows: usize)
        requires
            self.wf(),
        ensures
            rows == if self.stored_rows() < self.in_feat {
                self.stored_rows()
            } else {
                self.in_feat as int
            },
    {
        let stored: usize = self.pairs() * 2;
        if stored < self.in_feat {
            stored
        } else {
            self.in_feat
        }
    }

    /// The code of row `r` and column `o`.
    pub fn code_at(&self, r: usize, o: usize) -> (code: i8)
        requires
            self.wf(),
            r < self.stored_rows(),
            o < self.out_feat,
        ensures
            code == self.code(r as int, o as int),
            -8 <= code <= 7,
    {
        let total: usize = self.data.len();
        let pair: usize = r / 2;
        proof {
            lemma_cell(pair as int, self.stored_rows() / 2, self.out_feat as int, o as int);
        }
        assert(0 <= pair * self.out_feat) by (nonlinear_arith);
        let byte: u8 = self.data[pair * self.out_feat + o];
        if r % 2 == 0 {
            sign_extend4(byte % 16)
        } else {
            sign_extend4(byte / 16)
        }
    }

    /// The scale that row `r` and column `o` take.
    pub fn scale_at(&self, r: usize, o: usize) -> (scale: S)
        requires
            self.wf(),
            r < self.stored_rows(),
            o < self.out_feat,
        ensures
            0 <= self.group_of(r as int) < self.num_groups,
            scale == self.scales@[self.group_of(r as int) * self.out_feat + o],
    {
        let total: usize = self.scales.len();
        let gs: usize = if self.in_feat < GROUP_SIZE {
            self.in_feat
        } else {
            GROUP_SIZE
        };
        let first: usize = (r / 2) * 2;
        assert(gs > 0) by {
            if gs == 0 {
                assert(self.num_groups * gs == 0) by (nonlinear_arith)
                    requires
                        gs == 0,
                ;
            }
        }
        let g: usize = first / gs;
        proof {
            vstd::arithmetic::div_mod::lemma_fundamental_div_mod(first as int, gs as int);
            let n = self.num_groups as int;
            let rows = n * gs;
            assert(0 <= g < n) by (nonlinear_arith)
                requires
                    gs > 0,
                    0 <= first < rows,
                    rows == n * gs,
                    first == gs * g + first % gs,
                    0 <= first % gs,
                    0 <= g,
            ;
            lemma_cell(g as int, self.num_groups as int, self.out_feat as int, o as int);
        }
        assert(0 <= g * self.out_feat) by (nonlinear_arith);
        self.scales[g * self.out_feat + o]
    }
}

/// What is read back from a packed matrix is what was packed into it, for
/// every stored row and every code that a nibble can hold.
pub proof fn a_packed_matrix_reads_back<S: Copy>(
    w: QuantizedWeight<S>,
    codes: Seq<i8>,
    r: int,
    o: int,
)
    requires
        w.wf(),
        w.is_whole(),
        packs(w.data@, codes, w.in_feat as int, w.out_feat as int),
        codes.len() == w.in_feat * w.out_feat,
        0 <= r < w.in_feat,
        r < w.stored_rows(),
        0 <= o < w.out_feat,
        forall|i: int| 0 <= i < codes.len() ==> -8 <= #[trigger] codes[i] <= 7,
    ensures
        w.code(r, o) == codes[r * w.out_feat + o],
{
    lemma_groups_fill(w.in_feat as int);
    let p = r / 2;
    let width = w.out_feat as int;
    let byte = w.data@[p * width + o];
    let q0 = code_or_zero(codes, w.in_feat as int, width, 2 * p, o);
    let q1 = code_or_zero(codes, w.in_feat as int, width, 2 * p + 1, o);
    lemma_cell(2 * p, w.in_feat as int, width, o);
    if 2 * p + 1 < w.in_feat {
        lemma_cell(2 * p + 1, w.in_feat as int, width, o);
    }
    assert(byte == packed(q0, q1));
    packing_keeps_codes(q0, q1, byte);
}

/// Every row of the matrix is stored, unless it is an odd number of rows that
/// fits in a single group.
pub proof fn rows_are_stored<S: Copy>(w: QuantizedWeight<S>)
    requires
        w.is_whole(),
        w.in_feat % 2 == 0 || w.in_feat >= GROUP_SIZE,
    ensures
        w.in_feat <= w.stored_rows(),
{
    lemma_groups_fill(w.in_feat as int);
    padding_fills_the_last_group(w.in_feat as int);
    let n = w.in_feat as int;
    let padded = padded_rows(n);
    if n >= GROUP_SIZE {
        assert(padded % 32 == 0);
    } else {
        assert(n % n == 0) by (nonlinear_arith)
            requires
                n > 0,
        ;
        assert(padded == n);
    }
}

/// The first of two codes stands in the low four bits of their byte and the
/// second in the high four, each as a four-bit two's-complement number.
pub proof fn the_first_code_is_the_low_nibble(low: u8, high: u8, byte: u8)
    requires
        low < 16,
        high < 16,
        byte == low + 16 * high,
    ensures
        low_code(byte) == if low < 8 {
            low as int
        } else {
            low - 16
        },
        high_code(byte) == if high < 8 {
            high as int
        } else {
            high - 16
        },
        forall|q0: i8, q1: i8|
            -8 <= q0 <= 7 && -8 <= q1 <= 7 && #[trigger] packed(q0, q1) == byte ==> (q0 == low || q0
                == low - 16) && (q1 == high || q1 == high - 16),
{
    assert(byte % 16 == low);
    assert(byte / 16 == high);
    assert forall|q0: i8, q1: i8|
        -8 <= q0 <= 7 && -8 <= q1 <= 7 && #[trigger] packed(q0, q1) == byte implies (q0 == low || q0
        == low - 16) && (q1 == high || q1 == high - 16) by {
        packing_keeps_codes(q0, q1, byte);
    }
}

/// Up to thirty-one rows are one group as they are; more are padded to the next
/// multiple of thirty-two.
pub proof fn rows_are_padded_to_groups_of_thirty_two(in_feat: int)
    requires
        0 < in_feat,
    ensures
        in_feat < 32 ==> group_rows(in_feat) == in_feat && padded_rows(in_feat) == in_feat,
        in_feat >= 32 ==> group_rows(in_feat) == 32 && padded_rows(in_feat) % 32 == 0 && in_feat
            <= padded_rows(in_feat) < in_feat + 32,
{
    padding_fills_the_last_group(in_feat);
    if in_feat < 32 {
        vstd::arithmetic::div_mod::lemma_mod_self_0(in_feat);
    }
}

/// The groups of a matrix make up its padded rows, and its bytes hold two rows
/// each.
pub proof fn a_layout_multiplies_out(l: GroupLayout, in_feat: int)
    requires
        0 < in_feat,
        l.splits(in_feat),
    ensures
        l.groups * l.group_rows == l.padded,
        2 * l.pairs <= l.padded <= 2 * l.pairs + 1,
        in_feat <= l.padded < in_feat + l.group_rows,
{
    lemma_groups_fill(in_feat);
    padding_fills_the_last_group(in_feat);
}

} // verus!
