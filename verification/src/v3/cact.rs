//! Reading a v3 container.
//!
//! A header of forty-eight words and one number, a codebook, a directory of
//! nameless tensors and their payloads. Words are four bytes, little end
//! first. The directory says of each tensor its type, its shape and where its
//! payload lies in the file.

use vstd::prelude::*;
use vstd::arithmetic::power2::pow2;
use crate::bytes::{
    four_bytes,
    le16,
    le32,
    le64,
    read_u16,
    read_u32,
    read_u64,
    two_bytes,
    written_numbers_read_back,
};
use crate::floats::{f16_to_f32, to_u32, whole_part, widened};
use crate::v3::config::V3Config;
use crate::v3::container::{
    a_header_is_accepted_where_it_multiplies_out,
    carries,
    geometry_fault,
    CactError,
    CactV3Geometry,
    Record,
    DT_FP16,
    DT_FP32,
    DT_RAW,
};

verus! {

/// The first word of a v3 container.
pub const V3_TAG: u32 = 0x05E1_2A84;

/// Bytes of the header.
pub const HEADER_LEN: usize = 196;

/// Bytes of one directory record.
pub const RECORD_LEN: usize = 44;

/// Orders that the header has room for.
pub const MAX_ORDERS: usize = 4;

/// Sites that the header has room for.
pub const MAX_SITES: usize = 16;

/// Word `i` of the header.
pub open spec fn word(b: Seq<u8>, i: int) -> nat {
    le32(b, 4 * i)
}

/// `n` words of the header, from word `from` on.
pub open spec fn words(b: Seq<u8>, from: int, n: nat) -> Seq<usize> {
    Seq::new(n, |i: int| word(b, from + i) as usize)
}

/// Whether layer `l` is marked in the two-word mask at word `from`.
pub open spec fn marked(b: Seq<u8>, from: int, l: int) -> bool {
    if l < 32 {
        bit(word(b, from), l as nat)
    } else {
        bit(word(b, from + 1), (l - 32) as nat)
    }
}

/// Bit `i` of a number.
pub open spec fn bit(n: nat, i: nat) -> bool
    decreases i,
{
    if i == 0 {
        n % 2 == 1
    } else {
        bit(n / 2, (i - 1) as nat)
    }
}

/// The marked layers below `n`, ascending. The mask has room for sixty-four.
pub open spec fn marked_layers(b: Seq<u8>, from: int, n: nat) -> Seq<usize>
    decreases n,
{
    if n == 0 {
        Seq::empty()
    } else {
        let before = marked_layers(b, from, (n - 1) as nat);
        if n <= 64 && marked(b, from, n - 1) {
            before.push((n - 1) as usize)
        } else {
            before
        }
    }
}

/// Where the directory starts: behind the header and the codebook.
pub open spec fn directory_at(b: Seq<u8>) -> nat {
    HEADER_LEN as nat + 4 * word(b, 2)
}

/// Where record `i` starts.
pub open spec fn record_at(b: Seq<u8>, i: int) -> int {
    directory_at(b) + RECORD_LEN * i
}

/// Record `i` of the directory.
pub open spec fn reads_record(b: Seq<u8>, i: int, r: Record) -> bool {
    let at = record_at(b, i);
    &&& r.dtype == b[at]
    &&& r.ndim == b[at + 1]
    &&& r.shape[0] == le32(b, at + 4)
    &&& r.shape[1] == le32(b, at + 8)
    &&& r.shape[2] == le32(b, at + 12)
    &&& r.shape[3] == le32(b, at + 16)
    &&& r.offset == le64(b, at + 20)
    &&& r.nbytes == le64(b, at + 28)
    &&& r.group == le32(b, at + 36)
    &&& r.bits == le32(b, at + 40)
}

/// The geometry that the header declares.
pub open spec fn reads_geometry(b: Seq<u8>, g: CactV3Geometry) -> bool {
    &&& g.num_tensors == word(b, 1)
    &&& g.kv_window == word(b, 3)
    &&& g.kv_bits == word(b, 4)
    &&& g.vocab_size == word(b, 5)
    &&& g.out_vocab == word(b, 6)
    &&& g.d_model == word(b, 7)
    &&& g.num_heads == word(b, 8)
    &&& g.num_kv_heads == word(b, 9)
    &&& g.num_layers == word(b, 10)
    &&& g.qk_head_dim == word(b, 11)
    &&& g.v_head_dim == word(b, 12)
    &&& g.max_seq_len == word(b, 13)
    &&& g.hada_n == word(b, 14)
    &&& g.mhc_lanes == word(b, 15)
    &&& g.sliding_window == word(b, 16)
    &&& g.global@ == marked_layers(b, 17, word(b, 10))
    &&& g.qkv_conv_taps == word(b, 19)
    &&& g.engram_slots == word(b, 20)
    &&& g.engram_sub_dim == word(b, 21)
    &&& g.num_engram_tables == word(b, 22)
    &&& g.engram_conv_taps == word(b, 23)
    &&& g.engram_conv_dilation == word(b, 24)
    &&& g.engram_seed_heads == word(b, 25)
    &&& g.engram_orders@ == words(b, 27, word(b, 26))
    &&& g.engram_sites@ == words(b, 32, word(b, 31))
    &&& g.rope_theta == word(b, 48)
}

/// The payload of record `i` lies inside the file.
pub open spec fn payload_inside(b: Seq<u8>, i: int) -> bool {
    le64(b, record_at(b, i) + 20) + le64(b, record_at(b, i) + 28) <= b.len()
}

/// The first records of the directory, each with its payload in the file.
spec fn are_records(b: Seq<u8>, list: Seq<Record>) -> bool {
    forall|k: int|
        0 <= k < list.len() ==> reads_record(b, k, #[trigger] list[k]) && payload_inside(b, k)
}

/// A container is read if its header and directory fit the file, its lists fit
/// the header, and every payload lies inside the file; else the error says
/// what came first.
pub open spec fn container_fault(b: Seq<u8>, e: CactError) -> bool {
    if b.len() < HEADER_LEN {
        e == CactError::Truncated { need: HEADER_LEN, got: b.len() as usize }
    } else if word(b, 0) != V3_TAG {
        e == CactError::BadTag { tag: word(b, 0) as u32 }
    } else if word(b, 26) > MAX_ORDERS {
        e matches CactError::BadCount { what, got } && what@ == "engram orders"@ && got == word(
            b,
            26,
        )
    } else if word(b, 31) > MAX_SITES {
        e matches CactError::BadCount { what, got } && what@ == "engram sites"@ && got == word(b, 31)
    } else if record_at(b, word(b, 1) as int) > b.len() {
        e matches CactError::Truncated { need, got } && got == b.len() && (record_at(
            b,
            word(b, 1) as int,
        ) <= usize::MAX ==> need == record_at(b, word(b, 1) as int))
    } else {
        e matches CactError::OutOfBounds { index } && index < word(b, 1) && !payload_inside(
            b,
            index as int,
        ) && forall|i: int| 0 <= i < index ==> #[trigger] payload_inside(b, i)
    }
}

/// Whether a file is a readable v3 container.
pub open spec fn is_container(b: Seq<u8>) -> bool {
    &&& b.len() >= HEADER_LEN
    &&& word(b, 0) == V3_TAG
    &&& word(b, 26) <= MAX_ORDERS
    &&& word(b, 31) <= MAX_SITES
    &&& record_at(b, word(b, 1) as int) <= b.len()
    &&& forall|i: int| 0 <= i < word(b, 1) ==> #[trigger] payload_inside(b, i)
}

/// Record `i` is the first of opaque bytes.
pub open spec fn first_opaque(records: Seq<Record>, i: int) -> bool {
    &&& 0 <= i < records.len()
    &&& records[i].dtype == DT_RAW
    &&& forall|k: int| 0 <= k < i ==> (#[trigger] records[k]).dtype != DT_RAW
}

fn header_word(b: &[u8], i: usize) -> (n: u32)
    requires
        i < 49,
        b@.len() >= HEADER_LEN,
    ensures
        n == word(b@, i as int),
{
    read_u32(b, 4 * i)
}

fn header_size(b: &[u8], i: usize) -> (n: usize)
    requires
        i < 49,
        b@.len() >= HEADER_LEN,
    ensures
        n == word(b@, i as int),
{
    header_word(b, i) as usize
}

fn header_words(b: &[u8], from: usize, n: usize) -> (list: Vec<usize>)
    requires
        from + n <= 49,
        b@.len() >= HEADER_LEN,
    ensures
        list@ == words(b@, from as int, n as nat),
{
    let mut list: Vec<usize> = Vec::new();
    let mut i: usize = 0;
    while i < n
        invariant
            i <= n,
            from + n <= 49,
            b@.len() >= HEADER_LEN,
            list@ == words(b@, from as int, i as nat),
        decreases n - i,
    {
        list.push(header_size(b, from + i));
        i = i + 1;
        assert(list@ =~= words(b@, from as int, i as nat));
    }
    list
}

proof fn lemma_bit_shift(n: nat, i: nat)
    ensures
        bit(n, i + 1) == bit(n / 2, i),
{
}

/// The marked layers below `n`.
fn header_layers(b: &[u8], from: usize, n: usize) -> (list: Vec<usize>)
    requires
        from + 2 <= 49,
        b@.len() >= HEADER_LEN,
    ensures
        list@ == marked_layers(b@, from as int, n as nat),
{
    let low: u32 = header_word(b, from);
    let high: u32 = header_word(b, from + 1);
    let mut list: Vec<usize> = Vec::new();
    let mut rest: u32 = low;
    let mut l: usize = 0;
    while l < n && l < 64
        invariant
            l <= n,
            l <= 64,
            low == word(b@, from as int),
            high == word(b@, from + 1),
            list@ == marked_layers(b@, from as int, l as nat),
            l < 32 ==> forall|k: nat| #[trigger] bit(rest as nat, k) == bit(low as nat, (k + l) as nat),
            32 <= l < 64 ==> forall|k: nat| #[trigger]
                bit(rest as nat, k) == bit(high as nat, (k + l - 32) as nat),
        decreases n - l,
    {
        assert(bit(rest as nat, 0) == (rest % 2 == 1));
        assert(marked(b@, from as int, l as int) == (rest % 2 == 1));
        if rest % 2 == 1 {
            list.push(l);
        }
        let ghost was = rest;
        rest = rest / 2;
        proof {
            assert forall|k: nat| #[trigger] bit(rest as nat, k) == bit(was as nat, k + 1) by {
                lemma_bit_shift(was as nat, k);
            }
        }
        l = l + 1;
        if l == 32 {
            rest = high;
        }
    }
    proof {
        lemma_no_more_marks(b@, from as int, l as nat, n as nat);
    }
    list
}

proof fn lemma_no_more_marks(b: Seq<u8>, from: int, l: nat, n: nat)
    requires
        l == n || 64 <= l <= n,
    ensures
        marked_layers(b, from, l) == marked_layers(b, from, n),
    decreases n,
{
    if l < n {
        lemma_no_more_marks(b, from, l, (n - 1) as nat);
    }
}

fn read_geometry(b: &[u8]) -> (g: CactV3Geometry)
    requires
        b@.len() >= HEADER_LEN,
        word(b@, 26) <= MAX_ORDERS,
        word(b@, 31) <= MAX_SITES,
    ensures
        reads_geometry(b@, g),
{
    let num_layers: usize = header_size(b, 10);
    let orders: usize = header_size(b, 26);
    let sites: usize = header_size(b, 31);
    CactV3Geometry {
        num_tensors: header_size(b, 1),
        kv_window: header_size(b, 3),
        kv_bits: header_word(b, 4),
        vocab_size: header_size(b, 5),
        out_vocab: header_size(b, 6),
        d_model: header_size(b, 7),
        num_heads: header_size(b, 8),
        num_kv_heads: header_size(b, 9),
        num_layers,
        qk_head_dim: header_size(b, 11),
        v_head_dim: header_size(b, 12),
        max_seq_len: header_size(b, 13),
        hada_n: header_size(b, 14),
        mhc_lanes: header_size(b, 15),
        sliding_window: header_size(b, 16),
        global: header_layers(b, 17, num_layers),
        qkv_conv_taps: header_size(b, 19),
        engram_slots: header_size(b, 20),
        engram_sub_dim: header_size(b, 21),
        num_engram_tables: header_size(b, 22),
        engram_conv_taps: header_size(b, 23),
        engram_conv_dilation: header_size(b, 24),
        engram_seed_heads: header_size(b, 25),
        engram_orders: header_words(b, 27, orders),
        engram_sites: header_words(b, 32, sites),
        rope_theta: header_word(b, 48),
    }
}

fn read_record(b: &[u8], at: usize, i: Ghost<int>) -> (r: Record)
    requires
        at == record_at(b@, i@),
        at + RECORD_LEN <= b@.len(),
    ensures
        reads_record(b@, i@, r),
{
    let total: usize = b.len();
    let s0: usize = read_u32(b, at + 4) as usize;
    let s1: usize = read_u32(b, at + 8) as usize;
    let s2: usize = read_u32(b, at + 12) as usize;
    let s3: usize = read_u32(b, at + 16) as usize;
    Record {
        dtype: b[at],
        ndim: b[at + 1],
        shape: [s0, s1, s2, s3],
        offset: read_u64(b, at + 20),
        nbytes: read_u64(b, at + 28),
        group: read_u32(b, at + 36) as usize,
        bits: read_u32(b, at + 40),
    }
}

/// A v3 container in memory.
pub struct CactV3 {
    bytes: Vec<u8>,
    pub geom: CactV3Geometry,
    records: Vec<Record>,
}

impl CactV3 {
    /// The file.
    pub closed spec fn bytes(&self) -> Seq<u8> {
        self.bytes@
    }

    /// The geometry that the header declares.
    pub closed spec fn geometry(&self) -> CactV3Geometry {
        self.geom
    }

    /// The directory.
    pub closed spec fn directory(&self) -> Seq<Record> {
        self.records@
    }

    /// The directory is the file's, and every payload lies inside the file.
    pub closed spec fn wf(&self) -> bool {
        &&& is_container(self.bytes@)
        &&& self.records@.len() == word(self.bytes@, 1)
        &&& forall|i: int|
            0 <= i < self.records@.len() ==> reads_record(
                self.bytes@,
                i,
                #[trigger] self.records@[i],
            )
    }

    /// The bytes of tensor `i`.
    pub open spec fn payload_of(&self, i: int) -> Seq<u8> {
        let r = self.directory()[i];
        self.bytes().subrange(r.offset as int, r.offset + r.nbytes)
    }

    /// The values of tensor `i`, as the bits of single-precision numbers;
    /// `None` where it holds something else.
    pub open spec fn values_of(&self, i: int) -> Option<Seq<u32>> {
        let raw = self.payload_of(i);
        if self.directory()[i].dtype == DT_FP16 {
            Some(Seq::new(raw.len() / 2, |k: int| widened(le16(raw, 2 * k) as u16) as u32))
        } else if self.directory()[i].dtype == DT_FP32 {
            Some(Seq::new(raw.len() / 4, |k: int| le32(raw, 4 * k) as u32))
        } else {
            None
        }
    }

    /// Read a container.
    pub fn from_bytes(bytes: Vec<u8>) -> (c: Result<Self, CactError>)
        ensures
            match c {
                Ok(c) => {
                    &&& is_container(bytes@)
                    &&& c.wf()
                    &&& c.bytes() == bytes@
                    &&& reads_geometry(bytes@, c.geometry())
                    &&& c.directory().len() == word(bytes@, 1)
                    &&& forall|i: int|
                        0 <= i < c.directory().len() ==> reads_record(
                            bytes@,
                            i,
                            #[trigger] c.directory()[i],
                        )
                },
                Err(e) => !is_container(bytes@) && container_fault(bytes@, e),
            },
    {
        let total: usize = bytes.len();
        if total < HEADER_LEN {
            return Err(CactError::Truncated { need: HEADER_LEN, got: total });
        }
        let tag: u32 = header_word(&bytes, 0);
        if tag != V3_TAG {
            return Err(CactError::BadTag { tag });
        }
        let orders: usize = header_size(&bytes, 26);
        if orders > MAX_ORDERS {
            return Err(CactError::BadCount { what: "engram orders", got: orders });
        }
        let sites: usize = header_size(&bytes, 31);
        if sites > MAX_SITES {
            return Err(CactError::BadCount { what: "engram sites", got: sites });
        }
        let tensors: usize = header_size(&bytes, 1);
        let codebook: u32 = header_word(&bytes, 2);
        let start: u64 = HEADER_LEN as u64 + 4 * (codebook as u64);
        let end: u64 = start + (RECORD_LEN as u64) * (tensors as u64);
        if end > total as u64 {
            let need: usize = if end <= usize::MAX as u64 {
                end as usize
            } else {
                usize::MAX
            };
            return Err(CactError::Truncated { need, got: total });
        }
        let base: usize = start as usize;
        let mut records: Vec<Record> = Vec::new();
        let mut i: usize = 0;
        while i < tensors
            invariant
                i <= tensors,
                total == bytes@.len(),
                total >= HEADER_LEN,
                word(bytes@, 0) == V3_TAG,
                word(bytes@, 26) <= MAX_ORDERS,
                word(bytes@, 31) <= MAX_SITES,
                tensors == word(bytes@, 1),
                base == directory_at(bytes@),
                base + RECORD_LEN * tensors <= total,
                records@.len() == i,
                are_records(bytes@, records@),
            decreases tensors - i,
        {
            let at: usize = base + RECORD_LEN * i;
            let r = read_record(&bytes, at, Ghost(i as int));
            let inside: bool = match r.offset.checked_add(r.nbytes) {
                Some(stop) => stop <= total as u64,
                None => false,
            };
            if !inside {
                proof {
                    assert(!payload_inside(bytes@, i as int));
                    assert forall|k: int| 0 <= k < i implies #[trigger] payload_inside(
                        bytes@,
                        k,
                    ) by {
                        assert(reads_record(bytes@, k, records@[k]));
                    }
                }
                return Err(CactError::OutOfBounds { index: i });
            }
            assert(payload_inside(bytes@, i as int));
            let ghost before = records@;
            records.push(r);
            assert(are_records(bytes@, records@)) by {
                assert forall|k: int| 0 <= k < records@.len() implies reads_record(
                    bytes@,
                    k,
                    #[trigger] records@[k],
                ) && payload_inside(bytes@, k) by {
                    if k < i {
                        assert(records@[k] == before[k]);
                    }
                }
            }
            i = i + 1;
        }
        proof {
            assert forall|k: int| 0 <= k < word(bytes@, 1) implies #[trigger] payload_inside(
                bytes@,
                k,
            ) by {
                assert(reads_record(bytes@, k, records@[k]));
            }
        }
        let geom = read_geometry(&bytes);
        Ok(CactV3 { bytes, geom, records })
    }

    /// The geometry that the header declares.
    pub fn geometry_ref(&self) -> (g: &CactV3Geometry)
        ensures
            *g == self.geometry(),
    {
        &self.geom
    }

    /// The directory.
    pub fn records(&self) -> (records: &[Record])
        ensures
            records@ == self.directory(),
    {
        self.records.as_slice()
    }

    /// Record `i` of the directory.
    pub fn record(&self, i: usize) -> (r: &Record)
        requires
            i < self.directory().len(),
        ensures
            *r == self.directory()[i as int],
    {
        &self.records[i]
    }

    /// How many tensors the directory lists.
    pub fn num_tensors(&self) -> (n: usize)
        ensures
            n == self.directory().len(),
    {
        self.records.len()
    }

    /// The size of the file.
    pub fn byte_len(&self) -> (n: usize)
        ensures
            n == self.bytes().len(),
    {
        self.bytes.len()
    }

    /// The bytes of tensor `i`.
    pub fn payload(&self, i: usize) -> (bytes: &[u8])
        requires
            self.wf(),
            i < self.directory().len(),
        ensures
            bytes@ == self.payload_of(i as int),
    {
        proof {
            assert(reads_record(self.bytes@, i as int, self.records@[i as int]));
            assert(payload_inside(self.bytes@, i as int));
        }
        let total: usize = self.bytes.len();
        let r = &self.records[i];
        let from: usize = r.offset as usize;
        let to: usize = (r.offset + r.nbytes) as usize;
        vstd::slice::slice_subrange(self.bytes.as_slice(), from, to)
    }

    /// The embedded tokenizer: the first tensor of opaque bytes.
    pub fn tokenizer_blob(&self) -> (blob: Option<&[u8]>)
        requires
            self.wf(),
        ensures
            match blob {
                Some(b) => exists|i: int| #[trigger]
                    first_opaque(self.directory(), i) && b@ == self.payload_of(i),
                None => forall|i: int|
                    0 <= i < self.directory().len() ==> (#[trigger] self.directory()[i]).dtype
                        != DT_RAW,
            },
    {
        let mut i: usize = 0;
        while i < self.records.len()
            invariant
                i <= self.records@.len(),
                self.wf(),
                forall|k: int| 0 <= k < i ==> (#[trigger] self.records@[k]).dtype != DT_RAW,
            decreases self.records.len() - i,
        {
            if self.records[i].dtype == DT_RAW {
                assert(first_opaque(self.directory(), i as int));
                return Some(self.payload(i));
            }
            i = i + 1;
        }
        None
    }

    /// The values of tensor `i`, as the bits of single-precision numbers.
    pub fn floats(&self, i: usize) -> (values: Result<Vec<u32>, CactError>)
        requires
            self.wf(),
            i < self.directory().len(),
        ensures
            match values {
                Ok(v) => self.values_of(i as int) == Some(v@),
                Err(e) => self.values_of(i as int) is None && e == CactError::NotFloats {
                    index: i,
                },
            },
    {
        let raw = self.payload(i);
        let dtype: u8 = self.records[i].dtype;
        let n: usize = raw.len();
        let mut out: Vec<u32> = Vec::new();
        let mut k: usize = 0;
        if dtype == DT_FP16 {
            let ghost all = Seq::new(
                raw@.len() / 2,
                |k: int| widened(le16(raw@, 2 * k) as u16) as u32,
            );
            while k < n / 2
                invariant
                    n == raw@.len(),
                    k <= n / 2,
                    out@.len() == k,
                    forall|j: int|
                        0 <= j < k ==> #[trigger] out@[j] == widened(
                            le16(raw@, 2 * j) as u16,
                        ) as u32,
                decreases n / 2 - k,
            {
                out.push(f16_to_f32(read_u16(raw, 2 * k)));
                k = k + 1;
            }
            assert(out@ =~= all);
            Ok(out)
        } else if dtype == DT_FP32 {
            let ghost all = Seq::new(raw@.len() / 4, |k: int| le32(raw@, 4 * k) as u32);
            while k < n / 4
                invariant
                    n == raw@.len(),
                    k <= n / 4,
                    out@.len() == k,
                    forall|j: int| 0 <= j < k ==> #[trigger] out@[j] == le32(raw@, 4 * j) as u32,
                decreases n / 4 - k,
            {
                out.push(read_u32(raw, 4 * k));
                k = k + 1;
            }
            assert(out@ =~= all);
            Ok(out)
        } else {
            Err(CactError::NotFloats { index: i })
        }
    }
}

/// The whole parts of values.
pub open spec fn whole_parts(values: Seq<u32>) -> Seq<u32> {
    Seq::new(values.len(), |i: int| whole_part(values[i]) as u32)
}

/// A stored permutation: whole numbers that are kept as values.
pub fn indices_of(values: &[u32]) -> (out: Vec<u32>)
    ensures
        out@ == whole_parts(values@),
{
    let mut out: Vec<u32> = Vec::new();
    let mut i: usize = 0;
    while i < values.len()
        invariant
            i <= values@.len(),
            out@.len() == i,
            forall|k: int| 0 <= k < i ==> #[trigger] out@[k] == whole_part(values@[k]),
        decreases values.len() - i,
    {
        out.push(to_u32(values[i]));
        i = i + 1;
    }
    assert(out@ =~= whole_parts(values@));
    out
}

/// The head codes of a manifest: whole numbers that are kept as values, each
/// held in a byte.
pub fn codes_of(values: &[u32]) -> (out: Vec<u8>)
    ensures
        out@.len() == values@.len(),
        forall|i: int|
            0 <= i < out@.len() ==> #[trigger] out@[i] == (if whole_part(values@[i]) > u8::MAX {
                u8::MAX as nat
            } else {
                whole_part(values@[i])
            }),
{
    let mut out: Vec<u8> = Vec::new();
    let mut i: usize = 0;
    while i < values.len()
        invariant
            i <= values@.len(),
            out@.len() == i,
            forall|k: int|
                0 <= k < i ==> #[trigger] out@[k] == (if whole_part(values@[k]) > u8::MAX {
                    u8::MAX as nat
                } else {
                    whole_part(values@[k])
                }),
        decreases values.len() - i,
    {
        let n: u32 = to_u32(values[i]);
        out.push(
            if n > u8::MAX as u32 {
                u8::MAX
            } else {
                n as u8
            },
        );
        i = i + 1;
    }
    out
}

/// Words, four bytes each.
pub open spec fn words_written(list: Seq<u32>) -> Seq<u8>
    decreases list.len(),
{
    if list.len() == 0 {
        Seq::empty()
    } else {
        words_written(list.drop_last()) + four_bytes(list.last() as nat)
    }
}

proof fn lemma_words_written(list: Seq<u32>, rest: Seq<u8>, i: int)
    requires
        0 <= i < list.len(),
    ensures
        words_written(list).len() == 4 * list.len(),
        le32(words_written(list) + rest, 4 * i) == list[i],
    decreases list.len(),
{
    let before = list.drop_last();
    let last = four_bytes(list.last() as nat);
    if before.len() > 0 {
        lemma_words_written(before, last + rest, 0);
    }
    assert(words_written(before).len() == 4 * before.len());
    assert(words_written(list) + rest =~= words_written(before) + (last + rest));
    if i < before.len() {
        lemma_words_written(before, last + rest, i);
        assert(before[i] == list[i]);
    } else {
        written_numbers_read_back(words_written(before), list.last() as nat, 0, rest);
        assert(words_written(list) + rest =~= words_written(before) + last + rest);
    }
}

/// The header of a container says what was written in it, word by word.
pub proof fn a_written_header_reads_back(h: Seq<u32>, rest: Seq<u8>, g: CactV3Geometry)
    requires
        h.len() == 49,
        h[26] <= 4,
        h[31] <= 16,
        reads_geometry(words_written(h) + rest, g),
    ensures
        g.num_tensors == h[1],
        g.kv_window == h[3],
        g.kv_bits == h[4],
        g.vocab_size == h[5],
        g.out_vocab == h[6],
        g.d_model == h[7],
        g.num_heads == h[8],
        g.num_kv_heads == h[9],
        g.num_layers == h[10],
        g.qk_head_dim == h[11],
        g.v_head_dim == h[12],
        g.max_seq_len == h[13],
        g.hada_n == h[14],
        g.mhc_lanes == h[15],
        g.sliding_window == h[16],
        g.qkv_conv_taps == h[19],
        g.engram_slots == h[20],
        g.engram_sub_dim == h[21],
        g.num_engram_tables == h[22],
        g.engram_conv_taps == h[23],
        g.engram_conv_dilation == h[24],
        g.engram_seed_heads == h[25],
        g.engram_orders@.len() == h[26],
        forall|i: int| 0 <= i < h[26] ==> #[trigger] g.engram_orders@[i] == h[27 + i],
        g.engram_sites@.len() == h[31],
        forall|i: int| 0 <= i < h[31] ==> #[trigger] g.engram_sites@[i] == h[32 + i],
        g.rope_theta == h[48],
        forall|l: int|
            #![trigger g.global@.contains(l as usize)]
            0 <= l < 64 ==> (g.global@.contains(l as usize) <==> l < h[10] && ((h[17]
                + 4294967296 * h[18]) / pow2(l as nat) as int) % 2 == 1),
{
    let b = words_written(h) + rest;
    assert forall|i: int| 0 <= i < 49 implies #[trigger] word(b, i) == h[i] by {
        lemma_words_written(h, rest, i);
    }
    assert(word(b, 1) == h[1] && word(b, 3) == h[3] && word(b, 4) == h[4] && word(b, 5) == h[5]);
    assert(word(b, 6) == h[6] && word(b, 7) == h[7] && word(b, 8) == h[8] && word(b, 9) == h[9]);
    assert(word(b, 10) == h[10] && word(b, 11) == h[11] && word(b, 12) == h[12]);
    assert(word(b, 13) == h[13] && word(b, 14) == h[14] && word(b, 15) == h[15]);
    assert(word(b, 16) == h[16] && word(b, 17) == h[17] && word(b, 18) == h[18]);
    assert(word(b, 19) == h[19] && word(b, 20) == h[20] && word(b, 21) == h[21]);
    assert(word(b, 22) == h[22] && word(b, 23) == h[23] && word(b, 24) == h[24]);
    assert(word(b, 25) == h[25] && word(b, 26) == h[26] && word(b, 31) == h[31]);
    assert(word(b, 48) == h[48]);
    assert forall|i: int| 0 <= i < h[26] implies #[trigger] g.engram_orders@[i] == h[27 + i] by {
        assert(word(b, 27 + i) == h[27 + i]);
    }
    assert forall|i: int| 0 <= i < h[31] implies #[trigger] g.engram_sites@[i] == h[32 + i] by {
        assert(word(b, 32 + i) == h[32 + i]);
    }
    assert forall|l: int|
        #![trigger g.global@.contains(l as usize)]
        0 <= l < 64 implies (g.global@.contains(l as usize) <==> l < h[10] && ((h[17]
        + 4294967296 * h[18]) / pow2(l as nat) as int) % 2 == 1) by {
        lemma_marked_layers(b, 17, h[10] as nat, l as usize);
        lemma_mask_bit(h[17] as nat, h[18] as nat, l as nat);
    }
}

proof fn lemma_marked_layers(b: Seq<u8>, from: int, n: nat, l: usize)
    requires
        l < 64,
        n <= u32::MAX,
    ensures
        marked_layers(b, from, n).contains(l) <==> l < n && marked(b, from, l as int),
    decreases n,
{
    if n > 0 {
        let before = marked_layers(b, from, (n - 1) as nat);
        lemma_marked_layers(b, from, (n - 1) as nat, l);
        let all = marked_layers(b, from, n);
        if n <= 64 && marked(b, from, n - 1) {
            assert(all[before.len() as int] == (n - 1) as usize);
            if before.contains(l) {
                let k = choose|k: int| 0 <= k < before.len() && before[k] == l;
                assert(all[k] == l);
            }
            if all.contains(l) {
                let k = choose|k: int| 0 <= k < all.len() && all[k] == l;
                if k < before.len() {
                    assert(before[k] == l);
                }
            }
        }
    }
}

proof fn lemma_bit_is_quotient(n: nat, i: nat)
    ensures
        bit(n, i) <==> (n as int / pow2(i) as int) % 2 == 1,
    decreases i,
{
    if i == 0 {
        vstd::arithmetic::power2::lemma2_to64();
    } else {
        lemma_bit_is_quotient(n / 2, (i - 1) as nat);
        vstd::arithmetic::power2::lemma_pow2_unfold(i);
        vstd::arithmetic::power2::lemma_pow2_pos((i - 1) as nat);
        vstd::arithmetic::div_mod::lemma_div_denominator(n as int, 2, pow2((i - 1) as nat) as int);
    }
}

proof fn lemma_mask_bit(low: nat, high: nat, l: nat)
    requires
        low < 4294967296,
        l < 64,
    ensures
        ((low as int + 4294967296 * high) / pow2(l) as int) % 2 == 1 <==> if l < 32 {
            bit(low, l)
        } else {
            bit(high, (l - 32) as nat)
        },
{
    vstd::arithmetic::power2::lemma2_to64();
    let p = pow2(l) as int;
    vstd::arithmetic::power2::lemma_pow2_pos(l);
    if l < 32 {
        lemma_bit_is_quotient(low, l);
        vstd::arithmetic::power2::lemma_pow2_adds(l, (32 - l) as nat);
        vstd::arithmetic::power2::lemma_pow2_unfold((32 - l) as nat);
        let half = pow2((31 - l) as nat) as int;
        let more = 2 * (half * high);
        assert(4294967296 * high == p * more) by (nonlinear_arith)
            requires
                4294967296 == p * (2 * half),
                more == 2 * (half * high),
        ;
        assert(low + p * more == p * more + low);
        vstd::arithmetic::div_mod::lemma_hoist_over_denominator(low as int, more, p as nat);
        assert((low as int + more * p) / p == low as int / p + more);
        assert(more * p == p * more) by (nonlinear_arith);
    } else {
        let k = (l - 32) as nat;
        lemma_bit_is_quotient(high, k);
        vstd::arithmetic::power2::lemma_pow2_adds(32, k);
        vstd::arithmetic::power2::lemma_pow2_pos(k);
        vstd::arithmetic::div_mod::lemma_div_denominator(
            low as int + 4294967296 * high,
            4294967296,
            pow2(k) as int,
        );
        assert((low + 4294967296 * high) / 4294967296 == high);
    }
}

/// A directory record says what was written in it.
pub proof fn a_written_record_reads_back(
    before: Seq<u8>,
    dtype: u8,
    ndim: u8,
    pad: Seq<u8>,
    w: Seq<u32>,
    after: Seq<u8>,
    i: int,
    r: Record,
)
    requires
        pad.len() == 2,
        w.len() == 10,
        ({
            let b = before + (seq![dtype, ndim] + pad + words_written(w)) + after;
            &&& 0 <= i
            &&& record_at(b, i) == before.len()
            &&& reads_record(b, i, r)
        }),
    ensures
        r.dtype == dtype,
        r.ndim == ndim,
        r.shape[0] == w[0],
        r.shape[1] == w[1],
        r.shape[2] == w[2],
        r.shape[3] == w[3],
        r.offset == w[4] + 4294967296 * w[5],
        r.nbytes == w[6] + 4294967296 * w[7],
        r.group == w[8],
        r.bits == w[9],
{
    let head = seq![dtype, ndim] + pad;
    let b = before + (head + words_written(w)) + after;
    let at = before.len() as int;
    lemma_words_written(w, after, 0);
    let ws = words_written(w);
    assert(b[at] == dtype);
    assert(b[at + 1] == ndim);
    let tail = ws + after;
    assert forall|k: int| 0 <= k < 10 implies #[trigger] le32(b, at + 4 + 4 * k) == w[k] by {
        lemma_words_written(w, after, k);
        assert(b[at + 4 + 4 * k] == tail[4 * k]);
        assert(b[at + 4 + 4 * k + 1] == tail[4 * k + 1]);
        assert(b[at + 4 + 4 * k + 2] == tail[4 * k + 2]);
        assert(b[at + 4 + 4 * k + 3] == tail[4 * k + 3]);
    }
    assert(le32(b, at + 4 + 4 * 0) == w[0] && le32(b, at + 4 + 4 * 1) == w[1]);
    assert(le32(b, at + 4 + 4 * 2) == w[2] && le32(b, at + 4 + 4 * 3) == w[3]);
    assert(le32(b, at + 4 + 4 * 4) == w[4] && le32(b, at + 4 + 4 * 5) == w[5]);
    assert(le32(b, at + 4 + 4 * 6) == w[6] && le32(b, at + 4 + 4 * 7) == w[7]);
    assert(le32(b, at + 4 + 4 * 8) == w[8] && le32(b, at + 4 + 4 * 9) == w[9]);
}

/// The directory stands behind forty-nine words of header and the codebook, a
/// record to forty-four bytes.
pub proof fn records_stand_in_a_row(h: Seq<u32>, rest: Seq<u8>, i: int)
    requires
        h.len() == 49,
    ensures
        record_at(words_written(h) + rest, i) == 196 + 4 * h[2] + 44 * i,
{
    lemma_words_written(h, rest, 2);
}

/// The geometry of a model is what was written in the header of its file, word
/// by word, and as many hash heads to an order as make up its tables.
pub proof fn a_config_is_what_the_header_says(
    h: Seq<u32>,
    rest: Seq<u8>,
    g: CactV3Geometry,
    cfg: V3Config,
)
    requires
        h.len() == 49,
        h[26] <= 4,
        h[31] <= 16,
        reads_geometry(words_written(h) + rest, g),
        geometry_fault(&g) is None,
        carries(&cfg, &g),
    ensures
        cfg.vocab_size == h[5],
        cfg.out_vocab == h[6],
        cfg.d_model == h[7],
        cfg.num_heads == h[8],
        cfg.num_kv_heads == h[9],
        cfg.num_layers == h[10],
        cfg.qk_head_dim == h[11],
        cfg.v_head_dim == h[12],
        cfg.max_seq_len == h[13],
        cfg.hada_n == h[14],
        cfg.mhc_lanes == h[15],
        cfg.sliding_window == h[16],
        cfg.qkv_conv_taps == h[19],
        cfg.engram.slots == h[20],
        cfg.engram.sub_dim == h[21],
        cfg.engram.heads * h[26] == h[22],
        cfg.engram.conv_taps == h[23],
        cfg.engram.conv_dilation == h[24],
        cfg.engram.seed_heads == h[25],
        cfg.engram.orders@.len() == h[26],
        forall|i: int| 0 <= i < h[26] ==> #[trigger] cfg.engram.orders@[i] == h[27 + i],
        cfg.engram.sites@.len() == h[31],
        forall|i: int| 0 <= i < h[31] ==> #[trigger] cfg.engram.sites@[i] == h[32 + i],
        cfg.rope_theta == h[48],
        forall|l: int|
            #![trigger cfg.global_layers@.contains(l as usize)]
            0 <= l < 64 ==> (cfg.global_layers@.contains(l as usize) <==> l < h[10] && ((h[17]
                + 4294967296 * h[18]) / pow2(l as nat) as int) % 2 == 1),
{
    a_written_header_reads_back(h, rest, g);
    a_header_is_accepted_where_it_multiplies_out(&g);
    let orders = g.engram_orders@.len() as int;
    let tables = g.num_engram_tables as int;
    vstd::arithmetic::div_mod::lemma_fundamental_div_mod(tables, orders);
    assert((tables / orders) * orders == orders * (tables / orders)) by (nonlinear_arith);
}

/// Half-precision numbers, two bytes each.
pub open spec fn halves_written(list: Seq<u16>) -> Seq<u8>
    decreases list.len(),
{
    if list.len() == 0 {
        Seq::empty()
    } else {
        halves_written(list.drop_last()) + two_bytes(list.last() as nat)
    }
}

proof fn lemma_halves_written(list: Seq<u16>, i: int)
    requires
        0 <= i < list.len(),
    ensures
        halves_written(list).len() == 2 * list.len(),
        le16(halves_written(list), 2 * i) == list[i],
    decreases list.len(),
{
    let before = list.drop_last();
    let w = halves_written(before);
    let last = two_bytes(list.last() as nat);
    if before.len() > 0 {
        lemma_halves_written(before, 0);
    }
    assert(w.len() == 2 * before.len());
    if i < before.len() {
        lemma_halves_written(before, i);
        assert((w + last)[2 * i] == w[2 * i]);
        assert((w + last)[2 * i + 1] == w[2 * i + 1]);
    } else {
        written_numbers_read_back(w, list.last() as nat, 0, Seq::empty());
        assert(w + last + Seq::<u8>::empty() =~= w + last);
    }
}

/// Numbers are read as they were written: single-precision ones bit by bit, and
/// half-precision ones widened.
pub proof fn written_values_are_read(c: CactV3, i: int, singles: Seq<u32>, halves: Seq<u16>)
    ensures
        c.directory()[i].dtype == 3 && c.payload_of(i) == words_written(singles)
            ==> c.values_of(i) == Some(singles),
        c.directory()[i].dtype == 1 && c.payload_of(i) == halves_written(halves)
            ==> c.values_of(i) == Some(halves.map_values(|h: u16| widened(h) as u32)),
{
    let raw = c.payload_of(i);
    if c.directory()[i].dtype == 3 && raw == words_written(singles) {
        if singles.len() > 0 {
            lemma_words_written(singles, Seq::empty(), 0);
        }
        assert(raw + Seq::<u8>::empty() =~= raw);
        assert forall|k: int| 0 <= k < singles.len() implies le32(raw, 4 * k) == #[trigger] singles[
            k
        ] by {
            lemma_words_written(singles, Seq::empty(), k);
        }
        assert(c.values_of(i)->0 =~= singles);
    }
    if c.directory()[i].dtype == 1 && raw == halves_written(halves) {
        if halves.len() > 0 {
            lemma_halves_written(halves, 0);
        }
        assert forall|k: int| 0 <= k < halves.len() implies le16(raw, 2 * k) == #[trigger] halves[
            k
        ] by {
            lemma_halves_written(halves, k);
        }
        assert(c.values_of(i)->0 =~= halves.map_values(|h: u16| widened(h) as u32));
    }
}

/// A file is a container exactly where it starts with the tag, lists no more
/// orders and sites than there is room for, holds its whole directory, and
/// holds every payload that the directory tells of.
pub proof fn a_container_is_whole(h: Seq<u32>, rest: Seq<u8>)
    requires
        h.len() == 49,
    ensures
        ({
            let b = words_written(h) + rest;
            is_container(b) <==> {
                &&& h[0] == 0x05E1_2A84
                &&& h[26] <= 4
                &&& h[31] <= 16
                &&& 196 + 4 * h[2] + 44 * h[1] <= b.len()
                &&& forall|i: int|
                    0 <= i < h[1] ==> le64(b, #[trigger] record_at(b, i) + 20) + le64(
                        b,
                        record_at(b, i) + 28,
                    ) <= b.len()
            }
        }),
{
    let b = words_written(h) + rest;
    lemma_words_written(h, rest, 0);
    lemma_words_written(h, rest, 1);
    lemma_words_written(h, rest, 2);
    lemma_words_written(h, rest, 26);
    lemma_words_written(h, rest, 31);
    assert(word(b, 0) == h[0] && word(b, 1) == h[1] && word(b, 26) == h[26] && word(b, 31)
        == h[31]);
    records_stand_in_a_row(h, rest, h[1] as int);
    if is_container(b) {
        assert forall|i: int| 0 <= i < h[1] implies le64(b, #[trigger] record_at(b, i) + 20) + le64(
            b,
            record_at(b, i) + 28,
        ) <= b.len() by {
            assert(payload_inside(b, i));
        }
    }
}

/// A file that is refused is refused for the first thing that is wrong with it.
pub proof fn a_refused_file_says_why(h: Seq<u32>, rest: Seq<u8>, short: Seq<u8>, e: CactError)
    requires
        h.len() == 49,
    ensures
        short.len() < 196 && container_fault(short, e) ==> e is Truncated && e->need == 196
            && e->Truncated_got == short.len(),
        ({
            let b = words_written(h) + rest;
            let end = 196 + 4 * h[2] + 44 * h[1];
            container_fault(b, e) ==> {
                &&& h[0] != 0x05E1_2A84 ==> e is BadTag && e->tag == h[0]
                &&& h[0] == 0x05E1_2A84 && h[26] > 4 ==> e is BadCount && e->BadCount_got == h[26]
                &&& h[0] == 0x05E1_2A84 && h[26] <= 4 && h[31] > 16 ==> e is BadCount
                    && e->BadCount_got == h[31]
                &&& h[0] == 0x05E1_2A84 && h[26] <= 4 && h[31] <= 16 && end > b.len() ==> {
                    &&& e is Truncated
                    &&& e->Truncated_got == b.len()
                    &&& end <= usize::MAX ==> e->need == end
                }
                &&& h[0] == 0x05E1_2A84 && h[26] <= 4 && h[31] <= 16 && end <= b.len() ==> {
                    &&& e is OutOfBounds
                    &&& e->OutOfBounds_index < h[1]
                }
            }
        }),
{
    let b = words_written(h) + rest;
    lemma_words_written(h, rest, 0);
    lemma_words_written(h, rest, 1);
    lemma_words_written(h, rest, 2);
    lemma_words_written(h, rest, 26);
    lemma_words_written(h, rest, 31);
    assert(word(b, 0) == h[0] && word(b, 1) == h[1] && word(b, 26) == h[26] && word(b, 31)
        == h[31]);
    records_stand_in_a_row(h, rest, h[1] as int);
}

} // verus!
