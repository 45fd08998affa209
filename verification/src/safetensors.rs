//! The SafeTensors container.
//!
//! Eight bytes give the length of a JSON header, little end first; the header
//! follows, and then the data of the tensors. The header maps each tensor's
//! name to its element type, its shape and the range of its bytes in the data,
//! and the name `__metadata__` to an object of strings. Escapes inside strings
//! are stepped over and left as they are written.

use vstd::hash_map::StringHashMap;
use vstd::prelude::*;
use vstd::utf8::{decode_utf8, valid_utf8};
use crate::bytes::{le16, le32, le64, read_u16, read_u32, read_u64};
use crate::floats::{bf16_to_f32, f16_to_f32, i8_to_f32, whole_bits, widened};
use crate::json::{after_space, close_end, end_of_block, end_of_string, skip_space, string_end};
use crate::quant::{high_code, low_code, sign_extend4};
use crate::text::{
    ascii_space,
    chars_of,
    find_char,
    find_from,
    first_found,
    index_from,
    is_ascii_space,
    is_white_space,
    lemma_index_from,
    number_value,
    parse_usize,
    part_of,
    past_space,
    push_str,
    same_chars,
    text_of,
    trim,
    trimmed,
};

verus! {

/// The element types that can be read.
#[derive(Debug, Clone, Copy, PartialEq, Eq, Structural)]
pub enum DType {
    F32,
    BF16,
    F16,
    I8,
    /// Two four-bit codes to a byte.
    I4,
}

/// What the header says of one tensor.
#[derive(Debug, Clone)]
pub struct TensorMeta {
    pub dtype: DType,
    pub shape: Vec<usize>,
    pub data_start: usize,
    pub data_end: usize,
}

/// A tensor's entry, as values.
pub struct MetaSpec {
    pub dtype: DType,
    pub shape: Seq<usize>,
    pub data_start: usize,
    pub data_end: usize,
}

impl View for TensorMeta {
    type V = MetaSpec;

    open spec fn view(&self) -> MetaSpec {
        MetaSpec {
            dtype: self.dtype,
            shape: self.shape@,
            data_start: self.data_start,
            data_end: self.data_end,
        }
    }
}

/// Why a header is refused.
#[allow(inconsistent_fields)]
pub enum HeaderFault {
    NotAnObject,
    MissingDtype(Seq<char>),
    MissingShape(Seq<char>),
    MissingOffsets(Seq<char>),
    OffsetCount,
    UnknownDtype(Seq<char>),
}

/// Why a file is refused.
#[allow(inconsistent_fields)]
#[derive(Debug, Clone, PartialEq, Eq)]
pub enum SafeTensorsError {
    /// The file is shorter than its header length says.
    Truncated,
    InvalidUtf8,
    NotAnObject,
    MissingDtype(String),
    MissingShape(String),
    MissingOffsets(String),
    OffsetCount,
    UnknownDtype(String),
}

impl SafeTensorsError {
    /// The error is this fault of a header.
    pub open spec fn is_fault(&self, fault: HeaderFault) -> bool {
        match (self, fault) {
            (SafeTensorsError::NotAnObject, HeaderFault::NotAnObject) => true,
            (SafeTensorsError::MissingDtype(s), HeaderFault::MissingDtype(k)) => s@ == k,
            (SafeTensorsError::MissingShape(s), HeaderFault::MissingShape(k)) => s@ == k,
            (SafeTensorsError::MissingOffsets(s), HeaderFault::MissingOffsets(k)) => s@ == k,
            (SafeTensorsError::OffsetCount, HeaderFault::OffsetCount) => true,
            (SafeTensorsError::UnknownDtype(s), HeaderFault::UnknownDtype(k)) => s@ == k,
            _ => false,
        }
    }

    /// What the error reads as.
    pub open spec fn text(&self) -> Seq<char> {
        match self {
            SafeTensorsError::Truncated => "failed to fill whole buffer"@,
            SafeTensorsError::InvalidUtf8 => "invalid UTF-8 header"@,
            SafeTensorsError::NotAnObject => "expected JSON object"@,
            SafeTensorsError::MissingDtype(k) => "missing dtype for "@ + k@,
            SafeTensorsError::MissingShape(k) => "missing shape for "@ + k@,
            SafeTensorsError::MissingOffsets(k) => "missing data_offsets for "@ + k@,
            SafeTensorsError::OffsetCount => "data_offsets must have 2 elements"@,
            SafeTensorsError::UnknownDtype(k) => "unknown dtype "@ + k@,
        }
    }

    /// The error in words.
    pub fn message(&self) -> (s: String)
        ensures
            s@ == self.text(),
    {
        let mut out: Vec<char> = Vec::new();
        match self {
            SafeTensorsError::Truncated => push_str(&mut out, "failed to fill whole buffer"),
            SafeTensorsError::InvalidUtf8 => push_str(&mut out, "invalid UTF-8 header"),
            SafeTensorsError::NotAnObject => push_str(&mut out, "expected JSON object"),
            SafeTensorsError::MissingDtype(k) => {
                push_str(&mut out, "missing dtype for ");
                push_str(&mut out, k.as_str());
            },
            SafeTensorsError::MissingShape(k) => {
                push_str(&mut out, "missing shape for ");
                push_str(&mut out, k.as_str());
            },
            SafeTensorsError::MissingOffsets(k) => {
                push_str(&mut out, "missing data_offsets for ");
                push_str(&mut out, k.as_str());
            },
            SafeTensorsError::OffsetCount => push_str(
                &mut out,
                "data_offsets must have 2 elements",
            ),
            SafeTensorsError::UnknownDtype(k) => {
                push_str(&mut out, "unknown dtype ");
                push_str(&mut out, k.as_str());
            },
        }
        assert(out@ =~= self.text());
        text_of(&out)
    }
}

/// The first position at or after `i` that is neither a comma nor white space.
pub open spec fn skip_separators(s: Seq<char>, i: int) -> int
    decreases s.len() - i,
{
    if 0 <= i < s.len() && (s[i] == ',' || ascii_space(s[i])) {
        skip_separators(s, i + 1)
    } else {
        i
    }
}

/// One position on, but not past the end.
pub open spec fn step(s: Seq<char>, i: int) -> int {
    if i < s.len() {
        i + 1
    } else {
        s.len() as int
    }
}

/// Where a bare value that has reached `i` ends: at a comma or a brace.
pub open spec fn bare_stop(s: Seq<char>, i: int) -> int
    decreases s.len() - i,
{
    if 0 <= i < s.len() && s[i] != ',' && s[i] != '}' {
        bare_stop(s, i + 1)
    } else {
        i
    }
}

/// Where the value that starts at `v` ends.
pub open spec fn entry_end(s: Seq<char>, v: int) -> int {
    if v < 0 || v >= s.len() {
        s.len() as int
    } else if s[v] == '{' {
        close_end(s, v + 1, 1)
    } else if s[v] == '"' {
        step(s, string_end(s, v + 1))
    } else {
        bare_stop(s, v)
    }
}

/// One entry of an object, as text.
pub struct EntrySpec {
    pub key: Seq<char>,
    pub value: Seq<char>,
}

/// The entry at or after `i`, and where it ends. Text that stops before the
/// value leaves the value empty.
pub open spec fn entry_at(s: Seq<char>, i: int) -> Option<(EntrySpec, int)> {
    let a = skip_separators(s, i);
    if a < s.len() && s[a] == '"' {
        let e = string_end(s, a + 1);
        let c = index_from(s, step(s, e), ':');
        let v = skip_space(s, step(s, c));
        let end = entry_end(s, v);
        Some((EntrySpec { key: s.subrange(a + 1, e), value: s.subrange(v, end) }, end))
    } else {
        None
    }
}

/// The entries of an object's content from `i` on, up to the first place where
/// no quoted key stands.
pub open spec fn entries(s: Seq<char>, i: int) -> Seq<EntrySpec>
    decreases s.len() - i,
{
    if i < 0 || i > s.len() {
        Seq::empty()
    } else {
        match entry_at(s, i) {
            Some((entry, end)) => if i < end <= s.len() {
                seq![entry] + entries(s, end)
            } else {
                seq![entry]
            },
            None => Seq::empty(),
        }
    }
}

/// One entry of an object.
struct Entry {
    key: Vec<char>,
    value: Vec<char>,
}

spec fn entry_views(v: Seq<Entry>) -> Seq<EntrySpec> {
    Seq::new(v.len(), |i: int| EntrySpec { key: v[i].key@, value: v[i].value@ })
}

fn after_separators(s: &[char], i: usize) -> (j: usize)
    requires
        i <= s@.len(),
    ensures
        j == skip_separators(s@, i as int),
        i <= j <= s@.len(),
{
    let mut j: usize = i;
    while j < s.len() && (s[j] == ',' || is_ascii_space(s[j]))
        invariant
            i <= j <= s@.len(),
            skip_separators(s@, j as int) == skip_separators(s@, i as int),
        decreases s.len() - j,
    {
        j = j + 1;
    }
    j
}

fn end_of_entry(s: &[char], v: usize) -> (end: usize)
    requires
        v <= s@.len(),
    ensures
        end == entry_end(s@, v as int),
        v <= end <= s@.len(),
{
    let total: usize = s.len();
    if v == total {
        return total;
    }
    if s[v] == '{' {
        return end_of_block(s, v + 1);
    }
    if s[v] == '"' {
        let e: usize = end_of_string(s, v + 1);
        return if e < total {
            e + 1
        } else {
            total
        };
    }
    let mut j: usize = v;
    while j < total && s[j] != ',' && s[j] != '}'
        invariant
            v <= j <= total == s@.len(),
            bare_stop(s@, j as int) == bare_stop(s@, v as int),
        decreases total - j,
    {
        j = j + 1;
    }
    j
}

fn find_entry(s: &[char], i: usize) -> (found: Option<(Entry, usize)>)
    requires
        i <= s@.len(),
    ensures
        match found {
            Some((entry, end)) => {
                &&& entry_at(s@, i as int) == Some(
                    (EntrySpec { key: entry.key@, value: entry.value@ }, end as int),
                )
                &&& i < end <= s@.len()
            },
            None => entry_at(s@, i as int) is None,
        },
{
    let total: usize = s.len();
    let a: usize = after_separators(s, i);
    if a == total || s[a] != '"' {
        return None;
    }
    let e: usize = end_of_string(s, a + 1);
    let past_key: usize = if e < total {
        e + 1
    } else {
        total
    };
    let c: usize = find_char(s, past_key, ':');
    let past_colon: usize = if c < total {
        c + 1
    } else {
        total
    };
    let v: usize = after_space(s, past_colon);
    let end: usize = end_of_entry(s, v);
    Some((Entry { key: part_of(s, a + 1, e), value: part_of(s, v, end) }, end))
}

fn split_entries(s: &[char], from: usize) -> (out: Vec<Entry>)
    requires
        from <= s@.len(),
    ensures
        entry_views(out@) == entries(s@, from as int),
{
    let mut out: Vec<Entry> = Vec::new();
    let mut i: usize = from;
    assert(entry_views(out@) + entries(s@, from as int) =~= entries(s@, from as int));
    loop
        invariant
            from <= i <= s@.len(),
            entry_views(out@) + entries(s@, i as int) == entries(s@, from as int),
        decreases s.len() - i,
    {
        match find_entry(s, i) {
            Some((entry, end)) => {
                let ghost before = out@;
                let ghost one = EntrySpec { key: entry.key@, value: entry.value@ };
                out.push(entry);
                assert(entry_views(out@) =~= entry_views(before).push(one));
                assert(entry_views(before) + (seq![one] + entries(s@, end as int))
                    =~= entry_views(out@) + entries(s@, end as int));
                i = end;
            },
            None => {
                assert(entry_views(out@) + Seq::<EntrySpec>::empty() =~= entry_views(out@));
                return out;
            },
        }
    }
}

/// Where the text of `field` ends, where it stands quoted in an object's text.
pub open spec fn field_end(obj: Seq<char>, field: Seq<char>) -> Option<int> {
    let needle = seq!['"'] + field + seq!['"'];
    match first_found(obj, 0, needle) {
        Some(p) => Some(p + needle.len()),
        None => None,
    }
}

/// The string value of a field: what stands between the next two quotes after
/// its colon, with only white space before them.
pub open spec fn str_field(obj: Seq<char>, field: Seq<char>) -> Option<Seq<char>> {
    match field_end(obj, field) {
        Some(p) => {
            let c = index_from(obj, p, ':');
            let q = past_space(obj, c + 1);
            let e = index_from(obj, q + 1, '"');
            if c < obj.len() && q < obj.len() && obj[q] == '"' && e < obj.len() {
                Some(obj.subrange(q + 1, e))
            } else {
                None
            }
        },
        None => None,
    }
}

/// The numbers of a comma-separated list; `None` where an item is no number
/// that fits.
pub open spec fn list_value(s: Seq<char>) -> Option<Seq<usize>>
    decreases s.len(),
{
    let k = index_from(s, 0, ',');
    match number_value(trimmed(s.take(k))) {
        Some(n) => if n > usize::MAX {
            None
        } else if 0 <= k < s.len() {
            match list_value(s.skip(k + 1)) {
                Some(rest) => Some(seq![n as usize] + rest),
                None => None,
            }
        } else {
            Some(seq![n as usize])
        },
        None => None,
    }
}

/// The list of numbers of a field: what stands between the next pair of
/// brackets.
pub open spec fn usize_array(obj: Seq<char>, field: Seq<char>) -> Option<Seq<usize>> {
    match field_end(obj, field) {
        Some(p) => {
            let b = index_from(obj, p, '[');
            let e = index_from(obj, b + 1, ']');
            if b < obj.len() && e < obj.len() {
                list_value(obj.subrange(b + 1, e))
            } else {
                None
            }
        },
        None => None,
    }
}

fn find_field(obj: &[char], field: &str) -> (at: Option<usize>)
    ensures
        match at {
            Some(p) => field_end(obj@, field@) == Some(p as int) && p <= obj@.len(),
            None => field_end(obj@, field@) is None,
        },
{
    let total: usize = obj.len();
    let mut needle: Vec<char> = Vec::new();
    needle.push('"');
    push_str(&mut needle, field);
    needle.push('"');
    assert(needle@ =~= seq!['"'] + field@ + seq!['"']);
    match find_from(obj, 0, &needle) {
        Some(p) => Some(p + needle.len()),
        None => None,
    }
}

fn extract_str_field(obj: &[char], field: &str) -> (value: Option<Vec<char>>)
    ensures
        match value {
            Some(v) => str_field(obj@, field@) == Some(v@),
            None => str_field(obj@, field@) is None,
        },
{
    let total: usize = obj.len();
    match find_field(obj, field) {
        Some(p) => {
            let c: usize = find_char(obj, p, ':');
            if c == total {
                return None;
            }
            let mut q: usize = c + 1;
            while q < total && is_white_space(obj[q])
                invariant
                    c + 1 <= q <= total == obj@.len(),
                    past_space(obj@, q as int) == past_space(obj@, c + 1),
                decreases total - q,
            {
                q = q + 1;
            }
            if q == total || obj[q] != '"' {
                return None;
            }
            let e: usize = find_char(obj, q + 1, '"');
            if e == total {
                return None;
            }
            Some(part_of(obj, q + 1, e))
        },
        None => None,
    }
}

fn parse_list(s: &[char]) -> (values: Option<Vec<usize>>)
    ensures
        match values {
            Some(v) => list_value(s@) == Some(v@),
            None => list_value(s@) is None,
        },
{
    let total: usize = s.len();
    let mut out: Vec<usize> = Vec::new();
    let mut pos: usize = 0;
    assert(s@.skip(0) =~= s@);
    proof {
        if list_value(s@) is Some {
            assert(out@ + list_value(s@)->0 =~= list_value(s@)->0);
        }
    }
    loop
        invariant
            pos <= total == s@.len(),
            match list_value(s@.skip(pos as int)) {
                Some(rest) => list_value(s@) == Some(out@ + rest),
                None => list_value(s@) is None,
            },
        decreases total - pos,
    {
        let ghost rest = s@.skip(pos as int);
        let k: usize = find_char(s, pos, ',');
        let item = part_of(s, pos, k);
        proof {
            lemma_index_from(s@, pos as int, ',');
            lemma_index_from(rest, 0, ',');
            let j = index_from(rest, 0, ',');
            if pos + j < k {
                assert(s@[pos + j] == rest[j]);
            }
            if pos + j > k {
                assert(rest[k - pos] == s@[k as int]);
            }
            assert(pos + j == k);
            assert(item@ =~= rest.take(j));
        }
        match parse_usize(&trim(&item)) {
            Some(n) => {
                let ghost before = out@;
                out.push(n);
                if k == total {
                    assert(before + seq![n] =~= out@);
                    return Some(out);
                }
                proof {
                    assert(rest.skip(k - pos + 1) =~= s@.skip(k + 1));
                    if list_value(s@.skip(k + 1)) is Some {
                        let tail = list_value(s@.skip(k + 1))->0;
                        assert(before + (seq![n] + tail) =~= out@ + tail);
                    }
                }
                pos = k + 1;
            },
            None => {
                return None;
            },
        }
    }
}

fn extract_usize_array(obj: &[char], field: &str) -> (values: Option<Vec<usize>>)
    ensures
        match values {
            Some(v) => usize_array(obj@, field@) == Some(v@),
            None => usize_array(obj@, field@) is None,
        },
{
    let total: usize = obj.len();
    match find_field(obj, field) {
        Some(p) => {
            let b: usize = find_char(obj, p, '[');
            if b == total {
                return None;
            }
            let e: usize = find_char(obj, b + 1, ']');
            if e == total {
                return None;
            }
            let inner = part_of(obj, b + 1, e);
            parse_list(&inner)
        },
        None => None,
    }
}

/// The element type that a name stands for.
pub open spec fn dtype_named(name: Seq<char>) -> Option<DType> {
    if name == "F32"@ {
        Some(DType::F32)
    } else if name == "BF16"@ {
        Some(DType::BF16)
    } else if name == "F16"@ {
        Some(DType::F16)
    } else if name == "I8"@ {
        Some(DType::I8)
    } else if name == "I4"@ {
        Some(DType::I4)
    } else {
        None
    }
}

fn is_text(chars: &[char], s: &str) -> (same: bool)
    ensures
        same == (chars@ == s@),
{
    let other = chars_of(s);
    same_chars(chars, &other)
}

fn dtype_of(name: &[char]) -> (dtype: Option<DType>)
    ensures
        dtype == dtype_named(name@),
{
    if is_text(name, "F32") {
        Some(DType::F32)
    } else if is_text(name, "BF16") {
        Some(DType::BF16)
    } else if is_text(name, "F16") {
        Some(DType::F16)
    } else if is_text(name, "I8") {
        Some(DType::I8)
    } else if is_text(name, "I4") {
        Some(DType::I4)
    } else {
        None
    }
}

/// What one entry of the header says of its tensor.
pub open spec fn tensor_entry(entry: EntrySpec) -> Result<MetaSpec, HeaderFault> {
    match str_field(entry.value, "dtype"@) {
        None => Err(HeaderFault::MissingDtype(entry.key)),
        Some(name) => match usize_array(entry.value, "shape"@) {
            None => Err(HeaderFault::MissingShape(entry.key)),
            Some(shape) => match usize_array(entry.value, "data_offsets"@) {
                None => Err(HeaderFault::MissingOffsets(entry.key)),
                Some(offsets) => if offsets.len() != 2 {
                    Err(HeaderFault::OffsetCount)
                } else {
                    match dtype_named(name) {
                        None => Err(HeaderFault::UnknownDtype(name)),
                        Some(dtype) => Ok(
                            MetaSpec {
                                dtype,
                                shape,
                                data_start: offsets[0],
                                data_end: offsets[1],
                            },
                        ),
                    }
                },
            },
        },
    }
}

/// A named tensor.
pub type TensorSpec = (Seq<char>, MetaSpec);

/// A named text.
pub type TextSpec = (Seq<char>, Seq<char>);

/// The key under which the header holds texts about the file.
pub const METADATA_KEY: &'static str = "__metadata__";

/// The tensors of a header's entries, up to the first entry that is refused.
pub open spec fn tensor_entries(list: Seq<EntrySpec>) -> Result<Seq<TensorSpec>, HeaderFault>
    decreases list.len(),
{
    if list.len() == 0 {
        Ok(Seq::empty())
    } else {
        match tensor_entries(list.drop_last()) {
            Err(fault) => Err(fault),
            Ok(found) => if list.last().key == METADATA_KEY@ {
                Ok(found)
            } else {
                match tensor_entry(list.last()) {
                    Err(fault) => Err(fault),
                    Ok(meta) => Ok(found.push((list.last().key, meta))),
                }
            },
        }
    }
}

/// The content of a text that is wrapped in braces.
pub open spec fn unwrapped(s: Seq<char>) -> Option<Seq<char>> {
    if s.len() >= 2 && s[0] == '{' && s.last() == '}' {
        Some(s.subrange(1, s.len() - 1))
    } else {
        None
    }
}

/// The content of a text that starts with a quote.
pub open spec fn unquoted(s: Seq<char>) -> Option<Seq<char>> {
    if s.len() > 0 && s[0] == '"' {
        Some(s.subrange(1, string_end(s, 1)))
    } else {
        None
    }
}

/// The entries whose values are strings.
pub open spec fn string_entries(list: Seq<EntrySpec>) -> Seq<TextSpec>
    decreases list.len(),
{
    if list.len() == 0 {
        Seq::empty()
    } else {
        let before = string_entries(list.drop_last());
        match unquoted(list.last().value) {
            Some(text) => before.push((list.last().key, text)),
            None => before,
        }
    }
}

/// The texts that a header holds about the file.
pub open spec fn metadata_entries(list: Seq<EntrySpec>) -> Seq<TextSpec>
    decreases list.len(),
{
    if list.len() == 0 {
        Seq::empty()
    } else {
        let before = metadata_entries(list.drop_last());
        if list.last().key == METADATA_KEY@ {
            match unwrapped(list.last().value) {
                Some(inner) => before + string_entries(entries(inner, 0)),
                None => before,
            }
        } else {
            before
        }
    }
}

/// What stands last under a name.
pub open spec fn last_named<V>(list: Seq<(Seq<char>, V)>, name: Seq<char>) -> Option<V>
    decreases list.len(),
{
    if list.len() == 0 {
        None
    } else if list.last().0 == name {
        Some(list.last().1)
    } else {
        last_named(list.drop_last(), name)
    }
}

/// The entries of a header.
pub open spec fn header_entries(json: Seq<char>) -> Option<Seq<EntrySpec>> {
    match unwrapped(trimmed(json)) {
        Some(inner) => Some(entries(inner, 0)),
        None => None,
    }
}

/// The tensors that a header declares, or why it is refused.
pub open spec fn header_tensors(json: Seq<char>) -> Result<Seq<TensorSpec>, HeaderFault> {
    match header_entries(json) {
        Some(list) => tensor_entries(list),
        None => Err(HeaderFault::NotAnObject),
    }
}

/// The texts that a header holds.
pub open spec fn header_texts(json: Seq<char>) -> Seq<TextSpec> {
    match header_entries(json) {
        Some(list) => metadata_entries(list),
        None => Seq::empty(),
    }
}

spec fn holds_tensors(map: Map<Seq<char>, TensorMeta>, list: Seq<TensorSpec>) -> bool {
    forall|name: Seq<char>|
        match last_named(list, name) {
            Some(meta) => #[trigger] map.contains_key(name) && map[name]@ == meta,
            None => !map.contains_key(name),
        }
}

spec fn holds_texts(map: Map<Seq<char>, String>, list: Seq<TextSpec>) -> bool {
    forall|name: Seq<char>|
        match last_named(list, name) {
            Some(text) => #[trigger] map.contains_key(name) && map[name]@ == text,
            None => !map.contains_key(name),
        }
}

fn parse_tensor(key: &[char], value: &[char]) -> (meta: Result<TensorMeta, SafeTensorsError>)
    ensures
        match meta {
            Ok(m) => tensor_entry(EntrySpec { key: key@, value: value@ }) == Ok::<
                MetaSpec,
                HeaderFault,
            >(m@),
            Err(e) => tensor_entry(EntrySpec { key: key@, value: value@ }) matches Err(fault)
                && e.is_fault(fault),
        },
{
    let name = match extract_str_field(value, "dtype") {
        Some(name) => name,
        None => {
            return Err(SafeTensorsError::MissingDtype(text_of(key)));
        },
    };
    let shape = match extract_usize_array(value, "shape") {
        Some(shape) => shape,
        None => {
            return Err(SafeTensorsError::MissingShape(text_of(key)));
        },
    };
    let offsets = match extract_usize_array(value, "data_offsets") {
        Some(offsets) => offsets,
        None => {
            return Err(SafeTensorsError::MissingOffsets(text_of(key)));
        },
    };
    if offsets.len() != 2 {
        return Err(SafeTensorsError::OffsetCount);
    }
    match dtype_of(&name) {
        Some(dtype) => Ok(
            TensorMeta { dtype, shape, data_start: offsets[0], data_end: offsets[1] },
        ),
        None => Err(SafeTensorsError::UnknownDtype(text_of(&name))),
    }
}

/// Add the string entries of an object's content to a map of texts.
fn add_texts(
    map: &mut StringHashMap<String>,
    inner: &[char],
    known: Ghost<Seq<TextSpec>>,
)
    requires
        holds_texts(old(map)@, known@),
    ensures
        holds_texts(final(map)@, known@ + string_entries(entries(inner@, 0))),
{
    let list = split_entries(inner, 0);
    let ghost all = entries(inner@, 0);
    let mut i: usize = 0;
    proof {
        assert(all.take(0) =~= Seq::<EntrySpec>::empty());
        assert(known@ + string_entries(all.take(0)) =~= known@);
    }
    while i < list.len()
        invariant
            i <= list@.len(),
            entry_views(list@) == all,
            holds_texts(map@, known@ + string_entries(all.take(i as int))),
        decreases list.len() - i,
    {
        let ghost before = known@ + string_entries(all.take(i as int));
        let ghost old_map = map@;
        let value = &list[i].value;
        let ghost entry = all[i as int];
        proof {
            assert(entry_views(list@)[i as int] == entry);
            assert(all.take(i + 1).drop_last() =~= all.take(i as int));
            assert(all.take(i + 1).last() == entry);
        }
        if value.len() > 0 && value[0] == '"' {
            let e: usize = end_of_string(value, 1);
            let text = part_of(value, 1, e);
            map.insert(text_of(&list[i].key), text_of(&text));
            proof {
                let after = known@ + string_entries(all.take(i + 1));
                assert(after =~= before.push((entry.key, text@)));
                assert(after.drop_last() =~= before);
                assert forall|name: Seq<char>|
                    match last_named(after, name) {
                        Some(text) => #[trigger] map@.contains_key(name) && map@[name]@ == text,
                        None => !map@.contains_key(name),
                    } by {
                    assert(old_map.contains_key(name) || !old_map.contains_key(name));
                }
            }
        }
        i = i + 1;
    }
    assert(all.take(i as int) =~= all);
}

struct Header {
    tensors: StringHashMap<TensorMeta>,
    metadata: StringHashMap<String>,
}

fn parse_header(json: &[char]) -> (header: Result<Header, SafeTensorsError>)
    ensures
        match header {
            Ok(h) => {
                &&& header_tensors(json@) matches Ok(list) && holds_tensors(h.tensors@, list)
                &&& holds_texts(h.metadata@, header_texts(json@))
            },
            Err(e) => header_tensors(json@) matches Err(fault) && e.is_fault(fault),
        },
{
    let t = trim(json);
    let total: usize = t.len();
    if total < 2 || t[0] != '{' || t[total - 1] != '}' {
        return Err(SafeTensorsError::NotAnObject);
    }
    let inner = part_of(&t, 1, total - 1);
    let list = split_entries(&inner, 0);
    let ghost all = entries(inner@, 0);
    let meta_key = chars_of(METADATA_KEY);
    let mut header = Header { tensors: StringHashMap::new(), metadata: StringHashMap::new() };
    let mut i: usize = 0;
    proof {
        assert(all.take(0) =~= Seq::<EntrySpec>::empty());
    }
    while i < list.len()
        invariant
            i <= list@.len(),
            entry_views(list@) == all,
            meta_key@ == METADATA_KEY@,
            header_entries(json@) == Some(all),
            tensor_entries(all.take(i as int)) matches Ok(found) && holds_tensors(
                header.tensors@,
                found,
            ),
            holds_texts(header.metadata@, metadata_entries(all.take(i as int))),
        decreases list.len() - i,
    {
        let ghost entry = all[i as int];
        let ghost found = tensor_entries(all.take(i as int))->Ok_0;
        let ghost texts = metadata_entries(all.take(i as int));
        let ghost old_map = header.tensors@;
        proof {
            assert(entry_views(list@)[i as int] == entry);
            assert(all.take(i + 1).drop_last() =~= all.take(i as int));
            assert(all.take(i + 1).last() == entry);
        }
        let key = &list[i].key;
        let value = &list[i].value;
        if same_chars(key, &meta_key) {
            let n: usize = value.len();
            if n >= 2 && value[0] == '{' && value[n - 1] == '}' {
                let body = part_of(value, 1, n - 1);
                add_texts(&mut header.metadata, &body, Ghost(texts));
            }
        } else {
            match parse_tensor(key, value) {
                Ok(meta) => {
                    let ghost m = meta@;
                    header.tensors.insert(text_of(key), meta);
                    proof {
                        let after = found.push((entry.key, m));
                        assert(after.drop_last() =~= found);
                        assert forall|name: Seq<char>|
                            match last_named(after, name) {
                                Some(meta) => #[trigger] header.tensors@.contains_key(name)
                                    && header.tensors@[name]@ == meta,
                                None => !header.tensors@.contains_key(name),
                            } by {
                            assert(old_map.contains_key(name) || !old_map.contains_key(name));
                        }
                    }
                },
                Err(e) => {
                    proof {
                        lemma_first_fault_stays(all, i + 1);
                    }
                    return Err(e);
                },
            }
        }
        i = i + 1;
    }
    assert(all.take(i as int) =~= all);
    Ok(header)
}

proof fn lemma_first_fault_stays(list: Seq<EntrySpec>, i: int)
    requires
        0 <= i <= list.len(),
        tensor_entries(list.take(i)) is Err,
    ensures
        tensor_entries(list) == tensor_entries(list.take(i)),
    decreases list.len() - i,
{
    if i == list.len() {
        assert(list.take(i) =~= list);
    } else {
        assert(list.take(i + 1).drop_last() =~= list.take(i));
        lemma_first_fault_stays(list, i + 1);
    }
}

/// The header and the data of a file; `None` where the file is too short for
/// the header that it announces.
pub open spec fn file_parts(bytes: Seq<u8>) -> Option<(Seq<u8>, Seq<u8>)> {
    if bytes.len() < 8 || le64(bytes, 0) > bytes.len() - 8 {
        None
    } else {
        let end = 8 + le64(bytes, 0);
        Some((bytes.subrange(8, end as int), bytes.skip(end as int)))
    }
}

/// `std::str::from_utf8` accepts exactly the valid UTF-8, and reads it as the
/// characters it encodes.
#[verifier::external_body]
fn utf8_text(bytes: &[u8]) -> (text: Option<String>)
    ensures
        match text {
            Some(s) => valid_utf8(bytes@) && s@ == decode_utf8(bytes@),
            None => !valid_utf8(bytes@),
        },
{
    match std::str::from_utf8(bytes) {
        Ok(s) => Some(s.to_string()),
        Err(_) => None,
    }
}

/// How many values `n` bytes hold.
pub open spec fn value_count(dtype: DType, n: nat) -> nat {
    match dtype {
        DType::F32 => n / 4,
        DType::BF16 => n / 2,
        DType::F16 => n / 2,
        DType::I8 => n,
        DType::I4 => 2 * n,
    }
}

/// The bits of value `i`, as a single-precision number.
pub open spec fn value_bits(dtype: DType, raw: Seq<u8>, i: int) -> int {
    match dtype {
        DType::F32 => le32(raw, 4 * i) as int,
        DType::BF16 => 0x1_0000int * le16(raw, 2 * i),
        DType::F16 => widened(le16(raw, 2 * i) as u16) as int,
        DType::I8 => whole_bits(
            if raw[i] < 128 {
                raw[i] as int
            } else {
                raw[i] - 256
            },
        ) as int,
        DType::I4 => whole_bits(
            if i % 2 == 0 {
                low_code(raw[i / 2])
            } else {
                high_code(raw[i / 2])
            },
        ) as int,
    }
}

/// The elements of a shape: the product of its extents.
pub open spec fn volume(shape: Seq<usize>) -> nat
    decreases shape.len(),
{
    if shape.len() == 0 {
        1
    } else {
        volume(shape.drop_last()) * shape.last() as nat
    }
}

proof fn lemma_volume_grows(shape: Seq<usize>, i: int)
    requires
        0 <= i <= shape.len(),
        forall|k: int| 0 <= k < shape.len() ==> shape[k] > 0,
    ensures
        0 < volume(shape.take(i)) <= volume(shape),
    decreases shape.len() - i,
{
    if i == 0 {
        assert(volume(shape.take(0)) == 1);
    } else {
        lemma_volume_positive(shape.take(i));
    }
    if i == shape.len() {
        assert(shape.take(i) =~= shape);
    } else {
        lemma_volume_grows(shape, i + 1);
        assert(shape.take(i + 1).drop_last() =~= shape.take(i));
        let v = volume(shape.take(i));
        let d = shape[i] as nat;
        assert(v <= v * d) by (nonlinear_arith)
            requires
                d >= 1,
        ;
    }
}

proof fn lemma_volume_positive(shape: Seq<usize>)
    requires
        forall|k: int| 0 <= k < shape.len() ==> shape[k] > 0,
    ensures
        volume(shape) > 0,
    decreases shape.len(),
{
    if shape.len() > 0 {
        lemma_volume_positive(shape.drop_last());
        let v = volume(shape.drop_last());
        let d = shape.last() as nat;
        assert(v * d > 0) by (nonlinear_arith)
            requires
                v > 0,
                d > 0,
        ;
    }
}

proof fn lemma_volume_zero(shape: Seq<usize>, k: int)
    requires
        0 <= k < shape.len(),
        shape[k] == 0,
    ensures
        volume(shape) == 0,
    decreases shape.len(),
{
    let v = volume(shape.drop_last());
    let d = shape.last() as nat;
    if k < shape.len() - 1 {
        lemma_volume_zero(shape.drop_last(), k);
    }
    assert(v * d == 0) by (nonlinear_arith)
        requires
            v == 0 || d == 0,
    ;
}

/// Whether a shape has exactly `n` elements.
fn has_volume(shape: &[usize], n: usize) -> (same: bool)
    ensures
        same == (volume(shape@) == n),
{
    let mut i: usize = 0;
    while i < shape.len()
        invariant
            i <= shape@.len(),
            forall|k: int| 0 <= k < i ==> shape@[k] > 0,
        decreases shape.len() - i,
    {
        if shape[i] == 0 {
            proof {
                lemma_volume_zero(shape@, i as int);
            }
            return n == 0;
        }
        i = i + 1;
    }
    let mut v: usize = 1;
    let mut j: usize = 0;
    while j < shape.len()
        invariant
            j <= shape@.len(),
            forall|k: int| 0 <= k < shape@.len() ==> shape@[k] > 0,
            v == volume(shape@.take(j as int)),
        decreases shape.len() - j,
    {
        proof {
            assert(shape@.take(j + 1).drop_last() =~= shape@.take(j as int));
            lemma_volume_grows(shape@, j + 1);
        }
        match v.checked_mul(shape[j]) {
            Some(next) => {
                v = next;
            },
            None => {
                return false;
            },
        }
        j = j + 1;
    }
    assert(shape@.take(j as int) =~= shape@);
    v == n
}

fn signed_byte(b: u8) -> (n: i8)
    ensures
        n == (if b < 128 {
            b as int
        } else {
            b - 256
        }),
{
    if b < 128 {
        b as i8
    } else {
        ((b as i16) - 256) as i8
    }
}

/// Read value `i` of a tensor's bytes.
fn read_value(dtype: DType, raw: &[u8], i: usize) -> (bits: u32)
    requires
        i < value_count(dtype, raw@.len()),
    ensures
        bits == value_bits(dtype, raw@, i as int),
{
    let total: usize = raw.len();
    match dtype {
        DType::F32 => read_u32(raw, 4 * i),
        DType::BF16 => bf16_to_f32(read_u16(raw, 2 * i)),
        DType::F16 => f16_to_f32(read_u16(raw, 2 * i)),
        DType::I8 => i8_to_f32(signed_byte(raw[i])),
        DType::I4 => {
            let byte: u8 = raw[i / 2];
            if i % 2 == 0 {
                i8_to_f32(sign_extend4(byte % 16))
            } else {
                i8_to_f32(sign_extend4(byte / 16))
            }
        },
    }
}

/// A loaded file.
pub struct SafeTensors {
    data: Vec<u8>,
    tensors: StringHashMap<TensorMeta>,
    metadata: StringHashMap<String>,
}

impl SafeTensors {
    /// What the header says of the tensor called `name`.
    pub closed spec fn tensor(&self, name: Seq<char>) -> Option<MetaSpec> {
        if self.tensors@.contains_key(name) {
            Some(self.tensors@[name]@)
        } else {
            None
        }
    }

    /// The text that the header holds under `key`.
    pub closed spec fn text(&self, key: Seq<char>) -> Option<Seq<char>> {
        if self.metadata@.contains_key(key) {
            Some(self.metadata@[key]@)
        } else {
            None
        }
    }

    /// The bytes after the header.
    pub closed spec fn data(&self) -> Seq<u8> {
        self.data@
    }

    /// The bytes of the tensor called `name`; a range that does not lie in
    /// the data holds none.
    pub open spec fn raw(&self, name: Seq<char>) -> Option<Seq<u8>> {
        match self.tensor(name) {
            Some(meta) => if meta.data_start <= meta.data_end <= self.data().len() {
                Some(self.data().subrange(meta.data_start as int, meta.data_end as int))
            } else {
                None
            },
            None => None,
        }
    }

    /// The values of the tensor called `name`. Packed codes must fill the
    /// shape exactly, and there can be no more of them than can be counted.
    pub open spec fn values(&self, name: Seq<char>) -> Option<Seq<int>> {
        match (self.tensor(name), self.raw(name)) {
            (Some(meta), Some(raw)) => if meta.dtype == DType::I4 && (2 * raw.len() != volume(
                meta.shape,
            ) || 2 * raw.len() > usize::MAX) {
                None
            } else {
                Some(
                    Seq::new(
                        value_count(meta.dtype, raw.len()),
                        |i: int| value_bits(meta.dtype, raw, i),
                    ),
                )
            },
            _ => None,
        }
    }

    /// Read a file held in memory.
    pub fn from_bytes(bytes: Vec<u8>) -> (st: Result<Self, SafeTensorsError>)
        ensures
            match file_parts(bytes@) {
                None => st matches Err(e) && e is Truncated,
                Some((header, data)) => if !valid_utf8(header) {
                    st matches Err(e) && e is InvalidUtf8
                } else {
                    match header_tensors(decode_utf8(header)) {
                        Err(fault) => st matches Err(e) && e.is_fault(fault),
                        Ok(list) => st matches Ok(st) && st.data() == data && (forall|
                            name: Seq<char>,
                        | #[trigger]
                            st.tensor(name) == last_named(list, name)) && (forall|key: Seq<char>|
                         #[trigger]
                            st.text(key) == last_named(header_texts(decode_utf8(header)), key)),
                    }
                },
            },
    {
        let total: usize = bytes.len();
        if total < 8 {
            return Err(SafeTensorsError::Truncated);
        }
        let len: u64 = read_u64(&bytes, 0);
        if len > (total - 8) as u64 {
            return Err(SafeTensorsError::Truncated);
        }
        let end: usize = 8 + len as usize;
        let header = vstd::slice::slice_subrange(bytes.as_slice(), 8, end);
        let text = match utf8_text(header) {
            Some(text) => text,
            None => {
                return Err(SafeTensorsError::InvalidUtf8);
            },
        };
        let json = chars_of(text.as_str());
        match parse_header(&json) {
            Err(e) => Err(e),
            Ok(h) => {
                let mut data: Vec<u8> = Vec::new();
                let mut i: usize = end;
                while i < total
                    invariant
                        end <= i <= total == bytes@.len(),
                        data@ == bytes@.subrange(end as int, i as int),
                    decreases total - i,
                {
                    data.push(bytes[i]);
                    i = i + 1;
                    assert(data@ =~= bytes@.subrange(end as int, i as int));
                }
                assert(data@ =~= bytes@.skip(end as int));
                let st = SafeTensors { data, tensors: h.tensors, metadata: h.metadata };
                proof {
                    let list = header_tensors(json@)->Ok_0;
                    assert forall|name: Seq<char>| #[trigger]
                        st.tensor(name) == last_named(list, name) by {
                        assert(st.tensors@.contains_key(name) || !st.tensors@.contains_key(name));
                    }
                    assert forall|key: Seq<char>| #[trigger]
                        st.text(key) == last_named(header_texts(json@), key) by {
                        assert(st.metadata@.contains_key(key) || !st.metadata@.contains_key(key));
                    }
                }
                Ok(st)
            },
        }
    }

    /// The text that the header holds under `key`.
    pub fn get_metadata(&self, key: &str) -> (text: Option<&str>)
        ensures
            match text {
                Some(s) => self.text(key@) == Some(s@),
                None => self.text(key@) is None,
            },
    {
        match self.metadata.get(key) {
            Some(s) => Some(s.as_str()),
            None => None,
        }
    }

    /// What the header says of a tensor.
    pub fn meta(&self, name: &str) -> (meta: Option<&TensorMeta>)
        ensures
            match meta {
                Some(m) => self.tensor(name@) == Some(m@),
                None => self.tensor(name@) is None,
            },
    {
        self.tensors.get(name)
    }

    /// The bytes of a tensor.
    pub fn get_raw(&self, name: &str) -> (raw: Option<&[u8]>)
        ensures
            match raw {
                Some(r) => self.raw(name@) == Some(r@),
                None => self.raw(name@) is None,
            },
    {
        match self.tensors.get(name) {
            Some(meta) => {
                if meta.data_start <= meta.data_end && meta.data_end <= self.data.len() {
                    Some(
                        vstd::slice::slice_subrange(
                            self.data.as_slice(),
                            meta.data_start,
                            meta.data_end,
                        ),
                    )
                } else {
                    None
                }
            },
            None => None,
        }
    }

    /// The values of a tensor, as the bits of single-precision numbers.
    pub fn get_f32(&self, name: &str) -> (bits: Option<Vec<u32>>)
        ensures
            match bits {
                Some(v) => self.values(name@) matches Some(values) && v@.len() == values.len()
                    && forall|i: int| 0 <= i < values.len() ==> #[trigger] v@[i] == values[i],
                None => self.values(name@) is None,
            },
    {
        let raw = match self.get_raw(name) {
            Some(raw) => raw,
            None => {
                return None;
            },
        };
        let meta = match self.meta(name) {
            Some(meta) => meta,
            None => {
                return None;
            },
        };
        let n: usize = raw.len();
        let dtype: DType = meta.dtype;
        let ghost all = Seq::new(
            value_count(dtype, raw@.len()),
            |i: int| value_bits(dtype, raw@, i),
        );
        let count: usize = match dtype {
            DType::F32 => n / 4,
            DType::BF16 => n / 2,
            DType::F16 => n / 2,
            DType::I8 => n,
            DType::I4 => match n.checked_mul(2) {
                Some(count) => {
                    if !has_volume(&meta.shape, count) {
                        return None;
                    }
                    count
                },
                None => {
                    return None;
                },
            },
        };
        let mut out: Vec<u32> = Vec::new();
        let mut i: usize = 0;
        while i < count
            invariant
                i <= count,
                count == value_count(dtype, raw@.len()),
                all.len() == count,
                forall|k: int|
                    0 <= k < count ==> #[trigger] all[k] == value_bits(dtype, raw@, k),
                out@.len() == i,
                forall|k: int| 0 <= k < i ==> #[trigger] out@[k] == all[k],
            decreases count - i,
        {
            out.push(read_value(dtype, raw, i));
            i = i + 1;
        }
        Some(out)
    }
}

/// A file that is written as its header's length, its header and its data is
/// read as that header and that data.
pub proof fn a_written_file_reads_back(header: Seq<u8>, data: Seq<u8>, length: Seq<u8>)
    requires
        length.len() == 8,
        le64(length, 0) == header.len(),
    ensures
        file_parts(length + header + data) == Some((header, data)),
{
    let bytes = length + header + data;
    assert(le64(bytes, 0) == le64(length, 0));
    let end = 8 + header.len();
    assert(bytes.subrange(8, end as int) =~= header);
    assert(bytes.skip(end as int) =~= data);
}

/// Each value of a tensor is read from its own bytes, the little end first: four
/// to a single-precision number, two to a half-precision one or to the high half
/// of a single-precision one, one to a whole number, and one to two codes.
pub proof fn each_value_is_read_from_its_bytes(raw: Seq<u8>, i: int, n: nat)
    requires
        0 <= i,
    ensures
        value_bits(DType::F32, raw, i) == raw[4 * i] + 256 * raw[4 * i + 1] + 65536 * raw[4 * i + 2]
            + 16777216 * raw[4 * i + 3],
        value_bits(DType::BF16, raw, i) == 65536 * raw[2 * i] + 16777216 * raw[2 * i + 1],
        value_bits(DType::F16, raw, i) == widened(
            (raw[2 * i] + 256 * raw[2 * i + 1]) as u16,
        ),
        raw[i] < 128 ==> value_bits(DType::I8, raw, i) == whole_bits(raw[i] as int),
        raw[i] >= 128 ==> value_bits(DType::I8, raw, i) == whole_bits(raw[i] - 256),
        raw[i] % 16 < 8 ==> value_bits(DType::I4, raw, 2 * i) == whole_bits(raw[i] as int % 16),
        raw[i] % 16 >= 8 ==> value_bits(DType::I4, raw, 2 * i) == whole_bits(
            raw[i] as int % 16 - 16,
        ),
        raw[i] / 16 < 8 ==> value_bits(DType::I4, raw, 2 * i + 1) == whole_bits(
            raw[i] as int / 16,
        ),
        raw[i] / 16 >= 8 ==> value_bits(DType::I4, raw, 2 * i + 1) == whole_bits(
            raw[i] as int / 16 - 16,
        ),
        value_count(DType::F32, 4 * n) == n,
        value_count(DType::BF16, 2 * n) == n,
        value_count(DType::F16, 2 * n) == n,
        value_count(DType::I8, n) == n,
        value_count(DType::I4, n) == n + n,
{
    assert((2 * i) / 2 == i && (2 * i) % 2 == 0);
    assert((2 * i + 1) / 2 == i && (2 * i + 1) % 2 == 1);
}

/// Of several things under one name the last counts; another name changes
/// nothing.
pub proof fn the_last_of_a_name_counts<V>(
    list: Seq<(Seq<char>, V)>,
    name: Seq<char>,
    value: V,
    other: Seq<char>,
)
    ensures
        last_named(list.push((name, value)), name) == Some(value),
        other != name ==> last_named(list.push((name, value)), other) == last_named(list, other),
        last_named(Seq::<(Seq<char>, V)>::empty(), name) is None,
{
    assert(list.push((name, value)).drop_last() =~= list);
}

} // verus!
