//! The header of a weight file as a whole: JSON text that is written out entry
//! by entry, and what is read off it.

use vstd::prelude::*;
use crate::declarations::{
    a_value_ends_where_it_is_written,
    are_entries,
    are_items,
    entries_written,
    entry_place,
    head_written,
    holds,
    is_space,
    is_spaces,
    items_written,
    json_written,
    key_place,
    lemma_entries_each,
    lemma_entry,
    lemma_entry_place,
    lemma_first,
    lemma_head,
    lemma_holds_both,
    lemma_quoted,
    lemma_starts,
    only_at,
    quoted,
    white_space_is_passed_over,
    Entry,
    Item,
    Json,
};
use crate::prompt::text_written;
use crate::safetensors::{
    dtype_named,
    entries,
    entry_at,
    entry_end,
    field_end,
    header_entries,
    header_tensors,
    header_texts,
    list_value,
    metadata_entries,
    skip_separators,
    str_field,
    string_entries,
    tensor_entries,
    tensor_entry,
    unquoted,
    unwrapped,
    usize_array,
    DType,
    EntrySpec,
    HeaderFault,
    MetaSpec,
    TensorSpec,
    TextSpec,
    METADATA_KEY,
};
use crate::text::{
    decimal,
    decimal_reads_back,
    decimals_are_digits,
    first_found,
    first_found_is_first,
    index_from,
    past_space,
    stands_at,
    trimmed,
    trimming_takes_off_what_surrounds,
    white_space,
};

verus! {

proof fn lemma_index_past(s: Seq<char>, i: int, text: Seq<char>, c: char)
    requires
        holds(s, i, text),
        forall|k: int| 0 <= k < text.len() ==> #[trigger] text[k] != c,
    ensures
        index_from(s, i, c) == index_from(s, i + text.len(), c),
    decreases text.len(),
{
    if text.len() > 0 {
        let rest = text.subrange(1, text.len() as int);
        assert(text =~= seq![text[0]] + rest);
        lemma_holds_both(s, i, seq![text[0]], rest);
        assert(s[i + 0] == text[0]);
        lemma_index_past(s, i + 1, rest, c);
    }
}

proof fn lemma_past_spaces(s: Seq<char>, i: int, text: Seq<char>)
    requires
        holds(s, i, text),
        is_spaces(text),
        i + text.len() < s.len() ==> !white_space(s[i + text.len()]),
    ensures
        past_space(s, i) == i + text.len(),
    decreases text.len(),
{
    if text.len() > 0 {
        let rest = text.subrange(1, text.len() as int);
        assert(text =~= seq![text[0]] + rest);
        lemma_holds_both(s, i, seq![text[0]], rest);
        assert(s[i + 0] == text[0]);
        assert(is_space(text[0]));
        lemma_past_spaces(s, i + 1, rest);
    }
}

proof fn lemma_separators(s: Seq<char>, i: int, text: Seq<char>)
    requires
        holds(s, i, text),
        forall|k: int| 0 <= k < text.len() ==> is_space(#[trigger] text[k]) || text[k] == ',',
        i + text.len() < s.len() ==> !is_space(s[i + text.len()]) && s[i + text.len()] != ',',
    ensures
        skip_separators(s, i) == i + text.len(),
    decreases text.len(),
{
    if text.len() > 0 {
        let rest = text.subrange(1, text.len() as int);
        assert(text =~= seq![text[0]] + rest);
        lemma_holds_both(s, i, seq![text[0]], rest);
        assert(s[i + 0] == text[0]);
        lemma_separators(s, i + 1, rest);
    }
}

/// An entry's key and value, as they are written.
pub open spec fn entry_text(e: Entry) -> EntrySpec {
    EntrySpec { key: text_written(e.key), value: json_written(e.value) }
}

/// The values are objects or strings.
pub open spec fn no_bare_values(list: Seq<Entry>) -> bool {
    forall|k: int|
        0 <= k < list.len() ==> (#[trigger] list[k]).value is Object || list[k].value is Text
}

proof fn lemma_entries(s: Seq<char>, i: int, gap: Seq<char>, list: Seq<Entry>)
    requires
        are_entries(list),
        no_bare_values(list),
        holds(s, i, gap),
        forall|k: int| 0 <= k < gap.len() ==> is_space(#[trigger] gap[k]) || gap[k] == ',',
        holds(s, i + gap.len(), entries_written(list)),
        s.len() == i + gap.len() + entries_written(list).len(),
    ensures
        entries(s, i) == list.map_values(|e: Entry| entry_text(e)),
    decreases list.len(),
{
    let want = list.map_values(|e: Entry| entry_text(e));
    let at = i + gap.len();
    if list.len() == 0 {
        lemma_separators(s, i, gap);
        assert(entries(s, i) =~= want);
    } else {
        let f = list[0];
        let v = json_written(f.value);
        let rest = list.subrange(1, list.len() as int);
        lemma_first(s, at, list);
        lemma_head(s, at, f);
        let a = at + f.before.len();
        let b = a + quoted(f.key).len();
        let c = b + f.before_colon.len();
        let vat = at + head_written(f).len();
        let end = vat + v.len();
        lemma_quoted(s, a, f.key);
        let lead = gap + f.before;
        assert forall|k: int| 0 <= k < lead.len() implies s[i + k] == #[trigger] lead[k] by {
            if k < gap.len() {
                assert(s[i + k] == gap[k]);
            } else {
                assert(s[at + (k - gap.len())] == f.before[k - gap.len()]);
            }
        }
        lemma_separators(s, i, lead);
        lemma_index_past(s, b, f.before_colon, ':');
        lemma_starts(s, vat, f.value);
        white_space_is_passed_over(s, c + 1, f.behind_colon);
        assert(list[0].value is Object || list[0].value is Text);
        a_value_ends_where_it_is_written(s, vat, f.value);
        if f.value is Text {
            lemma_entries_each(list, 0);
            lemma_quoted(s, vat, f.value->Text_0);
        }
        assert(entry_end(s, vat) == end);
        assert(s.subrange(vat, end) =~= v);
        assert(index_from(s, c, ':') == c);
        assert(entry_at(s, i) == Some((entry_text(f), end)));
        let more = if list.len() > 1 {
            f.behind + seq![',']
        } else {
            f.behind
        };
        assert forall|k: int| 0 <= k < more.len() implies s[end + k] == #[trigger] more[k] by {
            if k < f.behind.len() {
                assert(s[end + k] == f.behind[k]);
            }
        }
        if list.len() == 1 {
            assert(rest =~= Seq::<Entry>::empty());
            assert(entries_written(rest) =~= Seq::<char>::empty());
        }
        assert forall|k: int| 0 <= k < rest.len() implies (#[trigger] rest[k]).value is Object
            || rest[k].value is Text by {
            assert(rest[k] == list[k + 1]);
        }
        lemma_entries(s, end, more, rest);
        assert(entries(s, i) =~= seq![entry_text(f)] + entries(s, end));
        assert(want =~= seq![entry_text(f)] + rest.map_values(|e: Entry| entry_text(e)));
    }
}

proof fn lemma_trimmed_object(before: Seq<char>, list: Seq<Entry>, behind: Seq<char>)
    requires
        is_spaces(before),
        is_spaces(behind),
    ensures
        trimmed(before + json_written(Json::Object(list)) + behind) == json_written(
            Json::Object(list),
        ),
        unwrapped(json_written(Json::Object(list))) == Some(entries_written(list)),
{
    let w = json_written(Json::Object(list));
    assert(w[0] == '{' && w.last() == '}');
    trimming_takes_off_what_surrounds(before, w, behind);
    assert(w.subrange(1, w.len() - 1) =~= entries_written(list));
}

/// The entries of a header are those that it is written with, in their order.
pub proof fn a_header_holds_its_entries(before: Seq<char>, list: Seq<Entry>, behind: Seq<char>)
    requires
        is_spaces(before),
        is_spaces(behind),
        are_entries(list),
        no_bare_values(list),
    ensures
        header_entries(before + json_written(Json::Object(list)) + behind) == Some(
            list.map_values(|e: Entry| entry_text(e)),
        ),
{
    lemma_trimmed_object(before, list, behind);
    let s = entries_written(list);
    assert(holds(s, 0, Seq::<char>::empty()));
    assert(holds(s, 0, s));
    lemma_entries(s, 0, Seq::empty(), list);
}

/// Items that are numbers, written in decimal.
pub open spec fn are_numbers(items: Seq<Item>, numbers: Seq<usize>) -> bool {
    &&& are_items(items)
    &&& items.len() == numbers.len()
    &&& forall|k: int|
        0 <= k < items.len() ==> (#[trigger] items[k]).value == Json::Bare(
            decimal(numbers[k] as nat),
        )
}

proof fn lemma_no_bracket(items: Seq<Item>, numbers: Seq<usize>)
    requires
        are_numbers(items, numbers),
    ensures
        forall|k: int|
            0 <= k < items_written(items).len() ==> #[trigger] items_written(items)[k] != ']',
    decreases items.len(),
{
    if items.len() > 0 {
        let f = items[0];
        let d = decimal(numbers[0] as nat);
        let rest = items.subrange(1, items.len() as int);
        assert(f.value == Json::Bare(d));
        decimals_are_digits(numbers[0] as nat);
        lemma_numbers_skip(items, numbers);
        lemma_no_bracket(rest, numbers.skip(1));
        let one = f.before + json_written(f.value) + f.behind;
        assert forall|k: int| 0 <= k < one.len() implies #[trigger] one[k] != ']' by {
            if k < f.before.len() {
                assert(one[k] == f.before[k]);
            } else if k < f.before.len() + d.len() {
                assert(one[k] == d[k - f.before.len()]);
            } else {
                assert(one[k] == f.behind[k - f.before.len() - d.len()]);
            }
        }
        let w = items_written(items);
        let more = items_written(rest);
        assert forall|k: int| 0 <= k < w.len() implies #[trigger] w[k] != ']' by {
            if k < one.len() {
                assert(w[k] == one[k]);
            } else if k > one.len() {
                assert(w[k] == more[k - one.len() - 1]);
            }
        }
    }
}

proof fn lemma_numbers_skip(items: Seq<Item>, numbers: Seq<usize>)
    requires
        are_numbers(items, numbers),
        items.len() > 0,
    ensures
        are_numbers(items.subrange(1, items.len() as int), numbers.skip(1)),
{
    let rest = items.subrange(1, items.len() as int);
    assert forall|k: int| 0 <= k < rest.len() implies (#[trigger] rest[k]).value == Json::Bare(
        decimal(numbers.skip(1)[k] as nat),
    ) by {
        assert(rest[k] == items[k + 1]);
    }
}

/// A list of numbers is read as it is written.
pub proof fn written_numbers_are_read(items: Seq<Item>, numbers: Seq<usize>)
    requires
        are_numbers(items, numbers),
        items.len() > 0,
    ensures
        list_value(items_written(items)) == Some(numbers),
    decreases items.len(),
{
    let s = items_written(items);
    let f = items[0];
    let d = decimal(numbers[0] as nat);
    let rest = items.subrange(1, items.len() as int);
    assert(f.value == Json::Bare(d));
    let one = f.before + d + f.behind;
    assert(json_written(f.value) == d);
    decimals_are_digits(numbers[0] as nat);
    decimal_reads_back(numbers[0] as nat);
    assert forall|k: int| 0 <= k < one.len() implies #[trigger] one[k] != ',' by {
        if k < f.before.len() {
            assert(one[k] == f.before[k]);
        } else if k < f.before.len() + d.len() {
            assert(one[k] == d[k - f.before.len()]);
        } else {
            assert(one[k] == f.behind[k - f.before.len() - d.len()]);
        }
    }
    assert(holds(s, 0, one));
    lemma_index_past(s, 0, one, ',');
    assert(s.take(one.len() as int) =~= one);
    assert(!white_space(d[0]) && !white_space(d[d.len() - 1]));
    trimming_takes_off_what_surrounds(f.before, d, f.behind);
    if items.len() > 1 {
        assert(s[one.len() as int] == ',');
        lemma_numbers_skip(items, numbers);
        written_numbers_are_read(rest, numbers.skip(1));
        assert(s.skip(one.len() as int + 1) =~= items_written(rest));
        assert(seq![numbers[0]] + numbers.skip(1) =~= numbers);
    } else {
        assert(s =~= one);
        assert(seq![numbers[0]] =~= numbers);
    }
}

/// A field's key stands where it is written, and there first.
proof fn lemma_field(list: Seq<Entry>, k: int, field: Seq<char>)
    requires
        are_entries(list),
        0 <= k < list.len(),
        text_written(list[k].key) == field,
        only_at(
            json_written(Json::Object(list)),
            key_place(list, k),
            seq!['"'] + field + seq!['"'],
        ),
    ensures
        ({
            let s = json_written(Json::Object(list));
            let e = list[k];
            let p = key_place(list, k) + quoted(e.key).len();
            let v = p + e.before_colon.len() + 1 + e.behind_colon.len();
            &&& field_end(s, field) == Some(p)
            &&& holds(s, p, e.before_colon)
            &&& s[p + e.before_colon.len()] == ':'
            &&& holds(s, p + e.before_colon.len() + 1, e.behind_colon)
            &&& holds(s, v, json_written(e.value))
            &&& v + json_written(e.value).len() < s.len()
            &&& is_spaces(e.before_colon)
            &&& is_spaces(e.behind_colon)
            &&& 0 <= p
        }),
{
    let s = json_written(Json::Object(list));
    let w = entries_written(list);
    let e = list[k];
    let needle = seq!['"'] + field + seq!['"'];
    assert(holds(s, 0, seq!['{'] + w + seq!['}']));
    lemma_holds_both(s, 0, seq!['{'] + w, seq!['}']);
    lemma_holds_both(s, 0, seq!['{'], w);
    lemma_entry_place(list, k);
    lemma_entry(s, 1, list, k, 1 + entry_place(list, k), Seq::empty());
    lemma_head(s, 1 + entry_place(list, k), e);
    let at = key_place(list, k);
    assert(s.subrange(at, at + needle.len()) =~= needle);
    assert(stands_at(s, at, needle));
    first_found_is_first(s, 0, needle);
    assert forall|j: int| stands_at(s, j, needle) implies j == at by {
        assert forall|m: int| 0 <= m < needle.len() implies s[j + m] == #[trigger] needle[m] by {
            assert(s.subrange(j, j + needle.len())[m] == needle[m]);
        }
        assert(holds(s, j, needle));
    }
    assert(first_found(s, 0, needle) == Some(at));
}

/// A string field is read as it is written, where it needs no escapes.
pub proof fn a_written_string_is_read(list: Seq<Entry>, k: int, field: Seq<char>)
    requires
        are_entries(list),
        0 <= k < list.len(),
        text_written(list[k].key) == field,
        only_at(
            json_written(Json::Object(list)),
            key_place(list, k),
            seq!['"'] + field + seq!['"'],
        ),
        list[k].value is Text,
        forall|j: int|
            0 <= j < text_written(list[k].value->Text_0).len() ==> #[trigger] text_written(
                list[k].value->Text_0,
            )[j] != '"',
    ensures
        str_field(json_written(Json::Object(list)), field) == Some(
            text_written(list[k].value->Text_0),
        ),
{
    let s = json_written(Json::Object(list));
    let e = list[k];
    let t = e.value->Text_0;
    lemma_field(list, k, field);
    lemma_entries_each(list, k);
    let p = key_place(list, k) + quoted(e.key).len();
    let c = p + e.before_colon.len();
    let v = c + 1 + e.behind_colon.len();
    lemma_index_past(s, p, e.before_colon, ':');
    lemma_quoted(s, v, t);
    lemma_past_spaces(s, c + 1, e.behind_colon);
    let w = text_written(t);
    assert(quoted(t) =~= seq!['"'] + (w + seq!['"']));
    lemma_holds_both(s, v, seq!['"'], w + seq!['"']);
    lemma_holds_both(s, v + 1, w, seq!['"']);
    lemma_index_past(s, v + 1, w, '"');
    assert(s[v + 1 + w.len() + 0] == seq!['"'][0]);
}

/// A field that lists numbers is read as it is written.
pub proof fn a_written_list_is_read(
    list: Seq<Entry>,
    k: int,
    field: Seq<char>,
    items: Seq<Item>,
    numbers: Seq<usize>,
)
    requires
        are_entries(list),
        0 <= k < list.len(),
        text_written(list[k].key) == field,
        only_at(
            json_written(Json::Object(list)),
            key_place(list, k),
            seq!['"'] + field + seq!['"'],
        ),
        list[k].value == Json::List(items),
        are_numbers(items, numbers),
        items.len() > 0,
    ensures
        usize_array(json_written(Json::Object(list)), field) == Some(numbers),
{
    let s = json_written(Json::Object(list));
    let e = list[k];
    lemma_field(list, k, field);
    let p = key_place(list, k) + quoted(e.key).len();
    let c = p + e.before_colon.len();
    let v = c + 1 + e.behind_colon.len();
    lemma_index_past(s, p, e.before_colon, '[');
    assert(holds(s, c, seq![':']));
    lemma_index_past(s, c, seq![':'], '[');
    lemma_index_past(s, c + 1, e.behind_colon, '[');
    let w = items_written(items);
    lemma_holds_both(s, v, seq!['['] + w, seq![']']);
    lemma_holds_both(s, v, seq!['['], w);
    assert(s[v + 0] == seq!['['][0]);
    lemma_no_bracket(items, numbers);
    lemma_index_past(s, v + 1, w, ']');
    assert(s[v + 1 + w.len() + 0] == seq![']'][0]);
    assert(s.subrange(v + 1, v + 1 + w.len()) =~= w);
    written_numbers_are_read(items, numbers);
}

/// What an element type is called.
pub open spec fn dtype_written(dtype: DType) -> Seq<char> {
    match dtype {
        DType::F32 => "F32"@,
        DType::BF16 => "BF16"@,
        DType::F16 => "F16"@,
        DType::I8 => "I8"@,
        DType::I4 => "I4"@,
    }
}

/// A tensor's fields, and which of them say what.
pub struct TensorWritten {
    pub list: Seq<Entry>,
    pub dtype_at: int,
    pub shape_at: int,
    pub shape_items: Seq<Item>,
    pub offsets_at: int,
    pub offset_items: Seq<Item>,
}

/// The fields say this of the tensor, and no other text looks like their keys.
pub open spec fn says(t: TensorWritten, meta: MetaSpec) -> bool {
    let s = json_written(Json::Object(t.list));
    &&& are_entries(t.list)
    &&& 0 <= t.dtype_at < t.list.len()
    &&& text_written(t.list[t.dtype_at].key) == "dtype"@
    &&& t.list[t.dtype_at].value is Text
    &&& text_written(t.list[t.dtype_at].value->Text_0) == dtype_written(meta.dtype)
    &&& only_at(s, key_place(t.list, t.dtype_at), "\"dtype\""@)
    &&& 0 <= t.shape_at < t.list.len()
    &&& text_written(t.list[t.shape_at].key) == "shape"@
    &&& t.list[t.shape_at].value == Json::List(t.shape_items)
    &&& are_numbers(t.shape_items, meta.shape)
    &&& meta.shape.len() > 0
    &&& only_at(s, key_place(t.list, t.shape_at), "\"shape\""@)
    &&& 0 <= t.offsets_at < t.list.len()
    &&& text_written(t.list[t.offsets_at].key) == "data_offsets"@
    &&& t.list[t.offsets_at].value == Json::List(t.offset_items)
    &&& are_numbers(t.offset_items, seq![meta.data_start, meta.data_end])
    &&& only_at(s, key_place(t.list, t.offsets_at), "\"data_offsets\""@)
}

proof fn lemma_dtype(dtype: DType)
    ensures
        dtype_named(dtype_written(dtype)) == Some(dtype),
        forall|j: int|
            0 <= j < dtype_written(dtype).len() ==> #[trigger] dtype_written(dtype)[j] != '"',
{
    reveal_strlit("F32");
    reveal_strlit("BF16");
    reveal_strlit("F16");
    reveal_strlit("I8");
    reveal_strlit("I4");
    assert("F32"@[0] == 'F' && "F32"@[1] == '3');
    assert("F16"@[0] == 'F' && "F16"@[1] == '1');
    assert("BF16"@[0] == 'B');
    assert("I8"@[0] == 'I' && "I8"@[1] == '8');
    assert("I4"@[0] == 'I' && "I4"@[1] == '4');
}

/// What is written of a tensor is read: its element type by its name, its
/// shape, and where its data starts and ends.
pub proof fn a_written_tensor_reads_back(key: Seq<char>, t: TensorWritten, meta: MetaSpec)
    requires
        says(t, meta),
    ensures
        tensor_entry(EntrySpec { key, value: json_written(Json::Object(t.list)) }) == Ok::<
            MetaSpec,
            HeaderFault,
        >(meta),
{
    reveal_strlit("dtype");
    reveal_strlit("\"dtype\"");
    reveal_strlit("shape");
    reveal_strlit("\"shape\"");
    reveal_strlit("data_offsets");
    reveal_strlit("\"data_offsets\"");
    assert(seq!['"'] + "dtype"@ + seq!['"'] =~= "\"dtype\""@);
    assert(seq!['"'] + "shape"@ + seq!['"'] =~= "\"shape\""@);
    assert(seq!['"'] + "data_offsets"@ + seq!['"'] =~= "\"data_offsets\""@);
    lemma_dtype(meta.dtype);
    a_written_string_is_read(t.list, t.dtype_at, "dtype"@);
    a_written_list_is_read(t.list, t.shape_at, "shape"@, t.shape_items, meta.shape);
    a_written_list_is_read(
        t.list,
        t.offsets_at,
        "data_offsets"@,
        t.offset_items,
        seq![meta.data_start, meta.data_end],
    );
}

/// What one entry of a header is.
pub enum Part {
    Tensor(TensorWritten, MetaSpec),
    /// Texts about the file.
    About(Seq<Entry>),
}

/// The entry is that part.
pub open spec fn is_part(e: Entry, p: Part) -> bool {
    match p {
        Part::Tensor(t, meta) => {
            &&& e.value == Json::Object(t.list)
            &&& text_written(e.key) != "__metadata__"@
            &&& says(t, meta)
        },
        Part::About(texts) => {
            &&& e.value == Json::Object(texts)
            &&& text_written(e.key) == "__metadata__"@
            &&& are_entries(texts)
            &&& forall|k: int| 0 <= k < texts.len() ==> (#[trigger] texts[k]).value is Text
        },
    }
}

/// The tensors among the parts, with their names.
pub open spec fn tensors_in(list: Seq<Entry>, parts: Seq<Part>) -> Seq<TensorSpec>
    decreases parts.len(),
{
    if parts.len() == 0 || list.len() == 0 {
        Seq::empty()
    } else {
        let before = tensors_in(list.drop_last(), parts.drop_last());
        match parts.last() {
            Part::Tensor(_, meta) => before.push((text_written(list.last().key), meta)),
            Part::About(_) => before,
        }
    }
}

/// Texts with their names.
pub open spec fn texts_of(texts: Seq<Entry>) -> Seq<TextSpec> {
    texts.map_values(|e: Entry| (text_written(e.key), text_written(e.value->Text_0)))
}

/// The texts about the file among the parts.
pub open spec fn texts_in(parts: Seq<Part>) -> Seq<TextSpec>
    decreases parts.len(),
{
    if parts.len() == 0 {
        Seq::empty()
    } else {
        let before = texts_in(parts.drop_last());
        match parts.last() {
            Part::Tensor(_, _) => before,
            Part::About(texts) => before + texts_of(texts),
        }
    }
}

proof fn lemma_string_entries(texts: Seq<Entry>)
    requires
        are_entries(texts),
        forall|k: int| 0 <= k < texts.len() ==> (#[trigger] texts[k]).value is Text,
    ensures
        string_entries(texts.map_values(|e: Entry| entry_text(e))) == texts_of(texts),
{
    assert forall|k: int| 0 <= k < texts.len() implies crate::prompt::is_text(
        (#[trigger] texts[k]).value->Text_0,
    ) by {
        lemma_entries_each(texts, k);
    }
    lemma_string_entries_of(texts);
}

proof fn lemma_string_entries_of(texts: Seq<Entry>)
    requires
        forall|k: int|
            0 <= k < texts.len() ==> (#[trigger] texts[k]).value is Text && crate::prompt::is_text(
                texts[k].value->Text_0,
            ),
    ensures
        string_entries(texts.map_values(|e: Entry| entry_text(e))) == texts_of(texts),
    decreases texts.len(),
{
    let list = texts.map_values(|e: Entry| entry_text(e));
    if texts.len() > 0 {
        let front = texts.drop_last();
        assert forall|k: int| 0 <= k < front.len() implies (#[trigger] front[k]).value is Text
            && crate::prompt::is_text(front[k].value->Text_0) by {
            assert(front[k] == texts[k]);
        }
        lemma_string_entries_of(front);
        assert(list.drop_last() =~= front.map_values(|e: Entry| entry_text(e)));
        let e = texts[texts.len() - 1];
        let s = json_written(e.value);
        assert(holds(s, 0, quoted(e.value->Text_0)));
        lemma_quoted(s, 0, e.value->Text_0);
        assert(unquoted(s) == Some(text_written(e.value->Text_0)));
        assert(texts_of(texts) =~= texts_of(front).push(
            (text_written(e.key), text_written(e.value->Text_0)),
        ));
    } else {
        assert(texts_of(texts) =~= Seq::<TextSpec>::empty());
    }
}

proof fn lemma_parts(list: Seq<Entry>, parts: Seq<Part>)
    requires
        parts.len() == list.len(),
        forall|k: int| 0 <= k < list.len() ==> is_part(#[trigger] list[k], parts[k]),
    ensures
        tensor_entries(list.map_values(|e: Entry| entry_text(e))) == Ok::<
            Seq<TensorSpec>,
            HeaderFault,
        >(tensors_in(list, parts)),
        metadata_entries(list.map_values(|e: Entry| entry_text(e))) == texts_in(parts),
    decreases list.len(),
{
    let all = list.map_values(|e: Entry| entry_text(e));
    if list.len() > 0 {
        let front = list.drop_last();
        let fewer = parts.drop_last();
        assert forall|k: int| 0 <= k < front.len() implies is_part(
            #[trigger] front[k],
            fewer[k],
        ) by {
            assert(front[k] == list[k]);
        }
        lemma_parts(front, fewer);
        assert(all.drop_last() =~= front.map_values(|e: Entry| entry_text(e)));
        let e = list[list.len() - 1];
        assert(is_part(e, parts[parts.len() - 1]));
        assert(METADATA_KEY@ == "__metadata__"@);
        match parts.last() {
            Part::Tensor(t, meta) => {
                a_written_tensor_reads_back(text_written(e.key), t, meta);
            },
            Part::About(texts) => {
                lemma_trimmed_object(Seq::empty(), texts, Seq::empty());
                let s = entries_written(texts);
                assert(holds(s, 0, Seq::<char>::empty()));
                assert(holds(s, 0, s));
                lemma_entries(s, 0, Seq::empty(), texts);
                lemma_string_entries(texts);
            },
        }
    }
}

/// What is written in a header is read: every tensor under its name, with its
/// element type, shape and place, and every text about the file under its key,
/// however the entries are ordered and spaced.
pub proof fn a_written_header_reads_back(
    before: Seq<char>,
    list: Seq<Entry>,
    parts: Seq<Part>,
    behind: Seq<char>,
)
    requires
        is_spaces(before),
        is_spaces(behind),
        are_entries(list),
        parts.len() == list.len(),
        forall|k: int| 0 <= k < list.len() ==> is_part(#[trigger] list[k], parts[k]),
    ensures
        header_tensors(before + json_written(Json::Object(list)) + behind) == Ok::<
            Seq<TensorSpec>,
            HeaderFault,
        >(tensors_in(list, parts)),
        header_texts(before + json_written(Json::Object(list)) + behind) == texts_in(parts),
{
    assert forall|k: int| 0 <= k < list.len() implies (#[trigger] list[k]).value is Object
        || list[k].value is Text by {
        assert(is_part(list[k], parts[k]));
    }
    a_header_holds_its_entries(before, list, behind);
    lemma_parts(list, parts);
}

} // verus!
