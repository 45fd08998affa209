//! Tool declarations as a whole: JSON text that is written out value by value,
//! and what is read off it.

use vstd::prelude::*;
use crate::json::{
    bare_end,
    close_end,
    key_then,
    members,
    open_braces,
    skip_space,
    string_end,
    value_end,
    Member,
};
use crate::prompt::{is_text, text_written, TextChar};
use crate::text::stands_at;
use crate::tools::{
    declared_keys,
    keys_around,
    keys_of,
    next_name,
    object_of_key,
    properties_of,
    scope_of,
    tools_from,
    ToolSpec,
};

verus! {

/// A JSON value.
pub enum Json {
    Text(Seq<TextChar>),
    /// A number, `true`, `false` or `null`.
    Bare(Seq<char>),
    List(Seq<Item>),
    Object(Seq<Entry>),
}

/// An item of a list, with the white space around it.
pub struct Item {
    pub before: Seq<char>,
    pub value: Json,
    pub behind: Seq<char>,
}

/// A member of an object, with the white space around its parts.
pub struct Entry {
    pub before: Seq<char>,
    pub key: Seq<TextChar>,
    pub before_colon: Seq<char>,
    pub behind_colon: Seq<char>,
    pub value: Json,
    pub behind: Seq<char>,
}

/// A string in its quotes.
pub open spec fn quoted(text: Seq<TextChar>) -> Seq<char> {
    seq!['"'] + text_written(text) + seq!['"']
}

/// A value, as it is written.
pub open spec fn json_written(v: Json) -> Seq<char>
    decreases v,
{
    match v {
        Json::Text(text) => quoted(text),
        Json::Bare(chars) => chars,
        Json::List(items) => seq!['['] + items_written(items) + seq![']'],
        Json::Object(list) => seq!['{'] + entries_written(list) + seq!['}'],
    }
}

/// The items of a list, with commas between them.
pub open spec fn items_written(items: Seq<Item>) -> Seq<char>
    decreases items,
{
    if items.len() == 0 {
        Seq::empty()
    } else {
        let first = items[0];
        let one = first.before + json_written(first.value) + first.behind;
        if items.len() == 1 {
            one
        } else {
            one + seq![','] + items_written(items.subrange(1, items.len() as int))
        }
    }
}

/// What stands before the value of a member.
pub open spec fn head_written(e: Entry) -> Seq<char> {
    e.before + quoted(e.key) + e.before_colon + seq![':'] + e.behind_colon
}

/// The members of an object, with commas between them.
pub open spec fn entries_written(list: Seq<Entry>) -> Seq<char>
    decreases list,
{
    if list.len() == 0 {
        Seq::empty()
    } else {
        let first = list[0];
        let one = head_written(first) + json_written(first.value) + first.behind;
        if list.len() == 1 {
            one
        } else {
            one + seq![','] + entries_written(list.subrange(1, list.len() as int))
        }
    }
}

/// A space, a tab, a line feed, a carriage return or a form feed.
pub open spec fn is_space(c: char) -> bool {
    c == ' ' || c == '\t' || c == '\n' || c == '\r' || c == '\u{c}'
}

/// White space alone.
pub open spec fn is_spaces(s: Seq<char>) -> bool {
    forall|i: int| 0 <= i < s.len() ==> is_space(#[trigger] s[i])
}

/// No white space, no quote, no bracket and no comma.
pub open spec fn is_bare(s: Seq<char>) -> bool {
    &&& s.len() > 0
    &&& forall|i: int|
        0 <= i < s.len() ==> !is_space(#[trigger] s[i]) && s[i] != '"' && s[i] != '{' && s[i] != '}'
            && s[i] != '[' && s[i] != ']' && s[i] != ','
}

/// The parts of a value are what they say.
pub open spec fn is_json(v: Json) -> bool
    decreases v,
{
    match v {
        Json::Text(text) => is_text(text),
        Json::Bare(chars) => is_bare(chars),
        Json::List(items) => are_items(items),
        Json::Object(list) => are_entries(list),
    }
}

/// The parts of the items of a list are what they say.
pub open spec fn are_items(items: Seq<Item>) -> bool
    decreases items,
{
    items.len() > 0 ==> {
        &&& is_spaces(items[0].before)
        &&& is_json(items[0].value)
        &&& is_spaces(items[0].behind)
        &&& are_items(items.subrange(1, items.len() as int))
    }
}

/// The parts of the members of an object are what they say.
pub open spec fn are_entries(list: Seq<Entry>) -> bool
    decreases list,
{
    list.len() > 0 ==> {
        &&& is_spaces(list[0].before)
        &&& is_text(list[0].key)
        &&& is_spaces(list[0].before_colon)
        &&& is_spaces(list[0].behind_colon)
        &&& is_json(list[0].value)
        &&& is_spaces(list[0].behind)
        &&& are_entries(list.subrange(1, list.len() as int))
    }
}

/// The text stands in `s` at `i`.
pub open spec fn holds(s: Seq<char>, i: int, text: Seq<char>) -> bool {
    &&& 0 <= i
    &&& i + text.len() <= s.len()
    &&& forall|k: int| 0 <= k < text.len() ==> s[i + k] == #[trigger] text[k]
}

pub proof fn lemma_holds_both(s: Seq<char>, i: int, a: Seq<char>, b: Seq<char>)
    requires
        holds(s, i, a + b),
    ensures
        holds(s, i, a),
        holds(s, i + a.len(), b),
{
    assert forall|k: int| 0 <= k < a.len() implies s[i + k] == #[trigger] a[k] by {
        assert((a + b)[k] == a[k]);
    }
    assert forall|k: int| 0 <= k < b.len() implies s[i + a.len() + k] == #[trigger] b[k] by {
        assert((a + b)[a.len() + k] == b[k]);
    }
}

proof fn lemma_text_upto(s: Seq<char>, i: int, text: Seq<TextChar>)
    requires
        is_text(text),
        holds(s, i, text_written(text)),
    ensures
        string_end(s, i) == string_end(s, i + text_written(text).len()),
    decreases text.len(),
{
    if text.len() > 0 {
        let front = text.drop_last();
        let one = match text.last() {
            TextChar::Plain(c) => seq![c],
            TextChar::Escaped(c) => seq!['\\', c],
        };
        lemma_holds_both(s, i, text_written(front), one);
        assert(is_text(front)) by {
            assert forall|k: int| 0 <= k < front.len() implies match #[trigger] front[k] {
                TextChar::Plain(c) => c != '"' && c != '\\',
                TextChar::Escaped(_) => true,
            } by {
                assert(front[k] == text[k]);
            }
        }
        lemma_text_upto(s, i, front);
        let at = i + text_written(front).len();
        assert(text[text.len() - 1] == text.last());
        assert(s[at + 0] == one[0]);
        if text.last() is Escaped {
            assert(s[at + 1] == one[1]);
        }
    }
}

/// A string ends at the first quote that no backslash hides.
pub proof fn a_string_ends_at_its_quote(s: Seq<char>, i: int, text: Seq<TextChar>)
    requires
        is_text(text),
        holds(s, i, text_written(text) + seq!['"']),
    ensures
        string_end(s, i) == i + text_written(text).len(),
{
    lemma_holds_both(s, i, text_written(text), seq!['"']);
    lemma_text_upto(s, i, text);
    assert(s[i + text_written(text).len() + 0] == seq!['"'][0]);
}

pub proof fn lemma_quoted(s: Seq<char>, i: int, text: Seq<TextChar>)
    requires
        is_text(text),
        holds(s, i, quoted(text)),
    ensures
        s[i] == '"',
        string_end(s, i + 1) == i + quoted(text).len() - 1,
        s.subrange(i + 1, i + quoted(text).len() - 1) == text_written(text),
{
    let w = text_written(text);
    assert(quoted(text) =~= seq!['"'] + (w + seq!['"']));
    lemma_holds_both(s, i, seq!['"'], w + seq!['"']);
    assert(s[i + 0] == seq!['"'][0]);
    a_string_ends_at_its_quote(s, i + 1, text);
    lemma_holds_both(s, i + 1, w, seq!['"']);
    assert(s.subrange(i + 1, i + 1 + w.len()) =~= w);
}

proof fn lemma_skip_upto(s: Seq<char>, i: int, text: Seq<char>, n: int)
    requires
        is_spaces(text),
        holds(s, i, text),
        0 <= n <= text.len(),
    ensures
        skip_space(s, i) == skip_space(s, i + n),
    decreases n,
{
    if n > 0 {
        lemma_skip_upto(s, i, text, n - 1);
        assert(s[i + (n - 1)] == text[n - 1]);
    }
}

/// White space is passed over, and nothing else.
pub proof fn white_space_is_passed_over(s: Seq<char>, i: int, text: Seq<char>)
    requires
        is_spaces(text),
        holds(s, i, text),
        i + text.len() < s.len() ==> !is_space(s[i + text.len()]),
    ensures
        skip_space(s, i) == i + text.len(),
{
    lemma_skip_upto(s, i, text, text.len() as int);
}

proof fn lemma_close_spaces(s: Seq<char>, i: int, text: Seq<char>, depth: nat)
    requires
        holds(s, i, text),
        depth > 0,
        forall|k: int|
            0 <= k < text.len() ==> #[trigger] text[k] != '"' && text[k] != '{' && text[k] != '}'
                && text[k] != '[' && text[k] != ']',
    ensures
        close_end(s, i, depth) == close_end(s, i + text.len(), depth),
    decreases text.len(),
{
    if text.len() > 0 {
        let rest = text.subrange(1, text.len() as int);
        assert(text =~= seq![text[0]] + rest);
        lemma_holds_both(s, i, seq![text[0]], rest);
        assert(s[i + 0] == text[0]);
        lemma_close_spaces(s, i + 1, rest, depth);
    }
}

proof fn lemma_close_quoted(s: Seq<char>, i: int, text: Seq<TextChar>, depth: nat)
    requires
        is_text(text),
        holds(s, i, quoted(text)),
        depth > 0,
    ensures
        close_end(s, i, depth) == close_end(s, i + quoted(text).len(), depth),
{
    lemma_quoted(s, i, text);
}

proof fn lemma_close_value(s: Seq<char>, i: int, v: Json, depth: nat)
    requires
        is_json(v),
        holds(s, i, json_written(v)),
        depth > 0,
    ensures
        close_end(s, i, depth) == close_end(s, i + json_written(v).len(), depth),
    decreases v,
{
    match v {
        Json::Text(text) => {
            lemma_close_quoted(s, i, text, depth);
        },
        Json::Bare(chars) => {
            lemma_close_spaces(s, i, chars, depth);
        },
        Json::List(items) => {
            let w = items_written(items);
            lemma_holds_both(s, i, seq!['['] + w, seq![']']);
            lemma_holds_both(s, i, seq!['['], w);
            assert(s[i + 0] == seq!['['][0]);
            assert(s[i + 1 + w.len() + 0] == seq![']'][0]);
            lemma_close_items(s, i + 1, items, depth + 1);
        },
        Json::Object(list) => {
            let w = entries_written(list);
            lemma_holds_both(s, i, seq!['{'] + w, seq!['}']);
            lemma_holds_both(s, i, seq!['{'], w);
            assert(s[i + 0] == seq!['{'][0]);
            assert(s[i + 1 + w.len() + 0] == seq!['}'][0]);
            lemma_close_entries(s, i + 1, list, depth + 1);
        },
    }
}

proof fn lemma_close_items(s: Seq<char>, i: int, items: Seq<Item>, depth: nat)
    requires
        are_items(items),
        holds(s, i, items_written(items)),
        depth > 0,
    ensures
        close_end(s, i, depth) == close_end(s, i + items_written(items).len(), depth),
    decreases items,
{
    if items.len() > 0 {
        let f = items[0];
        let v = json_written(f.value);
        let one = f.before + v + f.behind;
        let rest = items.subrange(1, items.len() as int);
        if items.len() > 1 {
            lemma_holds_both(s, i, one + seq![','], items_written(rest));
            lemma_holds_both(s, i, one, seq![',']);
        }
        lemma_holds_both(s, i, f.before + v, f.behind);
        lemma_holds_both(s, i, f.before, v);
        lemma_close_spaces(s, i, f.before, depth);
        lemma_close_value(s, i + f.before.len(), f.value, depth);
        lemma_close_spaces(s, i + f.before.len() + v.len(), f.behind, depth);
        if items.len() > 1 {
            lemma_close_spaces(s, i + one.len(), seq![','], depth);
            lemma_close_items(s, i + one.len() + 1, rest, depth);
        }
    }
}

/// Where the parts of a member stand.
pub proof fn lemma_head(s: Seq<char>, i: int, e: Entry)
    requires
        holds(s, i, head_written(e)),
    ensures
        holds(s, i, e.before),
        holds(s, i + e.before.len(), quoted(e.key)),
        holds(s, i + e.before.len() + quoted(e.key).len(), e.before_colon),
        holds(s, i + e.before.len() + quoted(e.key).len() + e.before_colon.len(), seq![':']),
        holds(
            s,
            i + e.before.len() + quoted(e.key).len() + e.before_colon.len() + 1,
            e.behind_colon,
        ),
        head_written(e).len() == e.before.len() + quoted(e.key).len() + e.before_colon.len() + 1
            + e.behind_colon.len(),
        s[i + e.before.len() + quoted(e.key).len() + e.before_colon.len()] == ':',
{
    let a = e.before + quoted(e.key);
    lemma_holds_both(s, i, a + e.before_colon + seq![':'], e.behind_colon);
    lemma_holds_both(s, i, a + e.before_colon, seq![':']);
    lemma_holds_both(s, i, a, e.before_colon);
    lemma_holds_both(s, i, e.before, quoted(e.key));
    assert(s[i + (a + e.before_colon).len() + 0] == seq![':'][0]);
}

/// Where the first member of several stands, and the others.
pub proof fn lemma_first(s: Seq<char>, i: int, list: Seq<Entry>)
    requires
        list.len() > 0,
        holds(s, i, entries_written(list)),
    ensures
        ({
            let f = list[0];
            let v = json_written(f.value);
            let rest = list.subrange(1, list.len() as int);
            let at = i + head_written(f).len();
            let end = at + v.len() + f.behind.len();
            &&& holds(s, i, head_written(f))
            &&& holds(s, at, v)
            &&& holds(s, at + v.len(), f.behind)
            &&& list.len() == 1 ==> entries_written(list).len() == end - i
            &&& list.len() > 1 ==> {
                &&& holds(s, end, seq![','])
                &&& s[end] == ','
                &&& holds(s, end + 1, entries_written(rest))
                &&& entries_written(list).len() == end + 1 - i + entries_written(rest).len()
            }
        }),
{
    let f = list[0];
    let v = json_written(f.value);
    let one = head_written(f) + v + f.behind;
    let rest = list.subrange(1, list.len() as int);
    if list.len() > 1 {
        lemma_holds_both(s, i, one + seq![','], entries_written(rest));
        lemma_holds_both(s, i, one, seq![',']);
        assert(s[i + one.len() + 0] == seq![','][0]);
    }
    lemma_holds_both(s, i, head_written(f) + v, f.behind);
    lemma_holds_both(s, i, head_written(f), v);
}

proof fn lemma_close_head(s: Seq<char>, i: int, e: Entry, depth: nat)
    requires
        holds(s, i, head_written(e)),
        is_spaces(e.before),
        is_text(e.key),
        is_spaces(e.before_colon),
        is_spaces(e.behind_colon),
        depth > 0,
    ensures
        close_end(s, i, depth) == close_end(s, i + head_written(e).len(), depth),
{
    lemma_head(s, i, e);
    let a = i + e.before.len();
    let b = a + quoted(e.key).len();
    let c = b + e.before_colon.len();
    lemma_close_spaces(s, i, e.before, depth);
    lemma_close_quoted(s, a, e.key, depth);
    lemma_close_spaces(s, b, e.before_colon, depth);
    lemma_close_spaces(s, c, seq![':'], depth);
    lemma_close_spaces(s, c + 1, e.behind_colon, depth);
}

proof fn lemma_close_entries(s: Seq<char>, i: int, list: Seq<Entry>, depth: nat)
    requires
        are_entries(list),
        holds(s, i, entries_written(list)),
        depth > 0,
    ensures
        close_end(s, i, depth) == close_end(s, i + entries_written(list).len(), depth),
    decreases list,
{
    if list.len() > 0 {
        let f = list[0];
        let v = json_written(f.value);
        let rest = list.subrange(1, list.len() as int);
        let at = i + head_written(f).len();
        let end = at + v.len() + f.behind.len();
        lemma_first(s, i, list);
        lemma_close_head(s, i, f, depth);
        lemma_close_value(s, at, f.value, depth);
        lemma_close_spaces(s, at + v.len(), f.behind, depth);
        if list.len() > 1 {
            lemma_close_spaces(s, end, seq![','], depth);
            lemma_close_entries(s, end + 1, rest, depth);
        }
    }
}

proof fn lemma_bare_upto(s: Seq<char>, i: int, chars: Seq<char>, n: int)
    requires
        is_bare(chars),
        holds(s, i, chars),
        0 <= n <= chars.len(),
    ensures
        bare_end(s, i) == bare_end(s, i + n),
    decreases n,
{
    if n > 0 {
        lemma_bare_upto(s, i, chars, n - 1);
        assert(s[i + (n - 1)] == chars[n - 1]);
    }
}

/// A value ends where what is written of it ends: strings at their quote,
/// objects and lists at the bracket that closes them, whatever brackets and
/// quotes they hold, and the others before white space, a comma or a closing
/// bracket.
pub proof fn a_value_ends_where_it_is_written(s: Seq<char>, i: int, v: Json)
    requires
        is_json(v),
        holds(s, i, json_written(v)),
        ({
            let end = i + json_written(v).len();
            v is Bare && end < s.len() ==> is_space(s[end]) || s[end] == ',' || s[end] == '}'
                || s[end] == ']'
        }),
    ensures
        value_end(s, i) == i + json_written(v).len(),
{
    match v {
        Json::Text(text) => {
            lemma_quoted(s, i, text);
        },
        Json::Bare(chars) => {
            lemma_bare_upto(s, i, chars, chars.len() as int);
            assert(s[i + 0] == chars[0]);
        },
        Json::List(items) => {
            let w = items_written(items);
            lemma_holds_both(s, i, seq!['['] + w, seq![']']);
            lemma_holds_both(s, i, seq!['['], w);
            assert(s[i + 0] == seq!['['][0]);
            assert(s[i + 1 + w.len() + 0] == seq![']'][0]);
            lemma_close_items(s, i + 1, items, 1);
        },
        Json::Object(list) => {
            let w = entries_written(list);
            lemma_holds_both(s, i, seq!['{'] + w, seq!['}']);
            lemma_holds_both(s, i, seq!['{'], w);
            assert(s[i + 0] == seq!['{'][0]);
            assert(s[i + 1 + w.len() + 0] == seq!['}'][0]);
            lemma_close_entries(s, i + 1, list, 1);
        },
    }
}

/// The member tells where the key and the value of the entry stand.
pub open spec fn tells(s: Seq<char>, m: Member, e: Entry) -> bool {
    &&& m.key_from <= m.key_to <= s.len()
    &&& s.subrange(m.key_from as int, m.key_to as int) == text_written(e.key)
    &&& holds(s, m.value as int, json_written(e.value))
}

/// The members of an object are those that it is written with, in their order.
pub proof fn members_are_those_written(s: Seq<char>, i: int, list: Seq<Entry>)
    requires
        are_entries(list),
        holds(s, i, entries_written(list) + seq!['}']),
        s.len() <= usize::MAX,
    ensures
        members(s, i).len() == list.len(),
        forall|k: int| 0 <= k < list.len() ==> tells(s, #[trigger] members(s, i)[k], list[k]),
    decreases list.len(),
{
    let w = entries_written(list);
    lemma_holds_both(s, i, w, seq!['}']);
    assert(s[i + w.len() + 0] == seq!['}'][0]);
    if list.len() > 0 {
        let f = list[0];
        let v = json_written(f.value);
        let rest = list.subrange(1, list.len() as int);
        let at = i + head_written(f).len();
        let end = at + v.len() + f.behind.len();
        lemma_first(s, i, list);
        lemma_head(s, i, f);
        let a = i + f.before.len();
        let b = a + quoted(f.key).len();
        let c = b + f.before_colon.len();
        lemma_quoted(s, a, f.key);
        white_space_is_passed_over(s, i, f.before);
        white_space_is_passed_over(s, b, f.before_colon);
        lemma_starts(s, at, f.value);
        white_space_is_passed_over(s, c + 1, f.behind_colon);
        if f.behind.len() > 0 {
            assert(s[at + v.len() + 0] == f.behind[0]);
        }
        a_value_ends_where_it_is_written(s, at, f.value);
        white_space_is_passed_over(s, at + v.len(), f.behind);
        let m = members(s, i);
        if list.len() > 1 {
            assert forall|k: int|
                0 <= k < (entries_written(rest) + seq!['}']).len() implies s[end + 1 + k]
                == #[trigger] (entries_written(rest) + seq!['}'])[k] by {
                if k < entries_written(rest).len() {
                    assert(s[end + 1 + k] == entries_written(rest)[k]);
                }
            }
            members_are_those_written(s, end + 1, rest);
            assert(m.subrange(1, m.len() as int) =~= members(s, end + 1));
        }
        assert forall|k: int| 0 <= k < list.len() implies tells(s, #[trigger] m[k], list[k]) by {
            if k > 0 {
                assert(m[k] == members(s, end + 1)[k - 1]);
                assert(rest[k - 1] == list[k]);
            }
        }
    }
}

/// No value starts with white space, and only an object with a brace.
pub proof fn lemma_starts(s: Seq<char>, i: int, v: Json)
    requires
        is_json(v),
        holds(s, i, json_written(v)),
    ensures
        json_written(v).len() > 0,
        i < s.len(),
        !is_space(s[i]),
        s[i] == '{' <==> v is Object,
{
    assert(s[i + 0] == json_written(v)[0]);
}

/// The keys of the entries; with `objects_only`, of those with an object.
pub open spec fn entry_keys(list: Seq<Entry>, objects_only: bool) -> Seq<Seq<char>>
    decreases list.len(),
{
    if list.len() == 0 {
        Seq::empty()
    } else if !objects_only || list.last().value is Object {
        entry_keys(list.drop_last(), objects_only).push(text_written(list.last().key))
    } else {
        entry_keys(list.drop_last(), objects_only)
    }
}

/// Keys that name a parameter: neither empty nor a lone brace.
pub open spec fn are_keys(list: Seq<Entry>) -> bool {
    forall|k: int|
        0 <= k < list.len() ==> text_written((#[trigger] list[k]).key).len() > 0 && text_written(
            list[k].key,
        ) != seq!['}']
}

proof fn lemma_entry_keys_first(list: Seq<Entry>, objects_only: bool)
    requires
        list.len() > 0,
    ensures
        entry_keys(list, objects_only) == (if !objects_only || list[0].value is Object {
            seq![text_written(list[0].key)]
        } else {
            Seq::empty()
        }) + entry_keys(list.subrange(1, list.len() as int), objects_only),
    decreases list.len(),
{
    let rest = list.subrange(1, list.len() as int);
    if list.len() == 1 {
        assert(list.drop_last() =~= Seq::<Entry>::empty());
        assert(entry_keys(list.drop_last(), objects_only) =~= Seq::<Seq<char>>::empty());
        assert(entry_keys(rest, objects_only) =~= Seq::<Seq<char>>::empty());
    } else {
        let front = list.drop_last();
        lemma_entry_keys_first(front, objects_only);
        assert(front.subrange(1, front.len() as int) =~= rest.drop_last());
        assert(rest.last() == list.last());
        assert(front[0] == list[0]);
    }
}

proof fn lemma_keys(s: Seq<char>, ms: Seq<Member>, list: Seq<Entry>, objects_only: bool)
    requires
        are_entries(list),
        are_keys(list),
        ms.len() == list.len(),
        forall|k: int| 0 <= k < list.len() ==> tells(s, #[trigger] ms[k], list[k]),
    ensures
        keys_of(s, ms, objects_only) == entry_keys(list, objects_only),
    decreases list.len(),
{
    if list.len() > 0 {
        let rest = list.subrange(1, list.len() as int);
        assert forall|k: int| 0 <= k < rest.len() implies tells(
            s,
            #[trigger] ms.skip(1)[k],
            rest[k],
        ) by {
            assert(ms.skip(1)[k] == ms[k + 1]);
            assert(rest[k] == list[k + 1]);
        }
        assert forall|k: int| 0 <= k < rest.len() implies text_written(
            (#[trigger] rest[k]).key,
        ).len() > 0 && text_written(rest[k].key) != seq!['}'] by {
            assert(rest[k] == list[k + 1]);
        }
        lemma_keys(s, ms.skip(1), rest, objects_only);
        lemma_entry_keys_first(list, objects_only);
        assert(tells(s, ms[0], list[0]));
        lemma_starts(s, ms[0].value as int, list[0].value);
        reveal_strlit("}");
        assert("}"@ =~= seq!['}']);
        assert(text_written(list[0].key).len() > 0);
        assert(keys_of(s, ms, objects_only) =~= entry_keys(list, objects_only));
    } else {
        assert(keys_of(s, ms, objects_only) =~= Seq::<Seq<char>>::empty());
    }
}

/// The entry is `"properties"` with an object.
pub open spec fn is_properties(e: Entry) -> bool {
    text_written(e.key) == "properties"@ && e.value is Object
}

proof fn lemma_properties(s: Seq<char>, ms: Seq<Member>, list: Seq<Entry>, p: int)
    requires
        are_entries(list),
        ms.len() == list.len(),
        0 <= p <= list.len(),
        forall|k: int| 0 <= k < list.len() ==> tells(s, #[trigger] ms[k], list[k]),
        forall|k: int| 0 <= k < p ==> !is_properties(#[trigger] list[k]),
        p < list.len() ==> is_properties(list[p]),
    ensures
        p == list.len() ==> properties_of(s, ms) is None,
        p < list.len() ==> properties_of(s, ms) == Some(ms[p].value + 1),
    decreases list.len(),
{
    if list.len() > 0 {
        assert(tells(s, ms[0], list[0]));
        lemma_starts(s, ms[0].value as int, list[0].value);
        if p > 0 {
            assert(!is_properties(list[0]));
            let rest = list.subrange(1, list.len() as int);
            assert forall|k: int| 0 <= k < rest.len() implies tells(
                s,
                #[trigger] ms.skip(1)[k],
                rest[k],
            ) by {
                assert(ms.skip(1)[k] == ms[k + 1]);
                assert(rest[k] == list[k + 1]);
            }
            assert forall|k: int| 0 <= k < p - 1 implies !is_properties(#[trigger] rest[k]) by {
                assert(rest[k] == list[k + 1]);
            }
            lemma_properties(s, ms.skip(1), rest, p - 1);
        }
    }
}

pub proof fn lemma_entries_each(list: Seq<Entry>, k: int)
    requires
        are_entries(list),
        0 <= k < list.len(),
    ensures
        is_json(list[k].value),
        is_text(list[k].key),
    decreases list.len(),
{
    if k > 0 {
        let rest = list.subrange(1, list.len() as int);
        lemma_entries_each(rest, k - 1);
        assert(rest[k - 1] == list[k]);
    }
}

/// A parameters object in the style of a schema declares the keys of its first
/// `properties` object, whatever their values.
pub proof fn a_schema_declares_its_properties(
    s: Seq<char>,
    i: int,
    list: Seq<Entry>,
    p: int,
    properties: Seq<Entry>,
)
    requires
        are_entries(list),
        holds(s, i, entries_written(list) + seq!['}']),
        s.len() <= usize::MAX,
        0 <= p < list.len(),
        text_written(list[p].key) == "properties"@,
        list[p].value == Json::Object(properties),
        forall|k: int| 0 <= k < p ==> !is_properties(#[trigger] list[k]),
        are_keys(properties),
    ensures
        declared_keys(s, i) == entry_keys(properties, false),
{
    members_are_those_written(s, i, list);
    let ms = members(s, i);
    lemma_properties(s, ms, list, p);
    assert(tells(s, ms[p], list[p]));
    lemma_entries_each(list, p);
    let w = entries_written(properties);
    assert(json_written(list[p].value) =~= seq!['{'] + (w + seq!['}']));
    lemma_holds_both(s, ms[p].value as int, seq!['{'], w + seq!['}']);
    members_are_those_written(s, ms[p].value + 1, properties);
    lemma_keys(s, members(s, ms[p].value + 1), properties, false);
}

/// A parameters object without `properties` declares the keys that have an
/// object for their value.
pub proof fn a_flat_object_declares_its_objects(s: Seq<char>, i: int, list: Seq<Entry>)
    requires
        are_entries(list),
        holds(s, i, entries_written(list) + seq!['}']),
        s.len() <= usize::MAX,
        forall|k: int| 0 <= k < list.len() ==> !is_properties(#[trigger] list[k]),
        are_keys(list),
    ensures
        declared_keys(s, i) == entry_keys(list, true),
{
    members_are_those_written(s, i, list);
    lemma_properties(s, members(s, i), list, list.len() as int);
    lemma_keys(s, members(s, i), list, true);
}

proof fn lemma_open_plain(s: Seq<char>, i: int, text: Seq<char>, at: int, open: Seq<int>)
    requires
        holds(s, i, text),
        i + text.len() <= at,
        forall|k: int|
            0 <= k < text.len() ==> #[trigger] text[k] != '"' && text[k] != '{' && text[k] != '}',
    ensures
        open_braces(s, i, at, open) == open_braces(s, i + text.len(), at, open),
    decreases text.len(),
{
    if text.len() > 0 {
        let rest = text.subrange(1, text.len() as int);
        assert(text =~= seq![text[0]] + rest);
        lemma_holds_both(s, i, seq![text[0]], rest);
        assert(s[i + 0] == text[0]);
        lemma_open_plain(s, i + 1, rest, at, open);
    }
}

proof fn lemma_open_quoted(s: Seq<char>, i: int, text: Seq<TextChar>, at: int, open: Seq<int>)
    requires
        is_text(text),
        holds(s, i, quoted(text)),
        i + quoted(text).len() <= at,
    ensures
        open_braces(s, i, at, open) == open_braces(s, i + quoted(text).len(), at, open),
{
    lemma_quoted(s, i, text);
}

proof fn lemma_open_value(s: Seq<char>, i: int, v: Json, at: int, open: Seq<int>)
    requires
        is_json(v),
        holds(s, i, json_written(v)),
        i + json_written(v).len() <= at,
    ensures
        open_braces(s, i, at, open) == open_braces(s, i + json_written(v).len(), at, open),
    decreases v,
{
    match v {
        Json::Text(text) => {
            lemma_open_quoted(s, i, text, at, open);
        },
        Json::Bare(chars) => {
            lemma_open_plain(s, i, chars, at, open);
        },
        Json::List(items) => {
            let w = items_written(items);
            lemma_holds_both(s, i, seq!['['] + w, seq![']']);
            lemma_holds_both(s, i, seq!['['], w);
            lemma_open_plain(s, i, seq!['['], at, open);
            lemma_open_items(s, i + 1, items, at, open);
            lemma_open_plain(s, i + 1 + w.len(), seq![']'], at, open);
        },
        Json::Object(list) => {
            let w = entries_written(list);
            lemma_holds_both(s, i, seq!['{'] + w, seq!['}']);
            lemma_holds_both(s, i, seq!['{'], w);
            assert(s[i + 0] == seq!['{'][0]);
            assert(s[i + 1 + w.len() + 0] == seq!['}'][0]);
            lemma_open_entries(s, i + 1, list, at, open.push(i));
            assert(open.push(i).drop_last() =~= open);
        },
    }
}

proof fn lemma_open_items(s: Seq<char>, i: int, items: Seq<Item>, at: int, open: Seq<int>)
    requires
        are_items(items),
        holds(s, i, items_written(items)),
        i + items_written(items).len() <= at,
    ensures
        open_braces(s, i, at, open) == open_braces(s, i + items_written(items).len(), at, open),
    decreases items,
{
    if items.len() > 0 {
        lemma_first_item(s, i, items);
        let f = items[0];
        let v = json_written(f.value);
        let rest = items.subrange(1, items.len() as int);
        let a = i + f.before.len();
        lemma_open_plain(s, i, f.before, at, open);
        lemma_open_value(s, a, f.value, at, open);
        lemma_open_plain(s, a + v.len(), f.behind, at, open);
        if items.len() > 1 {
            let end = a + v.len() + f.behind.len();
            lemma_open_plain(s, end, seq![','], at, open);
            lemma_open_items(s, end + 1, rest, at, open);
        }
    }
}

/// Where the first item of several stands, and the others.
proof fn lemma_first_item(s: Seq<char>, i: int, items: Seq<Item>)
    requires
        items.len() > 0,
        holds(s, i, items_written(items)),
    ensures
        ({
            let f = items[0];
            let v = json_written(f.value);
            let rest = items.subrange(1, items.len() as int);
            let at = i + f.before.len();
            let end = at + v.len() + f.behind.len();
            &&& holds(s, i, f.before)
            &&& holds(s, at, v)
            &&& holds(s, at + v.len(), f.behind)
            &&& items.len() == 1 ==> items_written(items).len() == end - i
            &&& items.len() > 1 ==> {
                &&& holds(s, end, seq![','])
                &&& s[end] == ','
                &&& holds(s, end + 1, items_written(rest))
                &&& items_written(items).len() == end + 1 - i + items_written(rest).len()
            }
        }),
{
    let f = items[0];
    let v = json_written(f.value);
    let one = f.before + v + f.behind;
    let rest = items.subrange(1, items.len() as int);
    if items.len() > 1 {
        lemma_holds_both(s, i, one + seq![','], items_written(rest));
        lemma_holds_both(s, i, one, seq![',']);
        assert(s[i + one.len() + 0] == seq![','][0]);
    }
    lemma_holds_both(s, i, f.before + v, f.behind);
    lemma_holds_both(s, i, f.before, v);
}

proof fn lemma_open_head(s: Seq<char>, i: int, e: Entry, at: int, open: Seq<int>)
    requires
        holds(s, i, head_written(e)),
        is_spaces(e.before),
        is_text(e.key),
        is_spaces(e.before_colon),
        is_spaces(e.behind_colon),
        i + head_written(e).len() <= at,
    ensures
        open_braces(s, i, at, open) == open_braces(s, i + head_written(e).len(), at, open),
{
    lemma_head(s, i, e);
    let a = i + e.before.len();
    let b = a + quoted(e.key).len();
    let c = b + e.before_colon.len();
    lemma_open_plain(s, i, e.before, at, open);
    lemma_open_quoted(s, a, e.key, at, open);
    lemma_open_plain(s, b, e.before_colon, at, open);
    lemma_open_plain(s, c, seq![':'], at, open);
    lemma_open_plain(s, c + 1, e.behind_colon, at, open);
}

proof fn lemma_open_first(s: Seq<char>, i: int, list: Seq<Entry>, at: int, open: Seq<int>)
    requires
        list.len() > 0,
        are_entries(list),
        holds(s, i, entries_written(list)),
        i + head_written(list[0]).len() + json_written(list[0].value).len() + list[0].behind.len()
            <= at,
    ensures
        open_braces(s, i, at, open) == open_braces(
            s,
            i + head_written(list[0]).len() + json_written(list[0].value).len()
                + list[0].behind.len(),
            at,
            open,
        ),
    decreases list, 0int,
{
    let f = list[0];
    let v = json_written(f.value);
    let a = i + head_written(f).len();
    lemma_first(s, i, list);
    lemma_open_head(s, i, f, at, open);
    lemma_open_value(s, a, f.value, at, open);
    lemma_open_plain(s, a + v.len(), f.behind, at, open);
}

proof fn lemma_open_entries(s: Seq<char>, i: int, list: Seq<Entry>, at: int, open: Seq<int>)
    requires
        are_entries(list),
        holds(s, i, entries_written(list)),
        i + entries_written(list).len() <= at,
    ensures
        open_braces(s, i, at, open) == open_braces(s, i + entries_written(list).len(), at, open),
    decreases list, 1int,
{
    if list.len() > 0 {
        let f = list[0];
        let rest = list.subrange(1, list.len() as int);
        let end = i + head_written(f).len() + json_written(f.value).len() + f.behind.len();
        lemma_first(s, i, list);
        lemma_open_first(s, i, list, at, open);
        if list.len() > 1 {
            lemma_open_plain(s, end, seq![','], at, open);
            lemma_open_entries(s, end + 1, rest, at, open);
        }
    }
}

/// How far behind the first member the one at `k` stands.
pub open spec fn entry_place(list: Seq<Entry>, k: int) -> int
    decreases list.len(),
{
    if k <= 0 || list.len() == 0 {
        0
    } else {
        let f = list[0];
        head_written(f).len() + json_written(f.value).len() + f.behind.len() + 1 + entry_place(
            list.subrange(1, list.len() as int),
            k - 1,
        )
    }
}

pub proof fn lemma_entry(s: Seq<char>, i: int, list: Seq<Entry>, k: int, at: int, open: Seq<int>)
    requires
        are_entries(list),
        holds(s, i, entries_written(list)),
        0 <= k < list.len(),
        i + entry_place(list, k) <= at,
    ensures
        ({
            let e = list[k];
            let a = i + entry_place(list, k);
            &&& entry_place(list, k) >= 0
            &&& is_spaces(e.before)
            &&& is_text(e.key)
            &&& is_spaces(e.before_colon)
            &&& is_spaces(e.behind_colon)
            &&& is_json(e.value)
            &&& holds(s, a, head_written(e))
            &&& holds(s, a + head_written(e).len(), json_written(e.value))
            &&& a + head_written(e).len() + json_written(e.value).len() <= i + entries_written(
                list,
            ).len()
            &&& open_braces(s, i, at, open) == open_braces(s, a, at, open)
        }),
    decreases list.len(),
{
    lemma_first(s, i, list);
    if k > 0 {
        let f = list[0];
        let rest = list.subrange(1, list.len() as int);
        let end = i + head_written(f).len() + json_written(f.value).len() + f.behind.len();
        lemma_entry_place(rest, k - 1);
        lemma_open_first(s, i, list, at, open);
        lemma_open_plain(s, end, seq![','], at, open);
        lemma_entry(s, end + 1, rest, k - 1, at, open);
        assert(rest[k - 1] == list[k]);
    }
}

pub proof fn lemma_entry_place(list: Seq<Entry>, k: int)
    ensures
        entry_place(list, k) >= 0,
    decreases list.len(),
{
    if k > 0 && list.len() > 0 {
        lemma_entry_place(list.subrange(1, list.len() as int), k - 1);
    }
}

/// A declared tool: its members, which of them are its name and its parameters,
/// and what these hold.
pub struct Tool {
    pub list: Seq<Entry>,
    pub name_at: int,
    pub name: Seq<TextChar>,
    pub parameters_at: int,
    pub parameters: Seq<Entry>,
}

/// The text stands at one place alone.
pub open spec fn only_at(s: Seq<char>, place: int, text: Seq<char>) -> bool {
    forall|i: int| #[trigger] holds(s, i, text) ==> i == place
}

/// How far behind its brace the key of the member at `k` stands.
pub open spec fn key_place(list: Seq<Entry>, k: int) -> int {
    1 + entry_place(list, k) + list[k].before.len()
}

/// The tool has a name, a string, and parameters, an object, and neither key
/// stands anywhere else in its text.
pub open spec fn is_declaration(t: Tool) -> bool {
    let text = json_written(Json::Object(t.list));
    &&& are_entries(t.list)
    &&& 0 <= t.name_at < t.list.len()
    &&& text_written(t.list[t.name_at].key) == "name"@
    &&& t.list[t.name_at].value == Json::Text(t.name)
    &&& only_at(text, key_place(t.list, t.name_at), "\"name\""@)
    &&& 0 <= t.parameters_at < t.list.len()
    &&& text_written(t.list[t.parameters_at].key) == "parameters"@
    &&& t.list[t.parameters_at].value == Json::Object(t.parameters)
    &&& only_at(text, key_place(t.list, t.parameters_at), "\"parameters\""@)
    &&& match schema(t.parameters) {
        Some(properties) => are_keys(properties),
        None => are_keys(t.parameters),
    }
}

/// What the first `properties` object holds, where there is one.
pub open spec fn schema(list: Seq<Entry>) -> Option<Seq<Entry>>
    decreases list.len(),
{
    if list.len() == 0 {
        None
    } else {
        match (text_written(list[0].key) == "properties"@, list[0].value) {
            (true, Json::Object(properties)) => Some(properties),
            _ => schema(list.subrange(1, list.len() as int)),
        }
    }
}

proof fn lemma_schema(list: Seq<Entry>) -> (p: int)
    ensures
        0 <= p <= list.len(),
        forall|k: int| 0 <= k < p ==> !is_properties(#[trigger] list[k]),
        p == list.len() ==> schema(list) is None,
        p < list.len() ==> is_properties(list[p]) && schema(list) is Some && list[p].value
            == Json::Object(schema(list)->0),
    decreases list.len(),
{
    if list.len() == 0 {
        0
    } else if is_properties(list[0]) {
        0
    } else {
        let rest = list.subrange(1, list.len() as int);
        let q = lemma_schema(rest);
        assert forall|k: int| 0 <= k < q + 1 implies !is_properties(#[trigger] list[k]) by {
            if k > 0 {
                assert(rest[k - 1] == list[k]);
            }
        }
        if q < rest.len() {
            assert(rest[q] == list[q + 1]);
        }
        q + 1
    }
}

/// What a tool declares: its name and the keys of its parameters.
pub open spec fn declared(t: Tool) -> ToolSpec {
    (
        text_written(t.name),
        match schema(t.parameters) {
            Some(properties) => entry_keys(properties, false),
            None => entry_keys(t.parameters, true),
        },
    )
}

/// No quoted text that holds no brace stands anywhere in the stretch.
spec fn nowhere(s: Seq<char>, from: int, to: int, text: Seq<char>) -> bool {
    forall|i: int| from <= i < to ==> !#[trigger] holds(s, i, text)
}

/// Inside a tool's text, a key that stands at one place of it stands at no
/// other.
proof fn lemma_only_there(s: Seq<char>, at: int, v: Seq<char>, place: int, text: Seq<char>, i: int)
    requires
        holds(s, at, v),
        only_at(v, place, text),
        at <= i < at + v.len(),
        holds(s, i, text),
        v.len() > 0,
        v.last() == '}',
        forall|k: int| 0 <= k < text.len() ==> #[trigger] text[k] != '}',
    ensures
        i == at + place,
{
    let k = i - at;
    if k + text.len() > v.len() {
        let z = v.len() - 1 - k;
        assert(s[i + z] == text[z]);
        assert(s[at + (v.len() - 1)] == v[v.len() - 1]);
    } else {
        assert forall|j: int| 0 <= j < text.len() implies v[k + j] == #[trigger] text[j] by {
            assert(s[i + j] == text[j]);
            assert(s[at + (k + j)] == v[k + j]);
        }
        assert(holds(v, k, text));
    }
}

/// What the key at `i` opens is found where it is written.
proof fn lemma_key_then(s: Seq<char>, i: int, e: Entry, quoted_key: Seq<char>, open: char)
    requires
        is_spaces(e.before),
        is_text(e.key),
        is_spaces(e.before_colon),
        is_spaces(e.behind_colon),
        is_json(e.value),
        quoted(e.key) == quoted_key,
        holds(s, i, head_written(e)),
        holds(s, i + head_written(e).len(), json_written(e.value)),
        s[i + head_written(e).len()] == open,
    ensures
        key_then(s, i + e.before.len(), quoted_key, open) == Some(i + head_written(e).len() + 1),
        holds(s, i + e.before.len(), quoted_key),
{
    lemma_head(s, i, e);
    let a = i + e.before.len();
    let b = a + quoted(e.key).len();
    let c = b + e.before_colon.len();
    assert(s.subrange(a, b) =~= quoted_key);
    white_space_is_passed_over(s, b, e.before_colon);
    lemma_starts(s, i + head_written(e).len(), e.value);
    white_space_is_passed_over(s, c + 1, e.behind_colon);
}

proof fn lemma_no_key(s: Seq<char>, i: int, quoted_key: Seq<char>, open: char)
    requires
        !holds(s, i, quoted_key),
    ensures
        key_then(s, i, quoted_key, open) is None,
{
    if stands_at(s, i, quoted_key) {
        assert forall|k: int| 0 <= k < quoted_key.len() implies s[i + k]
            == #[trigger] quoted_key[k] by {
            assert(s.subrange(i, i + quoted_key.len())[k] == quoted_key[k]);
        }
    }
}

proof fn lemma_next_name(s: Seq<char>, i: int, to: int)
    requires
        0 <= i <= to <= s.len(),
        nowhere(s, i, to, "\"name\""@),
        to < s.len() ==> key_then(s, to, "\"name\""@, '"') is Some,
    ensures
        next_name(s, i) == if to < s.len() {
            Some((to, key_then(s, to, "\"name\""@, '"')->0))
        } else {
            None
        },
    decreases to - i,
{
    if i < to {
        assert(!holds(s, i, "\"name\""@));
        lemma_no_key(s, i, "\"name\""@, '"');
        lemma_next_name(s, i + 1, to);
    }
}

proof fn lemma_object_of_key(s: Seq<char>, i: int, to: int, end: int, quoted_key: Seq<char>)
    requires
        0 <= i <= to < end,
        nowhere(s, i, to, quoted_key),
        key_then(s, to, quoted_key, '{') is Some,
    ensures
        object_of_key(s, i, end, quoted_key) == key_then(s, to, quoted_key, '{'),
    decreases to - i,
{
    if i < to {
        assert(!holds(s, i, quoted_key));
        lemma_no_key(s, i, quoted_key, '{');
        lemma_object_of_key(s, i + 1, to, end, quoted_key);
    }
}

/// Where a tool's brace stands, its name's key, the name and its end, and where
/// its parameters start.
proof fn lemma_places(s: Seq<char>, at: int, t: Tool)
    requires
        is_declaration(t),
        holds(s, at, json_written(Json::Object(t.list))),
    ensures
        ({
            let n = at + key_place(t.list, t.name_at);
            let v = n + quoted(t.list[t.name_at].key).len() + t.list[t.name_at].before_colon.len()
                + 1 + t.list[t.name_at].behind_colon.len() + 1;
            let e = v + text_written(t.name).len();
            let p = at + key_place(t.list, t.parameters_at);
            let end = at + json_written(Json::Object(t.list)).len();
            &&& at < n < v <= e < end <= s.len()
            &&& key_then(s, n, "\"name\""@, '"') == Some(v)
            &&& string_end(s, v) == e
            &&& s.subrange(v, e) == text_written(t.name)
            &&& at < p < end
            &&& key_then(s, p, "\"parameters\""@, '{') is Some
            &&& holds(
                s,
                key_then(s, p, "\"parameters\""@, '{')->0,
                entries_written(t.parameters) + seq!['}'],
            )
            &&& close_end(s, at + 1, 1) == end
            &&& open_braces(s, at, n, Seq::empty()) == seq![at]
            &&& are_entries(t.parameters)
            &&& s[at] == '{'
        }),
{
    let w = entries_written(t.list);
    let whole = json_written(Json::Object(t.list));
    lemma_holds_both(s, at, seq!['{'] + w, seq!['}']);
    lemma_holds_both(s, at, seq!['{'], w);
    assert(s[at + 0] == seq!['{'][0]);
    lemma_entry_place(t.list, t.name_at);
    lemma_entry_place(t.list, t.parameters_at);
    let ne = t.list[t.name_at];
    let pe = t.list[t.parameters_at];
    let na = at + 1 + entry_place(t.list, t.name_at);
    let pa = at + 1 + entry_place(t.list, t.parameters_at);
    let n = na + ne.before.len();
    let nothing = Seq::<int>::empty();
    lemma_entry(s, at + 1, t.list, t.name_at, n, nothing.push(at));
    lemma_entry(s, at + 1, t.list, t.parameters_at, pa, nothing);
    reveal_strlit("name");
    reveal_strlit("\"name\"");
    reveal_strlit("parameters");
    reveal_strlit("\"parameters\"");
    assert(quoted(ne.key) =~= "\"name\""@);
    assert(quoted(pe.key) =~= "\"parameters\""@);
    let nv = na + head_written(ne).len();
    let pv = pa + head_written(pe).len();
    lemma_head(s, na, ne);
    lemma_head(s, pa, pe);
    lemma_quoted(s, nv, t.name);
    lemma_key_then(s, na, ne, "\"name\""@, '"');
    let pw = entries_written(t.parameters);
    assert(json_written(pe.value) =~= seq!['{'] + (pw + seq!['}']));
    lemma_holds_both(s, pv, seq!['{'], pw + seq!['}']);
    assert(s[pv + 0] == seq!['{'][0]);
    lemma_key_then(s, pa, pe, "\"parameters\""@, '{');
    a_value_ends_where_it_is_written(s, at, Json::Object(t.list));
    lemma_open_plain(s, na, ne.before, n, nothing.push(at));
    assert(nothing.push(at) =~= seq![at]);
}

/// The keys of a tool that stands at `at` are those of its parameters, with
/// other names before and behind it.
proof fn lemma_keys_of_tool(s: Seq<char>, at: int, t: Tool, last: int, next: int)
    requires
        is_declaration(t),
        holds(s, at, json_written(Json::Object(t.list))),
        s.len() <= usize::MAX,
        0 <= last <= at,
        at + json_written(Json::Object(t.list)).len() <= next,
    ensures
        keys_around(s, last, next, seq![at]) == declared(t).1,
{
    let whole = json_written(Json::Object(t.list));
    let end = at + whole.len();
    let p = at + key_place(t.list, t.parameters_at);
    let word = "\"parameters\""@;
    lemma_places(s, at, t);
    reveal_strlit("\"parameters\"");
    assert forall|i: int| at <= i < p implies !#[trigger] holds(s, i, word) by {
        if holds(s, i, word) {
            lemma_only_there(s, at, whole, key_place(t.list, t.parameters_at), word, i);
        }
    }
    lemma_object_of_key(s, at, p, end, word);
    let o = key_then(s, p, word, '{')->0;
    let k = lemma_schema(t.parameters);
    if k < t.parameters.len() {
        a_schema_declares_its_properties(s, o, t.parameters, k, schema(t.parameters)->0);
    } else {
        a_flat_object_declares_its_objects(s, o, t.parameters);
    }
    assert(seq![at].last() == at);
}

/// The items are the tools.
pub open spec fn are_declarations(items: Seq<Item>, tools: Seq<Tool>) -> bool {
    &&& items.len() == tools.len()
    &&& forall|k: int|
        0 <= k < tools.len() ==> is_declaration(#[trigger] tools[k]) && items[k].value
            == Json::Object(tools[k].list)
}

/// Nothing is quoted between the tools.
proof fn lemma_nowhere_between(s: Seq<char>, i: int, text: Seq<char>, word: Seq<char>)
    requires
        holds(s, i, text),
        word.len() > 0,
        word[0] == '"',
        forall|k: int| 0 <= k < text.len() ==> #[trigger] text[k] != '"',
    ensures
        nowhere(s, i, i + text.len(), word),
{
    assert forall|j: int| i <= j < i + text.len() implies !#[trigger] holds(s, j, word) by {
        if holds(s, j, word) {
            assert(s[j + 0] == word[0]);
            assert(s[i + (j - i)] == text[j - i]);
        }
    }
}

/// The next name is that of the first tool.
proof fn lemma_first_name(s: Seq<char>, i: int, at: int, items: Seq<Item>, tools: Seq<Tool>)
    requires
        are_items(items),
        are_declarations(items, tools),
        holds(s, at, items_written(items) + seq![']']),
        s.len() == at + items_written(items).len() + 1,
        0 <= i <= at,
        nowhere(s, i, at, "\"name\""@),
    ensures
        tools.len() == 0 ==> next_name(s, i) is None,
        tools.len() > 0 ==> ({
            let t = tools[0];
            let a = at + items[0].before.len();
            let n = a + key_place(t.list, t.name_at);
            let v = n + quoted(t.list[t.name_at].key).len() + t.list[t.name_at].before_colon.len()
                + 1 + t.list[t.name_at].behind_colon.len() + 1;
            next_name(s, i) == Some((n, v))
        }),
{
    let word = "\"name\""@;
    reveal_strlit("\"name\"");
    let w = items_written(items);
    lemma_holds_both(s, at, w, seq![']']);
    if tools.len() == 0 {
        lemma_nowhere_between(s, at, seq![']'], word);
        assert(s.len() == at + 1);
        assert forall|j: int| i <= j < s.len() implies !#[trigger] holds(s, j, word) by {
            if j < at {
                assert(!holds(s, j, word));
            } else {
                assert(!holds(s, j, word));
            }
        }
        lemma_next_name(s, i, s.len() as int);
    } else {
        lemma_first_item(s, at, items);
        let t = tools[0];
        let f = items[0];
        let a = at + f.before.len();
        assert(is_declaration(tools[0]));
        lemma_places(s, a, t);
        lemma_nowhere_between(s, at, f.before, word);
        let n = a + key_place(t.list, t.name_at);
        let whole = json_written(f.value);
        assert forall|j: int| i <= j < n implies !#[trigger] holds(s, j, word) by {
            if j >= a && holds(s, j, word) {
                lemma_only_there(s, a, whole, key_place(t.list, t.name_at), word, j);
            }
        }
        lemma_next_name(s, i, n);
    }
}

proof fn lemma_tools(s: Seq<char>, i: int, at: int, items: Seq<Item>, tools: Seq<Tool>)
    requires
        are_items(items),
        are_declarations(items, tools),
        holds(s, at, items_written(items) + seq![']']),
        s.len() == at + items_written(items).len() + 1,
        s.len() <= usize::MAX,
        0 <= i <= at,
        nowhere(s, i, at, "\"name\""@),
        forall|to: int|
            at <= to ==> #[trigger] open_braces(s, 0, to, Seq::empty()) == open_braces(
                s,
                at,
                to,
                Seq::empty(),
            ),
    ensures
        tools_from(s, i) == tools.map_values(|t: Tool| declared(t)),
    decreases tools.len(),
{
    let word = "\"name\""@;
    reveal_strlit("\"name\"");
    let w = items_written(items);
    let want = tools.map_values(|t: Tool| declared(t));
    let none = Seq::<int>::empty();
    lemma_first_name(s, i, at, items, tools);
    lemma_holds_both(s, at, w, seq![']']);
    if tools.len() == 0 {
        assert(tools_from(s, i) =~= want);
    } else {
        lemma_first_item(s, at, items);
        let t = tools[0];
        let f = items[0];
        let whole = json_written(f.value);
        let a = at + f.before.len();
        assert(is_declaration(tools[0]));
        lemma_places(s, a, t);
        let n = a + key_place(t.list, t.name_at);
        let v = n + quoted(t.list[t.name_at].key).len() + t.list[t.name_at].before_colon.len() + 1
            + t.list[t.name_at].behind_colon.len() + 1;
        let e = v + text_written(t.name).len();
        let end = a + whole.len();
        let rest = items.subrange(1, items.len() as int);
        let others = tools.subrange(1, tools.len() as int);
        // Where the tools behind this one start, or the closing bracket stands.
        let behind = end + f.behind.len() + if tools.len() > 1 {
            1int
        } else {
            0int
        };
        if tools.len() == 1 {
            assert(rest =~= Seq::<Item>::empty());
            assert(items_written(rest) =~= Seq::<char>::empty());
        }
        assert forall|k: int| 0 <= k < (items_written(rest) + seq![']']).len() implies s[behind + k]
            == #[trigger] (items_written(rest) + seq![']'])[k] by {
            if k < items_written(rest).len() {
                assert(s[behind + k] == items_written(rest)[k]);
            } else {
                assert(s[at + w.len() + 0] == seq![']'][0]);
            }
        }
        assert(are_declarations(rest, others)) by {
            assert forall|k: int| 0 <= k < others.len() implies is_declaration(
                #[trigger] others[k],
            ) && rest[k].value == Json::Object(others[k].list) by {
                assert(others[k] == tools[k + 1]);
                assert(rest[k] == items[k + 1]);
            }
        }
        lemma_nowhere_between(s, end, f.behind, word);
        if tools.len() > 1 {
            lemma_nowhere_between(s, end + f.behind.len(), seq![','], word);
        }
        assert forall|j: int| e <= j < behind implies !#[trigger] holds(s, j, word) by {
            if holds(s, j, word) {
                if j < end {
                    lemma_only_there(s, a, whole, key_place(t.list, t.name_at), word, j);
                } else if j >= end + f.behind.len() {
                    assert(nowhere(s, end + f.behind.len(), end + f.behind.len() + 1, word));
                }
            }
        }
        assert forall|to: int| behind <= to implies #[trigger] open_braces(s, 0, to, none)
            == open_braces(s, behind, to, none) by {
            lemma_open_plain(s, at, f.before, to, none);
            lemma_open_value(s, a, f.value, to, none);
            lemma_open_plain(s, end, f.behind, to, none);
            if tools.len() > 1 {
                lemma_open_plain(s, end + f.behind.len(), seq![','], to, none);
            }
        }
        lemma_tools(s, e, behind, rest, others);
        lemma_first_name(s, e, behind, rest, others);
        let next = match next_name(s, e) {
            Some((m, _)) => m,
            None => s.len() as int,
        };
        if others.len() > 0 {
            assert(is_declaration(others[0]));
            lemma_entry_place(others[0].list, others[0].name_at);
        }
        assert(end <= next);
        lemma_open_plain(s, at, f.before, n, none);
        assert(open_braces(s, 0, n, none) == seq![a]);
        lemma_keys_of_tool(s, a, t, i, next);
        assert(tools_from(s, i) =~= seq![declared(t)] + tools_from(s, e));
        assert(want =~= seq![declared(t)] + others.map_values(|t: Tool| declared(t)));
    }
}

/// A list of tools is read as it is written: each tool with its name and with
/// the keys of its own parameters, in their order, wherever the two stand among
/// its members, whatever else these hold, and however the text is spaced.
pub proof fn the_tools_are_those_declared(items: Seq<Item>, tools: Seq<Tool>)
    requires
        are_items(items),
        are_declarations(items, tools),
        json_written(Json::List(items)).len() <= usize::MAX,
    ensures
        tools_from(json_written(Json::List(items)), 0) == tools.map_values(|t: Tool| declared(t)),
{
    let s = json_written(Json::List(items));
    let w = items_written(items);
    let none = Seq::<int>::empty();
    reveal_strlit("\"name\"");
    assert(s =~= seq!['['] + (w + seq![']']));
    assert(holds(s, 0, seq!['['] + (w + seq![']'])));
    lemma_holds_both(s, 0, seq!['['], w + seq![']']);
    lemma_nowhere_between(s, 0, seq!['['], "\"name\""@);
    assert forall|to: int| 1 <= to implies #[trigger] open_braces(s, 0, to, none) == open_braces(
        s,
        1,
        to,
        none,
    ) by {
        lemma_open_plain(s, 0, seq!['['], to, none);
    }
    lemma_tools(s, 0, 1, items, tools);
}

/// What an entry of an object that stands at `at` opens.
proof fn lemma_opened(s: Seq<char>, at: int, list: Seq<Entry>, k: int, word: Seq<char>)
    requires
        are_entries(list),
        holds(s, at, json_written(Json::Object(list))),
        0 <= k < list.len(),
        quoted(list[k].key) == word,
        list[k].value is Object,
    ensures
        ({
            let p = at + key_place(list, k);
            let end = at + json_written(Json::Object(list)).len();
            let inner = list[k].value->Object_0;
            &&& at < p < end <= s.len()
            &&& key_then(s, p, word, '{') is Some
            &&& holds(s, key_then(s, p, word, '{')->0, entries_written(inner) + seq!['}'])
            &&& are_entries(inner)
            &&& close_end(s, at + 1, 1) == end
        }),
{
    let w = entries_written(list);
    lemma_holds_both(s, at, seq!['{'] + w, seq!['}']);
    lemma_holds_both(s, at, seq!['{'], w);
    assert(s[at + 0] == seq!['{'][0]);
    lemma_entry_place(list, k);
    let e = list[k];
    let a = at + 1 + entry_place(list, k);
    lemma_entry(s, at + 1, list, k, a, Seq::empty());
    lemma_head(s, a, e);
    let v = a + head_written(e).len();
    let inner = entries_written(e.value->Object_0);
    assert(json_written(e.value) =~= seq!['{'] + (inner + seq!['}']));
    lemma_holds_both(s, v, seq!['{'], inner + seq!['}']);
    assert(s[v + 0] == seq!['{'][0]);
    lemma_key_then(s, a, e, word, '{');
    a_value_ends_where_it_is_written(s, at, Json::Object(list));
}

/// The quoted word stands nowhere in the text.
pub open spec fn absent(s: Seq<char>, word: Seq<char>) -> bool {
    forall|i: int| !#[trigger] holds(s, i, word)
}

proof fn lemma_absent(s: Seq<char>, at: int, v: Seq<char>, word: Seq<char>, to: int)
    requires
        holds(s, at, v),
        absent(v, word),
        at <= to <= at + v.len(),
        v.len() > 0,
        v.last() == '}',
        forall|k: int| 0 <= k < word.len() ==> #[trigger] word[k] != '}',
    ensures
        nowhere(s, at, to, word),
        object_of_key(s, at, to, word) is None,
    decreases to - at,
{
    assert forall|i: int| at <= i < to implies !#[trigger] holds(s, i, word) by {
        if holds(s, i, word) {
            lemma_only_there(s, at, v, -1, word, i);
            lemma_only_there(s, at, v, -2, word, i);
        }
    }
    lemma_none_opened(s, at, to, word);
}

proof fn lemma_none_opened(s: Seq<char>, i: int, to: int, word: Seq<char>)
    requires
        0 <= i,
        nowhere(s, i, to, word),
    ensures
        object_of_key(s, i, to, word) is None,
    decreases to - i,
{
    if i < to {
        assert(!holds(s, i, word));
        lemma_no_key(s, i, word, '{');
        lemma_none_opened(s, i + 1, to, word);
    }
}

/// The keys of a tool are those that the object around its name declares under
/// `parameters`, be it first or last, or where it has no such key under
/// `properties`.
pub proof fn the_object_around_declares_the_keys(
    s: Seq<char>,
    open: Seq<int>,
    list: Seq<Entry>,
    k: int,
    last: int,
    next: int,
)
    requires
        open.len() > 0,
        s.len() <= usize::MAX,
        are_entries(list),
        holds(s, open.last(), json_written(Json::Object(list))),
        0 <= last <= open.last(),
        open.last() + json_written(Json::Object(list)).len() <= next,
        0 <= k < list.len(),
        list[k].value is Object,
    ensures
        ({
            let text = json_written(Json::Object(list));
            let inner = list[k].value->Object_0;
            text_written(list[k].key) == "parameters"@ && only_at(
                text,
                key_place(list, k),
                "\"parameters\""@,
            ) ==> {
                &&& schema(inner) is Some && are_keys(schema(inner)->0) ==> keys_around(
                    s,
                    last,
                    next,
                    open,
                ) == entry_keys(schema(inner)->0, false)
                &&& schema(inner) is None && are_keys(inner) ==> keys_around(s, last, next, open)
                    == entry_keys(inner, true)
            }
        }),
        ({
            let text = json_written(Json::Object(list));
            let inner = list[k].value->Object_0;
            text_written(list[k].key) == "properties"@ && only_at(
                text,
                key_place(list, k),
                "\"properties\""@,
            ) && absent(text, "\"parameters\""@) && are_keys(inner) ==> keys_around(
                s,
                last,
                next,
                open,
            ) == entry_keys(inner, false)
        }),
{
    let at = open.last();
    let whole = json_written(Json::Object(list));
    let end = at + whole.len();
    let p = at + key_place(list, k);
    let inner = list[k].value->Object_0;
    reveal_strlit("parameters");
    reveal_strlit("\"parameters\"");
    reveal_strlit("properties");
    reveal_strlit("\"properties\"");
    let word = quoted(list[k].key);
    lemma_opened(s, at, list, k, word);
    let o = key_then(s, p, word, '{')->0;
    assert(scope_of(s, open) == (at, end));
    if text_written(list[k].key) == "parameters"@ && only_at(
        whole,
        key_place(list, k),
        "\"parameters\""@,
    ) {
        assert(word =~= "\"parameters\""@);
        assert forall|i: int| at <= i < p implies !#[trigger] holds(s, i, word) by {
            if holds(s, i, word) {
                lemma_only_there(s, at, whole, key_place(list, k), word, i);
            }
        }
        lemma_object_of_key(s, at, p, end, word);
        let m = lemma_schema(inner);
        if m < inner.len() {
            if are_keys(schema(inner)->0) {
                a_schema_declares_its_properties(s, o, inner, m, schema(inner)->0);
            }
        } else if are_keys(inner) {
            a_flat_object_declares_its_objects(s, o, inner);
        }
    }
    if text_written(list[k].key) == "properties"@ && only_at(
        whole,
        key_place(list, k),
        "\"properties\""@,
    ) && absent(whole, "\"parameters\""@) && are_keys(inner) {
        assert(word =~= "\"properties\""@);
        lemma_absent(s, at, whole, "\"parameters\""@, end);
        assert forall|i: int| at <= i < p implies !#[trigger] holds(s, i, word) by {
            if holds(s, i, word) {
                lemma_only_there(s, at, whole, key_place(list, k), word, i);
            }
        }
        lemma_object_of_key(s, at, p, end, word);
        members_are_those_written(s, o, inner);
        lemma_keys(s, members(s, o), inner, false);
    }
}

/// An object that declares no keys leaves them to the one around it, unless
/// another name stands in that one: then the tool has none.
pub proof fn keys_are_looked_for_outwards(
    s: Seq<char>,
    outer: Seq<int>,
    at: int,
    list: Seq<Entry>,
    around: Seq<Entry>,
    last: int,
    next: int,
)
    requires
        are_entries(list),
        holds(s, at, json_written(Json::Object(list))),
        absent(json_written(Json::Object(list)), "\"parameters\""@),
        absent(json_written(Json::Object(list)), "\"properties\""@),
        outer.len() > 0,
        are_entries(around),
        holds(s, outer.last(), json_written(Json::Object(around))),
        0 <= last <= at,
        at + json_written(Json::Object(list)).len() <= next,
    ensures
        last <= outer.last() && outer.last() + json_written(Json::Object(around)).len() <= next
            ==> keys_around(s, last, next, outer.push(at)) == keys_around(s, last, next, outer),
        !(last <= outer.last() && outer.last() + json_written(Json::Object(around)).len() <= next)
            ==> keys_around(s, last, next, outer.push(at)) == Seq::<Seq<char>>::empty(),
{
    let open = outer.push(at);
    let whole = json_written(Json::Object(list));
    let end = at + whole.len();
    reveal_strlit("\"parameters\"");
    reveal_strlit("\"properties\"");
    lemma_closes(s, at, list);
    lemma_closes(s, outer.last(), around);
    lemma_absent(s, at, whole, "\"parameters\""@, end);
    lemma_absent(s, at, whole, "\"properties\""@, end);
    assert(open.drop_last() =~= outer);
    assert(open.last() == at);
    assert(scope_of(s, open) == (at, end));
}

proof fn lemma_closes(s: Seq<char>, at: int, list: Seq<Entry>)
    requires
        are_entries(list),
        holds(s, at, json_written(Json::Object(list))),
    ensures
        close_end(s, at + 1, 1) == at + json_written(Json::Object(list)).len(),
        json_written(Json::Object(list)).last() == '}',
        json_written(Json::Object(list)).len() > 0,
{
    let w = entries_written(list);
    lemma_holds_both(s, at, seq!['{'] + w, seq!['}']);
    lemma_holds_both(s, at, seq!['{'], w);
    assert(s[at + 0] == seq!['{'][0]);
    a_value_ends_where_it_is_written(s, at, Json::Object(list));
}

/// A key that names no parameter, empty or a lone brace, ends the list: keys
/// behind it are not read.
pub proof fn a_nameless_key_ends_the_list(
    s: Seq<char>,
    i: int,
    list: Seq<Entry>,
    stop: int,
    objects_only: bool,
)
    requires
        are_entries(list),
        holds(s, i, entries_written(list) + seq!['}']),
        s.len() <= usize::MAX,
        0 <= stop < list.len(),
        are_keys(list.take(stop)),
        text_written(list[stop].key).len() == 0 || text_written(list[stop].key) == seq!['}'],
    ensures
        keys_of(s, members(s, i), objects_only) == entry_keys(list.take(stop), objects_only),
{
    members_are_those_written(s, i, list);
    assert forall|k: int| 0 <= k < list.len() implies is_json((#[trigger] list[k]).value) by {
        lemma_entries_each(list, k);
    }
    lemma_keys_upto(s, members(s, i), list, stop, objects_only);
}

proof fn lemma_keys_upto(
    s: Seq<char>,
    ms: Seq<Member>,
    list: Seq<Entry>,
    stop: int,
    objects_only: bool,
)
    requires
        forall|k: int| 0 <= k < list.len() ==> is_json((#[trigger] list[k]).value),
        ms.len() == list.len(),
        forall|k: int| 0 <= k < list.len() ==> tells(s, #[trigger] ms[k], list[k]),
        0 <= stop < list.len(),
        are_keys(list.take(stop)),
        text_written(list[stop].key).len() == 0 || text_written(list[stop].key) == seq!['}'],
    ensures
        keys_of(s, ms, objects_only) == entry_keys(list.take(stop), objects_only),
    decreases list.len(),
{
    reveal_strlit("}");
    assert("}"@ =~= seq!['}']);
    assert(tells(s, ms[0], list[0]));
    if stop == 0 {
        assert(list.take(0) =~= Seq::<Entry>::empty());
        assert(keys_of(s, ms, objects_only) =~= Seq::<Seq<char>>::empty());
    } else {
        let some = list.take(stop);
        let rest = list.subrange(1, list.len() as int);
        assert(some[0] == list[0]);
        assert(text_written(some[0].key).len() > 0);
        assert(some.subrange(1, some.len() as int) =~= rest.take(stop - 1));
        assert forall|k: int| 0 <= k < rest.len() implies tells(
            s,
            #[trigger] ms.skip(1)[k],
            rest[k],
        ) by {
            assert(ms.skip(1)[k] == ms[k + 1]);
            assert(rest[k] == list[k + 1]);
        }
        assert forall|k: int| 0 <= k < rest.len() implies is_json((#[trigger] rest[k]).value) by {
            assert(rest[k] == list[k + 1]);
        }
        assert forall|k: int| 0 <= k < rest.take(stop - 1).len() implies text_written(
            (#[trigger] rest.take(stop - 1)[k]).key,
        ).len() > 0 && text_written(rest.take(stop - 1)[k].key) != seq!['}'] by {
            assert(rest.take(stop - 1)[k] == some[k + 1]);
        }
        lemma_keys_upto(s, ms.skip(1), rest, stop - 1, objects_only);
        lemma_entry_keys_first(some, objects_only);
        lemma_starts(s, ms[0].value as int, list[0].value);
        assert(keys_of(s, ms, objects_only) =~= entry_keys(some, objects_only));
    }
}

} // verus!
