//! Tool definitions, read off the JSON a caller declares them in, and the
//! renaming between a caller's names and the snake-case names the model uses.

use vstd::prelude::*;
use crate::json::{
    braces_open_at,
    close_end,
    end_of_block,
    end_of_string,
    has_key,
    key_is,
    key_then,
    members,
    members_of,
    open_braces,
    places,
    string_end,
    value_of_key,
    Member,
};
use crate::snake::{snake, to_snake_case};
use crate::text::{chars_of, part_of, text_of};

verus! {

/// One declared tool.
pub struct ToolDef {
    pub name: String,
    pub snake_name: String,
    pub param_keys: Vec<String>,
}

/// A declared tool, as text: its name and its parameter keys.
pub type ToolSpec = (Seq<char>, Seq<Seq<char>>);

/// The texts of a list of strings.
pub open spec fn views(list: Seq<String>) -> Seq<Seq<char>> {
    list.map_values(|s: String| s@)
}

/// `"name"`, in its quotes.
pub open spec fn name_key() -> Seq<char> {
    "\"name\""@
}

/// Where the next name's value starts, counting from `i`: at the first
/// `"name"` key with a string value.
pub open spec fn next_name(s: Seq<char>, i: int) -> Option<(int, int)>
    decreases s.len() - i,
{
    if i < 0 || i >= s.len() {
        None
    } else {
        match key_then(s, i, name_key(), '"') {
            Some(v) => Some((i, v)),
            None => next_name(s, i + 1),
        }
    }
}

/// Where the object of the first `quoted_key` in `[i, end)` that has an object
/// for its value starts.
pub open spec fn object_of_key(s: Seq<char>, i: int, end: int, quoted_key: Seq<char>) -> Option<int>
    decreases end - i,
{
    if i < 0 || i >= end {
        None
    } else {
        match key_then(s, i, quoted_key, '{') {
            Some(v) => Some(v),
            None => object_of_key(s, i + 1, end, quoted_key),
        }
    }
}

/// The value of a member opens an object.
pub open spec fn opens_object(s: Seq<char>, m: Member) -> bool {
    m.value < s.len() && s[m.value as int] == '{'
}

/// The object under the first `properties` member, where there is one.
pub open spec fn properties_of(s: Seq<char>, list: Seq<Member>) -> Option<int>
    decreases list.len(),
{
    if list.len() == 0 {
        None
    } else if has_key(s, list[0], "properties"@) && opens_object(s, list[0]) {
        Some(list[0].value + 1)
    } else {
        properties_of(s, list.skip(1))
    }
}

/// A member whose key ends the list of parameters: an empty one, or a brace.
pub open spec fn ends_keys(s: Seq<char>, m: Member) -> bool {
    m.key_from == m.key_to || has_key(s, m, "}"@)
}

/// The keys of a list of members, up to one that ends it; with `objects_only`,
/// of those whose value is an object.
pub open spec fn keys_of(s: Seq<char>, list: Seq<Member>, objects_only: bool) -> Seq<Seq<char>>
    decreases list.len(),
{
    if list.len() == 0 || ends_keys(s, list[0]) {
        Seq::empty()
    } else {
        let m = list[0];
        let rest = keys_of(s, list.skip(1), objects_only);
        if !objects_only || opens_object(s, m) {
            seq![s.subrange(m.key_from as int, m.key_to as int)] + rest
        } else {
            rest
        }
    }
}

/// The parameter keys a parameters object declares, in either style: under
/// `properties` if it has that member, else its own members that describe a
/// parameter by an object.
pub open spec fn declared_keys(s: Seq<char>, object: int) -> Seq<Seq<char>> {
    let list = members(s, object);
    match properties_of(s, list) {
        Some(p) => keys_of(s, members(s, p), false),
        None => keys_of(s, list, true),
    }
}

/// The parameter keys of the tool whose text runs from `from` to `to`.
pub open spec fn param_keys_in(s: Seq<char>, from: int, to: int) -> Seq<Seq<char>> {
    match object_of_key(s, from, to, "\"parameters\""@) {
        Some(o) => declared_keys(s, o),
        None => match object_of_key(s, from, to, "\"properties\""@) {
            Some(o) => keys_of(s, members(s, o), false),
            None => Seq::empty(),
        },
    }
}

/// The stretch from `from` to `to` declares parameters.
pub open spec fn declares_keys(s: Seq<char>, from: int, to: int) -> bool {
    object_of_key(s, from, to, "\"parameters\""@) is Some || object_of_key(
        s,
        from,
        to,
        "\"properties\""@,
    ) is Some
}

/// The text of the innermost of the objects that open at `open`: from its
/// brace to past the one that closes it. Outside every object it is the whole
/// text.
pub open spec fn scope_of(s: Seq<char>, open: Seq<int>) -> (int, int) {
    if open.len() == 0 {
        (0, s.len() as int)
    } else {
        (open.last(), close_end(s, open.last() + 1, 1))
    }
}

/// The parameter keys of a tool whose name stands in the objects that open at
/// `open`, after the last name, which ended at `last`, and before `next`,
/// where another stands. They are declared in the object that holds the name;
/// where that declares none, in the nearest one around it, as long as that
/// holds no other name.
pub open spec fn keys_around(s: Seq<char>, last: int, next: int, open: Seq<int>) -> Seq<Seq<char>>
    decreases open.len(),
{
    let (a, b) = scope_of(s, open);
    let from = if last < a {
        a
    } else {
        last
    };
    let to = if next < b {
        next
    } else {
        b
    };
    if open.len() == 0 || declares_keys(s, from, to) {
        param_keys_in(s, from, to)
    } else {
        let (c, d) = scope_of(s, open.drop_last());
        if last <= c && d <= next {
            keys_around(s, last, next, open.drop_last())
        } else {
            Seq::empty()
        }
    }
}

/// The tools declared from `i` on: each `"name"` key with a string value
/// declares one.
pub open spec fn tools_from(s: Seq<char>, i: int) -> Seq<ToolSpec>
    decreases s.len() - i,
{
    if i < 0 || i >= s.len() {
        Seq::empty()
    } else {
        match next_name(s, i) {
            Some((at, v)) => {
                let e = string_end(s, v);
                if i < e <= s.len() {
                    let next = match next_name(s, e) {
                        Some((n, _)) => n,
                        None => s.len() as int,
                    };
                    let open = open_braces(s, 0, at, Seq::empty());
                    seq![(s.subrange(v, e), keys_around(s, i, next, open))] + tools_from(s, e)
                } else {
                    Seq::empty()
                }
            },
            None => Seq::empty(),
        }
    }
}

/// A tool as it was read carries what the text declares, with its snake-case name
/// beside the declared one.
pub open spec fn is_tool(t: ToolDef, spec: ToolSpec) -> bool {
    &&& t.name@ == spec.0
    &&& t.snake_name@ == snake(spec.0)
    &&& views(t.param_keys@) == spec.1
}

/// The list carries what the text declares.
pub open spec fn are_tools(list: Seq<ToolDef>, spec: Seq<ToolSpec>) -> bool {
    &&& list.len() == spec.len()
    &&& forall|i: int| 0 <= i < list.len() ==> is_tool(#[trigger] list[i], spec[i])
}

fn find_name(s: &[char], i: usize, key: &[char]) -> (found: Option<(usize, usize)>)
    requires
        i <= s@.len(),
        key@ == name_key(),
    ensures
        match found {
            Some((at, v)) => {
                &&& next_name(s@, i as int) == Some((at as int, v as int))
                &&& i <= at < v <= s@.len()
            },
            None => next_name(s@, i as int) is None,
        },
{
    let mut at: usize = i;
    while at < s.len()
        invariant
            i <= at <= s@.len(),
            key@ == name_key(),
            next_name(s@, at as int) == next_name(s@, i as int),
        decreases s.len() - at,
    {
        match value_of_key(s, at, key, '"') {
            Some(v) => {
                return Some((at, v));
            },
            None => {},
        }
        at = at + 1;
    }
    None
}

fn find_object(s: &[char], from: usize, to: usize, key: &[char]) -> (found: Option<usize>)
    requires
        to <= s@.len(),
    ensures
        match found {
            Some(v) => object_of_key(s@, from as int, to as int, key@) == Some(v as int) && v
                <= s@.len(),
            None => object_of_key(s@, from as int, to as int, key@) is None,
        },
{
    let mut i: usize = from;
    while i < to
        invariant
            from <= i,
            to <= s@.len(),
            object_of_key(s@, i as int, to as int, key@) == object_of_key(
                s@,
                from as int,
                to as int,
                key@,
            ),
        decreases to - i,
    {
        match value_of_key(s, i, key, '{') {
            Some(v) => {
                return Some(v);
            },
            None => {},
        }
        i = i + 1;
    }
    None
}

/// The members lie inside the text.
spec fn in_text(s: Seq<char>, list: Seq<Member>) -> bool {
    forall|k: int|
        0 <= k < list.len() ==> (#[trigger] list[k]).key_from <= list[k].key_to < list[k].value
            <= s.len()
}

fn find_properties(s: &[char], list: &[Member]) -> (found: Option<usize>)
    requires
        in_text(s@, list@),
    ensures
        match found {
            Some(p) => properties_of(s@, list@) == Some(p as int) && p <= s@.len(),
            None => properties_of(s@, list@) is None,
        },
{
    let key = chars_of("properties");
    let mut i: usize = 0;
    assert(list@.skip(0) =~= list@);
    while i < list.len()
        invariant
            i <= list@.len(),
            in_text(s@, list@),
            key@ == "properties"@,
            properties_of(s@, list@.skip(i as int)) == properties_of(s@, list@),
        decreases list.len() - i,
    {
        let m = &list[i];
        assert(list@.skip(i as int)[0] == *m);
        assert(list@.skip(i as int).skip(1) =~= list@.skip(i + 1));
        if key_is(s, m, &key) && m.value < s.len() && s[m.value] == '{' {
            return Some(m.value + 1);
        }
        i = i + 1;
    }
    None
}

fn collect_keys(s: &[char], list: &[Member], objects_only: bool) -> (keys: Vec<String>)
    requires
        in_text(s@, list@),
    ensures
        views(keys@) == keys_of(s@, list@, objects_only),
{
    let brace = chars_of("}");
    let mut keys: Vec<String> = Vec::new();
    let mut i: usize = 0;
    assert(list@.skip(0) =~= list@);
    assert(views(keys@) + keys_of(s@, list@, objects_only) =~= keys_of(s@, list@, objects_only));
    while i < list.len()
        invariant
            i <= list@.len(),
            in_text(s@, list@),
            brace@ == "}"@,
            views(keys@) + keys_of(s@, list@.skip(i as int), objects_only) == keys_of(
                s@,
                list@,
                objects_only,
            ),
        decreases list.len() - i,
    {
        let m = &list[i];
        let ghost rest = list@.skip(i + 1);
        proof {
            assert(list@.skip(i as int)[0] == *m);
            assert(list@.skip(i as int).skip(1) =~= rest);
        }
        if m.key_from == m.key_to || key_is(s, m, &brace) {
            assert(views(keys@) + Seq::<Seq<char>>::empty() =~= views(keys@));
            return keys;
        }
        if !objects_only || (m.value < s.len() && s[m.value] == '{') {
            let ghost before = keys@;
            let part = part_of(s, m.key_from, m.key_to);
            keys.push(text_of(&part));
            proof {
                let later = keys_of(s@, rest, objects_only);
                assert(views(keys@) =~= views(before).push(part@));
                assert(views(keys@) + later =~= views(before) + (seq![part@] + later));
            }
        }
        i = i + 1;
    }
    assert(views(keys@) + Seq::<Seq<char>>::empty() =~= views(keys@));
    keys
}

fn param_keys(s: &[char], from: usize, to: usize) -> (keys: Vec<String>)
    requires
        to <= s@.len(),
    ensures
        views(keys@) == param_keys_in(s@, from as int, to as int),
{
    let parameters = chars_of("\"parameters\"");
    match find_object(s, from, to, &parameters) {
        Some(o) => {
            let list = members_of(s, o);
            match find_properties(s, &list) {
                Some(p) => {
                    let inner = members_of(s, p);
                    collect_keys(s, &inner, false)
                },
                None => collect_keys(s, &list, true),
            }
        },
        None => {
            let properties = chars_of("\"properties\"");
            match find_object(s, from, to, &properties) {
                Some(o) => {
                    let list = members_of(s, o);
                    collect_keys(s, &list, false)
                },
                None => {
                    let none: Vec<String> = Vec::new();
                    assert(views(none@) =~= Seq::<Seq<char>>::empty());
                    none
                },
            }
        },
    }
}

fn has_keys(s: &[char], from: usize, to: usize) -> (yes: bool)
    requires
        to <= s@.len(),
    ensures
        yes == declares_keys(s@, from as int, to as int),
{
    let parameters = chars_of("\"parameters\"");
    let properties = chars_of("\"properties\"");
    find_object(s, from, to, &parameters).is_some() || find_object(
        s,
        from,
        to,
        &properties,
    ).is_some()
}

/// Where the scope of the innermost of the first `n` open braces starts and
/// ends.
fn scope(s: &[char], open: &[usize], n: usize) -> (range: (usize, usize))
    requires
        n <= open@.len(),
        forall|k: int| 0 <= k < open@.len() ==> #[trigger] open@[k] < s@.len(),
    ensures
        scope_of(s@, places(open@).take(n as int)) == (range.0 as int, range.1 as int),
        range.1 <= s@.len(),
{
    let total: usize = s.len();
    if n == 0 {
        (0, total)
    } else {
        assert(places(open@).take(n as int).last() == open@[n - 1]);
        let at: usize = open[n - 1];
        assert(at < total);
        (at, end_of_block(s, at + 1))
    }
}

fn tool_keys(s: &[char], last: usize, next: usize, open: &[usize]) -> (keys: Vec<String>)
    requires
        next <= s@.len(),
        forall|k: int| 0 <= k < open@.len() ==> #[trigger] open@[k] < s@.len(),
    ensures
        views(keys@) == keys_around(s@, last as int, next as int, places(open@)),
{
    let mut n: usize = open.len();
    assert(places(open@).take(n as int) =~= places(open@));
    loop
        invariant
            n <= open@.len(),
            next <= s@.len(),
            forall|k: int| 0 <= k < open@.len() ==> #[trigger] open@[k] < s@.len(),
            keys_around(s@, last as int, next as int, places(open@).take(n as int))
                == keys_around(s@, last as int, next as int, places(open@)),
        decreases n,
    {
        let (a, b) = scope(s, open, n);
        let from: usize = if last < a {
            a
        } else {
            last
        };
        let to: usize = if next < b {
            next
        } else {
            b
        };
        if n == 0 || has_keys(s, from, to) {
            return param_keys(s, from, to);
        }
        assert(places(open@).take(n as int).drop_last() =~= places(open@).take(n - 1));
        let (c, d) = scope(s, open, n - 1);
        if c < last || next < d {
            let none: Vec<String> = Vec::new();
            assert(views(none@) =~= Seq::<Seq<char>>::empty());
            return none;
        }
        n = n - 1;
    }
}

impl ToolDef {
    /// The tools a JSON text declares, names and parameter keys.
    ///
    /// Parameters are read in both common styles: flat, where the parameter
    /// names are the members of `parameters`, and JSON Schema, where they are
    /// the members of its `properties`. They may stand before or after the
    /// name, in the object that holds it.
    pub fn from_json(json: &str) -> (tools: Vec<ToolDef>)
        ensures
            are_tools(tools@, tools_from(json@, 0)),
    {
        let s = chars_of(json);
        let key = chars_of("\"name\"");
        let mut tools: Vec<ToolDef> = Vec::new();
        let mut i: usize = 0;
        let ghost mut done: Seq<ToolSpec> = Seq::empty();
        assert(done + tools_from(s@, 0) =~= tools_from(s@, 0));
        while i < s.len()
            invariant
                i <= s@.len(),
                s@ == json@,
                key@ == name_key(),
                done + tools_from(s@, i as int) == tools_from(s@, 0),
                are_tools(tools@, done),
            decreases s.len() - i,
        {
            match find_name(&s, i, &key) {
                Some((at, v)) => {
                    let e: usize = end_of_string(&s, v);
                    let next: usize = match find_name(&s, e, &key) {
                        Some((n, _)) => n,
                        None => s.len(),
                    };
                    let part = part_of(&s, v, e);
                    let name = text_of(&part);
                    let snake_name = to_snake_case(name.as_str());
                    let open = braces_open_at(&s, at);
                    let keys = tool_keys(&s, i, next, &open);
                    let ghost spec = (
                        part@,
                        keys_around(s@, i as int, next as int, places(open@)),
                    );
                    let ghost before = tools@;
                    tools.push(ToolDef { name, snake_name, param_keys: keys });
                    proof {
                        assert(done + (seq![spec] + tools_from(s@, e as int)) =~= done.push(spec)
                            + tools_from(s@, e as int));
                        done = done.push(spec);
                        assert forall|k: int| 0 <= k < tools@.len() implies is_tool(
                            #[trigger] tools@[k],
                            done[k],
                        ) by {
                            if k < before.len() {
                                assert(tools@[k] == before[k]);
                            }
                        }
                    }
                    i = e;
                },
                None => {
                    assert(done + Seq::<ToolSpec>::empty() =~= done);
                    return tools;
                },
            }
        }
        assert(done + Seq::<ToolSpec>::empty() =~= done);
        tools
    }
}

} // verus!
