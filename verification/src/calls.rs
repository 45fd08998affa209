//! The output that constrained decoding follows, as a whole: an array of tool
//! calls, and where the state machine stands at each place in it.

use vstd::prelude::*;
use crate::constrained::{
    args_trigger,
    ends_with,
    feeding_composes,
    first_key_trigger,
    fresh_machine,
    last_bytes,
    name_trigger,
    next_key_trigger,
    run,
    step,
    JsonState,
    Machine,
    TAIL_LEN,
};

verus! {

/// One byte of a string, as it is written.
pub enum StringByte {
    /// A byte that stands for itself: no quote and no backslash.
    Plain(u8),
    /// A backslash and the byte that it hides.
    Escaped(u8),
}

/// A JSON value.
pub enum Value {
    Text(Seq<StringByte>),
    /// A number, `true`, `false` or `null`.
    Bare(Seq<u8>),
    List(Seq<Value>),
    Object(Seq<(Seq<StringByte>, Value)>),
}

/// A tool call: the name of the tool, and its arguments by their keys.
pub struct Call {
    pub name: Seq<u8>,
    pub arguments: Seq<(Seq<u8>, Value)>,
}

/// The bytes of a text that holds ASCII characters alone.
pub open spec fn ascii_bytes(s: Seq<char>) -> Seq<u8> {
    Seq::new(s.len(), |i: int| s[i] as u8)
}

/// The content of a string, as it is written.
pub open spec fn string_content(text: Seq<StringByte>) -> Seq<u8>
    decreases text.len(),
{
    if text.len() == 0 {
        Seq::empty()
    } else {
        string_content(text.drop_last()) + match text.last() {
            StringByte::Plain(b) => seq![b],
            StringByte::Escaped(b) => seq!['\\' as u8, b],
        }
    }
}

/// A string in its quotes.
pub open spec fn string_written(text: Seq<StringByte>) -> Seq<u8> {
    seq!['"' as u8] + string_content(text) + seq!['"' as u8]
}

/// A value, as it is written without white space.
pub open spec fn value_written(v: Value) -> Seq<u8>
    decreases v,
{
    match v {
        Value::Text(text) => string_written(text),
        Value::Bare(bytes) => bytes,
        Value::List(items) => seq!['[' as u8] + items_written(items) + seq![']' as u8],
        Value::Object(members) => seq!['{' as u8] + members_written(members) + seq!['}' as u8],
    }
}

/// The items of a list, with commas between them.
pub open spec fn items_written(items: Seq<Value>) -> Seq<u8>
    decreases items,
{
    if items.len() == 0 {
        Seq::empty()
    } else if items.len() == 1 {
        value_written(items[0])
    } else {
        items_written(items.drop_last()) + seq![',' as u8] + value_written(items[items.len() - 1])
    }
}

/// The members of an object, with commas between them.
pub open spec fn members_written(members: Seq<(Seq<StringByte>, Value)>) -> Seq<u8>
    decreases members,
{
    if members.len() == 0 {
        Seq::empty()
    } else {
        let last = members[members.len() - 1];
        let one = string_written(last.0) + seq![':' as u8] + value_written(last.1);
        if members.len() == 1 {
            one
        } else {
            members_written(members.drop_last()) + seq![',' as u8] + one
        }
    }
}

/// The arguments of a call, with commas between them.
pub open spec fn arguments_written(arguments: Seq<(Seq<u8>, Value)>) -> Seq<u8>
    decreases arguments.len(),
{
    if arguments.len() == 0 {
        Seq::empty()
    } else {
        let last = arguments.last();
        let one = seq!['"' as u8] + last.0 + ascii_bytes("\":"@) + value_written(last.1);
        if arguments.len() == 1 {
            one
        } else {
            arguments_written(arguments.drop_last()) + seq![',' as u8] + one
        }
    }
}

/// A call, as it is written.
pub open spec fn call_written(c: Call) -> Seq<u8> {
    ascii_bytes("{\"name\":\""@) + c.name + ascii_bytes("\",\"arguments\":{"@) + arguments_written(
        c.arguments,
    ) + ascii_bytes("}}"@)
}

/// Calls, with commas between them.
pub open spec fn calls_written(calls: Seq<Call>) -> Seq<u8>
    decreases calls.len(),
{
    if calls.len() == 0 {
        Seq::empty()
    } else if calls.len() == 1 {
        call_written(calls[0])
    } else {
        calls_written(calls.drop_last()) + seq![',' as u8] + call_written(calls.last())
    }
}

/// No byte is a quote.
pub open spec fn no_quote(bytes: Seq<u8>) -> bool {
    forall|i: int| 0 <= i < bytes.len() ==> #[trigger] bytes[i] != '"' as u8
}

/// No plain byte is a quote or a backslash.
pub open spec fn is_string(text: Seq<StringByte>) -> bool {
    forall|i: int|
        0 <= i < text.len() ==> match #[trigger] text[i] {
            StringByte::Plain(b) => b != '"' as u8 && b != '\\' as u8,
            StringByte::Escaped(_) => true,
        }
}

/// A byte of a number or a bare word: none that JSON gives a meaning outside
/// strings.
pub open spec fn is_bare(b: u8) -> bool {
    b != '"' as u8 && b != '{' as u8 && b != '}' as u8 && b != '[' as u8 && b != ']' as u8
}

/// A value is what it says, throughout, and nests less than `room` deep.
pub open spec fn is_value(v: Value, room: nat) -> bool
    decreases v,
{
    match v {
        Value::Text(text) => is_string(text),
        Value::Bare(bytes) => forall|i: int| 0 <= i < bytes.len() ==> is_bare(#[trigger] bytes[i]),
        Value::List(items) => room > 0 && forall|i: int|
            0 <= i < items.len() ==> is_value(#[trigger] items[i], (room - 1) as nat),
        Value::Object(members) => room > 0 && forall|i: int|
            #![trigger members[i]]
            0 <= i < members.len() ==> is_string(members[i].0) && is_value(
                members[i].1,
                (room - 1) as nat,
            ),
    }
}

/// Keys without quotes, and values that nest less deep than can be counted.
pub open spec fn are_arguments(arguments: Seq<(Seq<u8>, Value)>) -> bool {
    forall|i: int|
        #![trigger arguments[i]]
        0 <= i < arguments.len() ==> no_quote(arguments[i].0) && is_value(
            arguments[i].1,
            (usize::MAX - 1) as nat,
        )
}

/// Calls whose names hold no quotes and whose arguments are arguments.
pub open spec fn are_calls(calls: Seq<Call>) -> bool {
    forall|i: int|
        #![trigger calls[i]]
        0 <= i < calls.len() ==> no_quote(calls[i].name) && are_arguments(calls[i].arguments)
}

/// The machine is nowhere but in the output outside strings.
spec fn outside(m: Machine) -> bool {
    &&& m.state == JsonState::Free
    &&& !m.in_string
    &&& m.buf == Seq::<u8>::empty()
    &&& m.tail.len() <= TAIL_LEN
}

/// All but the tail is the same.
spec fn same_but_tail(a: Machine, b: Machine) -> bool {
    &&& a.state == b.state
    &&& a.function == b.function
    &&& a.buf == b.buf
    &&& a.in_string == b.in_string
    &&& a.in_arguments == b.in_arguments
    &&& a.depth == b.depth
    &&& a.tail.len() <= TAIL_LEN
}

/// Nothing is constrained before, within and behind the bytes.
#[verifier::opaque]
spec fn quiet(m: Machine, bytes: Seq<u8>) -> bool {
    forall|i: int|
        0 <= i <= bytes.len() ==> run(m, #[trigger] bytes.take(i)).state == JsonState::Free
}

proof fn lemma_quiet_add(m: Machine, a: Seq<u8>, b: Seq<u8>)
    requires
        quiet(m, a),
        quiet(run(m, a), b),
    ensures
        quiet(m, a + b),
{
    reveal(quiet);
    let all = a + b;
    assert forall|i: int| 0 <= i <= all.len() implies run(m, #[trigger] all.take(i)).state
        == JsonState::Free by {
        if i <= a.len() {
            assert(all.take(i) =~= a.take(i));
        } else {
            assert(all.take(i) =~= a + b.take(i - a.len()));
            feeding_composes(m, a, b.take(i - a.len()));
        }
    }
}

proof fn lemma_one(m: Machine, b: u8)
    ensures
        run(m, seq![b]) == step(m, b),
        quiet(m, seq![b]) <==> m.state == JsonState::Free && step(m, b).state == JsonState::Free,
        step(m, b).tail == last_bytes(m.tail.push(b), TAIL_LEN as nat),
{
    reveal(quiet);
    let one = seq![b];
    assert(one.drop_last() =~= Seq::<u8>::empty());
    assert(run(m, Seq::<u8>::empty()) == m);
    assert(one.take(0) =~= Seq::<u8>::empty());
    assert(one.take(1) =~= one);
    if quiet(m, one) {
        assert(run(m, one.take(0)).state == JsonState::Free);
        assert(run(m, one.take(1)).state == JsonState::Free);
    } else {
        let i = choose|i: int|
            0 <= i <= one.len() && run(m, #[trigger] one.take(i)).state != JsonState::Free;
        assert(i == 0 || i == 1);
    }
}

proof fn lemma_tail(m: Machine, bytes: Seq<u8>)
    requires
        m.tail.len() <= TAIL_LEN,
    ensures
        run(m, bytes).tail == last_bytes(m.tail + bytes, TAIL_LEN as nat),
    decreases bytes.len(),
{
    if bytes.len() == 0 {
        assert(m.tail + bytes =~= m.tail);
    } else {
        let before = bytes.drop_last();
        lemma_tail(m, before);
        let t = run(m, before).tail;
        assert(run(m, bytes).tail == last_bytes(t.push(bytes.last()), TAIL_LEN as nat));
        assert(run(m, bytes).tail =~= last_bytes(m.tail + bytes, TAIL_LEN as nat));
    }
}

proof fn lemma_plain_byte(m: Machine, b: u8)
    requires
        m.state == JsonState::Free,
        m.in_string,
        !m.escaped,
        m.tail.len() <= TAIL_LEN,
        b != '"' as u8,
        b != '\\' as u8,
    ensures
        same_but_tail(run(m, seq![b]), m),
        !run(m, seq![b]).escaped,
        quiet(m, seq![b]),
{
    lemma_one(m, b);
}

proof fn lemma_escaped_byte(m: Machine, b: u8)
    requires
        m.state == JsonState::Free,
        m.in_string,
        !m.escaped,
        m.tail.len() <= TAIL_LEN,
    ensures
        same_but_tail(run(m, seq!['\\' as u8, b]), m),
        !run(m, seq!['\\' as u8, b]).escaped,
        quiet(m, seq!['\\' as u8, b]),
{
    let slash = '\\' as u8;
    lemma_one(m, slash);
    let hidden = step(m, slash);
    lemma_one(hidden, b);
    feeding_composes(m, seq![slash], seq![b]);
    lemma_quiet_add(m, seq![slash], seq![b]);
    assert(seq![slash] + seq![b] =~= seq![slash, b]);
}

/// Inside a string its content changes nothing.
proof fn lemma_string_content(m: Machine, text: Seq<StringByte>)
    requires
        m.state == JsonState::Free,
        m.in_string,
        !m.escaped,
        m.tail.len() <= TAIL_LEN,
        is_string(text),
    ensures
        same_but_tail(run(m, string_content(text)), m),
        !run(m, string_content(text)).escaped,
        quiet(m, string_content(text)),
    decreases text.len(),
{
    if text.len() == 0 {
        lemma_nothing(m);
    } else {
        let before = text.drop_last();
        assert(is_string(before)) by {
            assert forall|i: int| 0 <= i < before.len() implies match #[trigger] before[i] {
                StringByte::Plain(b) => b != '"' as u8 && b != '\\' as u8,
                StringByte::Escaped(_) => true,
            } by {
                assert(before[i] == text[i]);
            }
        }
        lemma_string_content(m, before);
        let w = string_content(before);
        let mid = run(m, w);
        assert(text[text.len() - 1] == text.last());
        let more = match text.last() {
            StringByte::Plain(b) => seq![b],
            StringByte::Escaped(b) => seq!['\\' as u8, b],
        };
        match text.last() {
            StringByte::Plain(b) => lemma_plain_byte(mid, b),
            StringByte::Escaped(b) => lemma_escaped_byte(mid, b),
        }
        feeding_composes(m, w, more);
        lemma_quiet_add(m, w, more);
    }
}

/// A string that opens no slot changes nothing.
proof fn lemma_string(m: Machine, text: Seq<StringByte>)
    requires
        outside(m),
        is_string(text),
        step(m, '"' as u8).state == JsonState::Free,
    ensures
        same_but_tail(run(m, string_written(text)), m),
        quiet(m, string_written(text)),
{
    let quote = seq!['"' as u8];
    let w = string_content(text);
    lemma_one(m, '"' as u8);
    let opened = step(m, '"' as u8);
    lemma_string_content(opened, text);
    let full = run(opened, w);
    lemma_one(full, '"' as u8);
    feeding_composes(m, quote, w);
    feeding_composes(m, quote + w, quote);
    lemma_quiet_add(m, quote, w);
    lemma_quiet_add(m, quote + w, quote);
}

proof fn lemma_bare(m: Machine, bytes: Seq<u8>)
    requires
        outside(m),
        forall|i: int| 0 <= i < bytes.len() ==> is_bare(#[trigger] bytes[i]),
    ensures
        same_but_tail(run(m, bytes), m),
        quiet(m, bytes),
    decreases bytes.len(),
{
    if bytes.len() == 0 {
        assert(bytes =~= Seq::<u8>::empty());
        lemma_nothing(m);
    } else {
        let before = bytes.drop_last();
        assert forall|i: int| 0 <= i < before.len() implies is_bare(#[trigger] before[i]) by {
            assert(before[i] == bytes[i]);
        }
        lemma_bare(m, before);
        assert(is_bare(bytes[bytes.len() - 1]));
        lemma_one(run(m, before), bytes.last());
        lemma_quiet_add(m, before, seq![bytes.last()]);
        assert(before + seq![bytes.last()] =~= bytes);
    }
}

/// A quote opens no slot inside a value: two levels in there are none, and
/// behind a colon neither.
spec fn no_slot_here(m: Machine) -> bool {
    m.depth >= 2 || (m.tail.len() > 0 && m.tail.last() == ':' as u8)
}

proof fn lemma_no_slot(m: Machine)
    requires
        outside(m),
        m.in_arguments,
        no_slot_here(m),
    ensures
        step(m, '"' as u8).state == JsonState::Free,
{
    let t = last_bytes(m.tail.push('"' as u8), TAIL_LEN as nat);
    if m.depth < 2 {
        let n = t.len();
        assert(t[n - 2] == ':' as u8);
        if ends_with(t, first_key_trigger()) {
            assert(t.skip(n - 2)[0] == t[n - 2]);
        }
        if ends_with(t, next_key_trigger()) {
            assert(t.skip(n - 2)[0] == t[n - 2]);
        }
    }
}

/// A value inside the arguments changes nothing, and nothing in it is
/// constrained.
proof fn lemma_value(m: Machine, v: Value, room: nat)
    requires
        outside(m),
        m.in_arguments,
        m.depth >= 1,
        no_slot_here(m),
        is_value(v, room),
        m.depth + room <= usize::MAX,
    ensures
        same_but_tail(run(m, value_written(v)), m),
        quiet(m, value_written(v)),
    decreases v,
{
    match v {
        Value::Text(text) => {
            lemma_no_slot(m);
            lemma_string(m, text);
        },
        Value::Bare(bytes) => {
            lemma_bare(m, bytes);
        },
        Value::List(items) => {
            let inner = step(m, '[' as u8);
            lemma_one(m, '[' as u8);
            lemma_items(inner, items, (room - 1) as nat);
            lemma_bracketed(m, '[' as u8, ']' as u8, items_written(items));
        },
        Value::Object(members) => {
            let inner = step(m, '{' as u8);
            lemma_one(m, '{' as u8);
            lemma_members(inner, members, (room - 1) as nat);
            lemma_bracketed(m, '{' as u8, '}' as u8, members_written(members));
        },
    }
}

/// Brackets around what changes nothing change nothing.
proof fn lemma_bracketed(m: Machine, open: u8, close: u8, w: Seq<u8>)
    requires
        outside(m),
        m.in_arguments,
        1 <= m.depth < usize::MAX,
        (open == '{' as u8 && close == '}' as u8) || (open == '[' as u8 && close == ']' as u8),
        same_but_tail(run(step(m, open), w), step(m, open)),
        quiet(step(m, open), w),
    ensures
        same_but_tail(run(m, seq![open] + w + seq![close]), m),
        quiet(m, seq![open] + w + seq![close]),
{
    lemma_one(m, open);
    let inner = step(m, open);
    let full = run(inner, w);
    lemma_one(full, close);
    feeding_composes(m, seq![open], w);
    feeding_composes(m, seq![open] + w, seq![close]);
    lemma_quiet_add(m, seq![open], w);
    lemma_quiet_add(m, seq![open] + w, seq![close]);
}

proof fn lemma_nothing(m: Machine)
    requires
        m.state == JsonState::Free,
    ensures
        run(m, Seq::<u8>::empty()) == m,
        quiet(m, Seq::<u8>::empty()),
{
    reveal(quiet);
    assert forall|i: int| 0 <= i <= 0 implies run(m, #[trigger] Seq::<u8>::empty().take(i)).state
        == JsonState::Free by {
        assert(Seq::<u8>::empty().take(i) =~= Seq::<u8>::empty());
    }
}

proof fn lemma_items(m: Machine, items: Seq<Value>, room: nat)
    requires
        outside(m),
        m.in_arguments,
        m.depth >= 2,
        m.depth + room <= usize::MAX,
        forall|i: int| 0 <= i < items.len() ==> is_value(#[trigger] items[i], room),
    ensures
        same_but_tail(run(m, items_written(items)), m),
        quiet(m, items_written(items)),
    decreases items,
{
    if items.len() == 0 {
        lemma_nothing(m);
    } else {
        let last = items[items.len() - 1];
        assert(is_value(last, room));
        if items.len() == 1 {
            lemma_value(m, last, room);
        } else {
            let before = items.drop_last();
            assert forall|i: int| 0 <= i < before.len() implies is_value(
                #[trigger] before[i],
                room,
            ) by {
                assert(before[i] == items[i]);
            }
            lemma_items(m, before, room);
            let w = items_written(before);
            let comma = seq![',' as u8];
            let mid = run(m, w);
            lemma_one(mid, ',' as u8);
            lemma_value(step(mid, ',' as u8), last, room);
            feeding_composes(m, w, comma);
            feeding_composes(m, w + comma, value_written(last));
            lemma_quiet_add(m, w, comma);
            lemma_quiet_add(m, w + comma, value_written(last));
        }
    }
}

proof fn lemma_member(m: Machine, member: (Seq<StringByte>, Value), room: nat)
    requires
        outside(m),
        m.in_arguments,
        m.depth >= 2,
        m.depth + room <= usize::MAX,
        is_string(member.0),
        is_value(member.1, room),
    ensures
        ({
            let one = string_written(member.0) + seq![':' as u8] + value_written(member.1);
            same_but_tail(run(m, one), m) && quiet(m, one)
        }),
    decreases member,
{
    let w = string_written(member.0);
    let colon = seq![':' as u8];
    lemma_no_slot(m);
    lemma_string(m, member.0);
    let mid = run(m, w);
    lemma_one(mid, ':' as u8);
    lemma_value(step(mid, ':' as u8), member.1, room);
    feeding_composes(m, w, colon);
    feeding_composes(m, w + colon, value_written(member.1));
    lemma_quiet_add(m, w, colon);
    lemma_quiet_add(m, w + colon, value_written(member.1));
}

proof fn lemma_members(m: Machine, members: Seq<(Seq<StringByte>, Value)>, room: nat)
    requires
        outside(m),
        m.in_arguments,
        m.depth >= 2,
        m.depth + room <= usize::MAX,
        forall|i: int|
            #![trigger members[i]]
            0 <= i < members.len() ==> is_string(members[i].0) && is_value(members[i].1, room),
    ensures
        same_but_tail(run(m, members_written(members)), m),
        quiet(m, members_written(members)),
    decreases members,
{
    if members.len() == 0 {
        lemma_nothing(m);
    } else {
        let last = members[members.len() - 1];
        let one = string_written(last.0) + seq![':' as u8] + value_written(last.1);
        if members.len() == 1 {
            lemma_member(m, last, room);
        } else {
            let before = members.drop_last();
            assert forall|i: int|
                #![trigger before[i]]
                0 <= i < before.len() implies is_string(before[i].0) && is_value(
                before[i].1,
                room,
            ) by {
                assert(before[i] == members[i]);
            }
            lemma_members(m, before, room);
            let w = members_written(before);
            let comma = seq![',' as u8];
            let mid = run(m, w);
            lemma_one(mid, ',' as u8);
            lemma_member(step(mid, ',' as u8), last, room);
            feeding_composes(m, w, comma);
            feeding_composes(m, w + comma, one);
            lemma_quiet_add(m, w, comma);
            lemma_quiet_add(m, w + comma, one);
        }
    }
}

/// A slot takes every byte up to a quote.
proof fn lemma_slot(m: Machine, w: Seq<u8>)
    requires
        m.state != JsonState::Free,
        m.tail.len() <= TAIL_LEN,
        no_quote(w),
    ensures
        ({
            let after = run(m, w);
            &&& after.state == m.state
            &&& after.buf == m.buf + w
            &&& after.function == m.function
            &&& after.in_string == m.in_string
            &&& after.in_arguments == m.in_arguments
            &&& after.depth == m.depth
            &&& after.tail.len() <= TAIL_LEN
        }),
    decreases w.len(),
{
    if w.len() == 0 {
        assert(m.buf + w =~= m.buf);
    } else {
        let before = w.drop_last();
        assert forall|i: int| 0 <= i < before.len() implies #[trigger] before[i] != '"' as u8 by {
            assert(before[i] == w[i]);
        }
        lemma_slot(m, before);
        assert(w[w.len() - 1] != '"' as u8);
        assert((m.buf + before).push(w.last()) =~= m.buf + w);
    }
}

/// The last bytes of a tail behind known output.
proof fn lemma_tail_ends(m: Machine, bytes: Seq<u8>, pat: Seq<u8>)
    requires
        m.tail.len() <= TAIL_LEN,
        pat.len() <= TAIL_LEN,
        pat.len() <= bytes.len(),
    ensures
        ends_with(run(m, bytes).tail, pat) <==> bytes.skip(bytes.len() - pat.len()) == pat,
{
    lemma_tail(m, bytes);
    let t = run(m, bytes).tail;
    assert(t.skip(t.len() - pat.len()) =~= bytes.skip(bytes.len() - pat.len()));
}

proof fn lemma_literals()
    ensures
        ascii_bytes("{\"name\":\""@) == seq!['{' as u8] + name_trigger(),
        ascii_bytes("\",\"arguments\":{"@) == seq!['"' as u8, ',' as u8] + args_trigger(),
        ascii_bytes("\":"@) == seq!['"' as u8, ':' as u8],
        ascii_bytes("}}"@) == seq!['}' as u8, '}' as u8],
{
    reveal_strlit("{\"name\":\"");
    reveal_strlit("\",\"arguments\":{");
    reveal_strlit("\":");
    reveal_strlit("}}");
    assert(ascii_bytes("{\"name\":\""@) =~= seq!['{' as u8] + name_trigger());
    assert(ascii_bytes("\",\"arguments\":{"@) =~= seq!['"' as u8, ',' as u8] + args_trigger());
    assert(ascii_bytes("\":"@) =~= seq!['"' as u8, ':' as u8]);
    assert(ascii_bytes("}}"@) =~= seq!['}' as u8, '}' as u8]);
}

/// Letters of a known key, behind its opening quote.
proof fn lemma_letters(m: Machine, letters: Seq<u8>)
    requires
        m.state == JsonState::Free,
        m.in_string,
        !m.escaped,
        m.tail.len() <= TAIL_LEN,
        forall|i: int|
            0 <= i < letters.len() ==> #[trigger] letters[i] != '"' as u8 && letters[i]
                != '\\' as u8,
    ensures
        same_but_tail(run(m, letters), m),
        !run(m, letters).escaped,
    decreases letters.len(),
{
    if letters.len() > 0 {
        let before = letters.drop_last();
        assert forall|i: int| 0 <= i < before.len() implies #[trigger] before[i] != '"' as u8
            && before[i] != '\\' as u8 by {
            assert(before[i] == letters[i]);
        }
        lemma_letters(m, before);
        assert(letters[letters.len() - 1] == letters.last());
    }
}

/// The machine in the arguments object of a call, where a key may follow.
spec fn at_key(m: Machine) -> bool {
    &&& outside(m)
    &&& m.in_arguments
    &&& m.depth == 1
    &&& m.tail.len() > 0
    &&& m.tail.last() == '{' as u8 || m.tail.last() == ',' as u8
}

/// Where a call may follow: behind a bracket or a comma, with no call open.
spec fn at_call(m: Machine) -> bool {
    &&& outside(m)
    &&& !m.in_arguments
    &&& m.depth == 0
    &&& m.tail.len() > 0
    &&& m.tail.last() == '[' as u8 || m.tail.last() == ',' as u8
}

/// What a tail ends with, its last byte but one tells.
proof fn lemma_other_end(tail: Seq<u8>, b: u8, pat: Seq<u8>)
    requires
        0 < tail.len() <= TAIL_LEN,
        2 <= pat.len(),
        tail.last() != pat[pat.len() - 2],
    ensures
        !ends_with(last_bytes(tail.push(b), TAIL_LEN as nat), pat),
{
    let t = last_bytes(tail.push(b), TAIL_LEN as nat);
    assert(t[t.len() - 2] == tail.last());
    if ends_with(t, pat) {
        assert(t.skip(t.len() - pat.len())[pat.len() - 2] == t[t.len() - 2]);
    }
}

/// A call's start opens the name slot.
proof fn lemma_name_slot(m: Machine)
    requires
        at_call(m),
    ensures
        ({
            let after = run(m, ascii_bytes("{\"name\":\""@));
            &&& after.state == JsonState::InName
            &&& after.buf == Seq::<u8>::empty()
            &&& !after.in_string
            &&& !after.in_arguments
            &&& after.depth == 0
            &&& after.function == m.function
            &&& after.tail.len() <= TAIL_LEN
        }),
{
    lemma_literals();
    let brace = seq!['{' as u8];
    let quote = seq!['"' as u8];
    let letters = seq!['n' as u8, 'a' as u8, 'm' as u8, 'e' as u8];
    let colon = seq![':' as u8];
    let all = brace + name_trigger();
    assert(all =~= ((((brace + quote) + letters) + quote) + colon) + quote);
    lemma_one(m, '{' as u8);
    let m1 = step(m, '{' as u8);
    lemma_other_end(m.tail, '{' as u8, args_trigger());
    lemma_one(m1, '"' as u8);
    let m2 = step(m1, '"' as u8);
    lemma_other_end(m1.tail, '"' as u8, name_trigger());
    feeding_composes(m, brace, quote);
    lemma_letters(m2, letters);
    let m3 = run(m2, letters);
    lemma_one(m3, '"' as u8);
    let m4 = step(m3, '"' as u8);
    lemma_one(m4, ':' as u8);
    let m5 = step(m4, ':' as u8);
    lemma_one(m5, '"' as u8);
    feeding_composes(m, brace + quote, letters);
    feeding_composes(m, (brace + quote) + letters, quote);
    feeding_composes(m, ((brace + quote) + letters) + quote, colon);
    feeding_composes(m, (((brace + quote) + letters) + quote) + colon, quote);
    lemma_tail_ends(m, all, name_trigger());
    assert(all.skip(1) =~= name_trigger());
}

/// The quote behind a name and the arguments key open the arguments object.
proof fn lemma_arguments_open(m: Machine)
    requires
        m.state == JsonState::InName,
        !m.in_string,
        !m.in_arguments,
        m.tail.len() <= TAIL_LEN,
    ensures
        ({
            let after = run(m, ascii_bytes("\",\"arguments\":{"@));
            &&& at_key(after)
            &&& after.function == m.buf
        }),
{
    lemma_literals();
    let quote = seq!['"' as u8];
    let comma = seq![',' as u8];
    let letters = seq![
        'a' as u8,
        'r' as u8,
        'g' as u8,
        'u' as u8,
        'm' as u8,
        'e' as u8,
        'n' as u8,
        't' as u8,
        's' as u8,
    ];
    let colon = seq![':' as u8];
    let brace = seq!['{' as u8];
    let all = seq!['"' as u8, ',' as u8] + args_trigger();
    assert(all =~= (((((quote + comma) + quote) + letters) + quote) + colon) + brace);
    lemma_one(m, '"' as u8);
    let m1 = step(m, '"' as u8);
    lemma_one(m1, ',' as u8);
    let m2 = step(m1, ',' as u8);
    lemma_one(m2, '"' as u8);
    let m3 = step(m2, '"' as u8);
    lemma_other_end(m2.tail, '"' as u8, name_trigger());
    lemma_letters(m3, letters);
    let m4 = run(m3, letters);
    lemma_one(m4, '"' as u8);
    let m5 = step(m4, '"' as u8);
    lemma_one(m5, ':' as u8);
    let m6 = step(m5, ':' as u8);
    lemma_one(m6, '{' as u8);
    feeding_composes(m, quote, comma);
    feeding_composes(m, quote + comma, quote);
    feeding_composes(m, (quote + comma) + quote, letters);
    feeding_composes(m, ((quote + comma) + quote) + letters, quote);
    feeding_composes(m, (((quote + comma) + quote) + letters) + quote, colon);
    feeding_composes(m, ((((quote + comma) + quote) + letters) + quote) + colon, brace);
    lemma_tail_ends(m, all, args_trigger());
    assert(all.skip(2) =~= args_trigger());
}

/// A quote where a key may follow opens the key slot.
proof fn lemma_key_slot(m: Machine)
    requires
        at_key(m),
    ensures
        ({
            let after = run(m, seq!['"' as u8]);
            &&& after.state == JsonState::InArgKey
            &&& after.buf == Seq::<u8>::empty()
            &&& !after.in_string
            &&& after.in_arguments
            &&& after.depth == 1
            &&& after.function == m.function
            &&& after.tail.len() <= TAIL_LEN
        }),
{
    lemma_one(m, '"' as u8);
    let t = last_bytes(m.tail.push('"' as u8), TAIL_LEN as nat);
    let n = t.len();
    assert(t[n - 2] == m.tail.last());
    assert(t[n - 1] == '"' as u8);
    if m.tail.last() == '{' as u8 {
        assert(t.skip(n - 2) =~= first_key_trigger());
    } else {
        assert(t.skip(n - 2) =~= next_key_trigger());
    }
}

/// An argument leaves the machine where it was; nothing in its value is
/// constrained.
proof fn lemma_argument(m: Machine, key: Seq<u8>, v: Value)
    requires
        at_key(m),
        no_quote(key),
        is_value(v, (usize::MAX - 1) as nat),
    ensures
        ({
            let head = seq!['"' as u8] + key + ascii_bytes("\":"@);
            &&& same_but_tail(run(m, head), m)
            &&& quiet(run(m, head), value_written(v))
            &&& same_but_tail(run(m, head + value_written(v)), m)
        }),
{
    lemma_literals();
    let quote = seq!['"' as u8];
    let colon = seq![':' as u8];
    let w = value_written(v);
    lemma_key_slot(m);
    let m1 = run(m, quote);
    lemma_slot(m1, key);
    let m2 = run(m1, key);
    lemma_one(m2, '"' as u8);
    let m3 = step(m2, '"' as u8);
    lemma_one(m3, ':' as u8);
    let m4 = step(m3, ':' as u8);
    lemma_value(m4, v, (usize::MAX - 1) as nat);
    feeding_composes(m, quote, key);
    feeding_composes(m, quote + key, quote);
    feeding_composes(m, (quote + key) + quote, colon);
    let head = quote + key + ascii_bytes("\":"@);
    assert(head =~= ((quote + key) + quote) + colon);
    feeding_composes(m, head, w);
}

proof fn lemma_arguments(m: Machine, arguments: Seq<(Seq<u8>, Value)>)
    requires
        at_key(m),
        are_arguments(arguments),
    ensures
        same_but_tail(run(m, arguments_written(arguments)), m),
    decreases arguments.len(),
{
    if arguments.len() > 0 {
        let last = arguments.last();
        let head = seq!['"' as u8] + last.0 + ascii_bytes("\":"@);
        let one = head + value_written(last.1);
        assert(arguments[arguments.len() - 1] == last);
        if arguments.len() == 1 {
            lemma_argument(m, last.0, last.1);
        } else {
            let before = arguments.drop_last();
            lemma_shorter(arguments);
            lemma_arguments(m, before);
            let w = arguments_written(before);
            let comma = seq![',' as u8];
            let mid = run(m, w);
            lemma_one(mid, ',' as u8);
            lemma_argument(step(mid, ',' as u8), last.0, last.1);
            feeding_composes(m, w, comma);
            feeding_composes(m, w + comma, one);
        }
    }
}

proof fn lemma_shorter(arguments: Seq<(Seq<u8>, Value)>)
    requires
        are_arguments(arguments),
        arguments.len() > 0,
    ensures
        are_arguments(arguments.drop_last()),
{
    let before = arguments.drop_last();
    assert forall|i: int|
        #![trigger before[i]]
        0 <= i < before.len() implies no_quote(before[i].0) && is_value(
        before[i].1,
        (usize::MAX - 1) as nat,
    ) by {
        assert(before[i] == arguments[i]);
    }
}

proof fn lemma_call(m: Machine, c: Call)
    requires
        at_call(m),
        no_quote(c.name),
        are_arguments(c.arguments),
    ensures
        ({
            let after = run(m, call_written(c));
            &&& outside(after)
            &&& !after.in_arguments
            &&& after.depth == 0
            &&& after.function == c.name
        }),
{
    lemma_literals();
    let a = ascii_bytes("{\"name\":\""@);
    let b = ascii_bytes("\",\"arguments\":{"@);
    let w = arguments_written(c.arguments);
    let brace = seq!['}' as u8];
    lemma_name_slot(m);
    lemma_slot(run(m, a), c.name);
    assert(Seq::<u8>::empty() + c.name =~= c.name);
    let named = run(run(m, a), c.name);
    lemma_arguments_open(named);
    let opened = run(named, b);
    lemma_arguments(opened, c.arguments);
    let full = run(opened, w);
    lemma_one(full, '}' as u8);
    let closed = step(full, '}' as u8);
    lemma_one(closed, '}' as u8);
    feeding_composes(m, a, c.name);
    feeding_composes(m, a + c.name, b);
    feeding_composes(m, a + c.name + b, w);
    feeding_composes(m, a + c.name + b + w, brace);
    feeding_composes(m, (a + c.name + b + w) + brace, brace);
    assert(call_written(c) =~= ((a + c.name + b + w) + brace) + brace);
}

/// The output up to the next call: the opening bracket, the calls so far, and
/// a comma behind them if there are any.
pub open spec fn up_to_next_call(calls: Seq<Call>) -> Seq<u8> {
    let open = seq!['[' as u8] + calls_written(calls);
    if calls.len() > 0 {
        open + seq![',' as u8]
    } else {
        open
    }
}

proof fn lemma_calls(calls: Seq<Call>)
    requires
        are_calls(calls),
    ensures
        ({
            let after = run(fresh_machine(), seq!['[' as u8] + calls_written(calls));
            &&& outside(after)
            &&& !after.in_arguments
            &&& after.depth == 0
            &&& calls.len() > 0 ==> after.function == calls.last().name
            &&& calls.len() == 0 ==> after.function.len() == 0
        }),
        at_call(run(fresh_machine(), up_to_next_call(calls))),
    decreases calls.len(),
{
    let m = fresh_machine();
    let bracket = seq!['[' as u8];
    let comma = seq![',' as u8];
    let w = calls_written(calls);
    lemma_one(m, '[' as u8);
    let m1 = step(m, '[' as u8);
    assert(m1.tail =~= bracket);
    if calls.len() == 0 {
        assert(bracket + w =~= bracket);
    } else {
        let before = calls.drop_last();
        assert(are_calls(before)) by {
            assert forall|i: int|
                #![trigger before[i]]
                0 <= i < before.len() implies no_quote(before[i].name) && are_arguments(
                before[i].arguments,
            ) by {
                assert(before[i] == calls[i]);
            }
        }
        lemma_calls(before);
        let last = calls.last();
        assert(calls[calls.len() - 1] == last);
        let head = up_to_next_call(before);
        lemma_call(run(m, head), last);
        feeding_composes(m, head, call_written(last));
        if calls.len() == 1 {
            assert(before.len() == 0);
            assert(calls_written(before) =~= Seq::<u8>::empty());
            assert(head =~= bracket);
            assert(bracket + w =~= head + call_written(last));
        } else {
            assert(bracket + w =~= head + call_written(last));
        }
        let after = run(m, bracket + w);
        lemma_one(after, ',' as u8);
        feeding_composes(m, bracket + w, comma);
    }
}

/// After whole calls the machine is out of them: nothing is constrained, no
/// string and no arguments object is open, and the name that it holds is that
/// of the last call.
pub proof fn whole_calls_leave_nothing_open(calls: Seq<Call>)
    requires
        are_calls(calls),
    ensures
        ({
            let m = run(fresh_machine(), seq!['[' as u8] + calls_written(calls));
            &&& m.state == JsonState::Free
            &&& !m.in_string
            &&& !m.in_arguments
            &&& calls.len() > 0 ==> m.function == calls.last().name
        }),
{
    lemma_calls(calls);
}

/// The name of every call of an array is constrained, not only the first: behind
/// any calls, the start of another stands in the name slot, which holds what was
/// written of the name.
pub proof fn every_call_opens_the_name_slot(calls: Seq<Call>, written: Seq<u8>)
    requires
        are_calls(calls),
        no_quote(written),
    ensures
        ({
            let output = up_to_next_call(calls) + ascii_bytes("{\"name\":\""@) + written;
            let m = run(fresh_machine(), output);
            m.state == JsonState::InName && m.buf == written
        }),
{
    let m = fresh_machine();
    let head = up_to_next_call(calls);
    let a = ascii_bytes("{\"name\":\""@);
    lemma_calls(calls);
    lemma_name_slot(run(m, head));
    feeding_composes(m, head, a);
    lemma_slot(run(m, head + a), written);
    feeding_composes(m, head + a, written);
    assert(Seq::<u8>::empty() + written =~= written);
}

/// The output in the arguments object of a call, behind whole arguments.
pub open spec fn in_arguments(calls: Seq<Call>, name: Seq<u8>, done: Seq<(Seq<u8>, Value)>) -> Seq<
    u8,
> {
    let open = up_to_next_call(calls) + ascii_bytes("{\"name\":\""@) + name + ascii_bytes(
        "\",\"arguments\":{"@,
    ) + arguments_written(done);
    if done.len() > 0 {
        open + seq![',' as u8]
    } else {
        open
    }
}

proof fn lemma_in_arguments(calls: Seq<Call>, name: Seq<u8>, done: Seq<(Seq<u8>, Value)>)
    requires
        are_calls(calls),
        no_quote(name),
        are_arguments(done),
    ensures
        at_key(run(fresh_machine(), in_arguments(calls, name, done))),
        run(fresh_machine(), in_arguments(calls, name, done)).function == name,
{
    let m = fresh_machine();
    let head = up_to_next_call(calls);
    let a = ascii_bytes("{\"name\":\""@);
    let b = ascii_bytes("\",\"arguments\":{"@);
    let w = arguments_written(done);
    lemma_calls(calls);
    lemma_name_slot(run(m, head));
    feeding_composes(m, head, a);
    lemma_slot(run(m, head + a), name);
    feeding_composes(m, head + a, name);
    assert(Seq::<u8>::empty() + name =~= name);
    lemma_arguments_open(run(m, head + a + name));
    feeding_composes(m, head + a + name, b);
    let opened = run(m, head + a + name + b);
    lemma_arguments(opened, done);
    feeding_composes(m, head + a + name + b, w);
    if done.len() > 0 {
        lemma_one(run(opened, w), ',' as u8);
        feeding_composes(m, head + a + name + b + w, seq![',' as u8]);
    } else {
        assert(w =~= Seq::<u8>::empty());
        assert(head + a + name + b + w =~= head + a + name + b);
    }
}

/// Every key of every arguments object is constrained by the tool that the call
/// names, whatever stands in the arguments before it.
pub proof fn every_argument_opens_the_key_slot(
    calls: Seq<Call>,
    name: Seq<u8>,
    done: Seq<(Seq<u8>, Value)>,
    written: Seq<u8>,
)
    requires
        are_calls(calls),
        no_quote(name),
        are_arguments(done),
        no_quote(written),
    ensures
        ({
            let output = in_arguments(calls, name, done) + seq!['"' as u8] + written;
            let m = run(fresh_machine(), output);
            m.state == JsonState::InArgKey && m.buf == written && m.function == name
        }),
{
    let m = fresh_machine();
    let head = in_arguments(calls, name, done);
    let quote = seq!['"' as u8];
    lemma_in_arguments(calls, name, done);
    lemma_key_slot(run(m, head));
    feeding_composes(m, head, quote);
    lemma_slot(run(m, head + quote), written);
    feeding_composes(m, head + quote, written);
    assert(Seq::<u8>::empty() + written =~= written);
}

/// What an argument's value is made of is never constrained, at any place in
/// it: not its strings, and not the keys of objects inside it.
pub proof fn values_are_never_constrained(
    calls: Seq<Call>,
    name: Seq<u8>,
    done: Seq<(Seq<u8>, Value)>,
    key: Seq<u8>,
    v: Value,
    i: int,
)
    requires
        are_calls(calls),
        no_quote(name),
        are_arguments(done),
        no_quote(key),
        is_value(v, (usize::MAX - 1) as nat),
        0 <= i <= value_written(v).len(),
    ensures
        ({
            let output = in_arguments(calls, name, done) + (seq!['"' as u8] + key + ascii_bytes(
                "\":"@,
            )) + value_written(v).take(i);
            run(fresh_machine(), output).state == JsonState::Free
        }),
{
    let m = fresh_machine();
    let head = in_arguments(calls, name, done);
    let start = seq!['"' as u8] + key + ascii_bytes("\":"@);
    lemma_in_arguments(calls, name, done);
    lemma_argument(run(m, head), key, v);
    reveal(quiet);
    feeding_composes(m, head, start);
    feeding_composes(m, head + start, value_written(v).take(i));
}

} // verus!
